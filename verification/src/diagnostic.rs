use vstd::prelude::*;

use crate::chart::CanonicalView;

verus! {

/// Something a render noticed about a model.
#[derive(Clone, Copy, Debug, PartialEq, Eq, PartialOrd, Ord)]
pub enum RenderDiagnostic {
    ReliefBeyondOpposingPlane { view: CanonicalView, source_x: u32, source_y: u32 },
    EqualDepthColorConflict { x: u32, y: u32, first: CanonicalView, second: CanonicalView },
    WarpFold { view: CanonicalView, source_x: u32, source_y: u32 },
    HeavyChartOverlap { covered_pixels: u32, conflicting_pixels: u32 },
    InsufficientCoverage { covered_pixels: u32, total_pixels: u32 },
}

/// The copies of one diagnostic after its frame is placed at
/// `(destination_x, destination_y)` and scaled: a pixel conflict becomes one
/// per covered sheet pixel, row by row; anything else is kept as is.
pub open spec fn placed(
    diagnostic: RenderDiagnostic,
    destination_x: int,
    destination_y: int,
    scale: int,
) -> Seq<RenderDiagnostic> {
    match diagnostic {
        RenderDiagnostic::EqualDepthColorConflict { x, y, first, second } => Seq::new(
            (scale * scale) as nat,
            |k: int|
                RenderDiagnostic::EqualDepthColorConflict {
                    x: (destination_x + x * scale + k % scale) as u32,
                    y: (destination_y + y * scale + k / scale) as u32,
                    first,
                    second,
                },
        ),
        _ => seq![diagnostic],
    }
}

/// Every diagnostic of `source` placed, in order.
pub open spec fn all_placed(
    source: Seq<RenderDiagnostic>,
    destination_x: int,
    destination_y: int,
    scale: int,
) -> Seq<RenderDiagnostic>
    decreases source.len(),
{
    if source.len() == 0 {
        Seq::empty()
    } else {
        all_placed(source.drop_last(), destination_x, destination_y, scale) + placed(
            source.last(),
            destination_x,
            destination_y,
            scale,
        )
    }
}

/// Placed coordinates of every pixel conflict fit `u32`.
pub open spec fn placement_fits(
    source: Seq<RenderDiagnostic>,
    destination_x: int,
    destination_y: int,
    scale: int,
) -> bool {
    forall|i: int|
        0 <= i < source.len() ==> match #[trigger] source[i] {
            RenderDiagnostic::EqualDepthColorConflict { x, y, .. } => destination_x + x * scale + scale <= u32::MAX
                && destination_y + y * scale + scale <= u32::MAX,
            _ => true,
        }
}

/// Appends `source` as seen in a frame placed at `(destination_x,
/// destination_y)` and scaled by `scale`: each pixel conflict is repeated for
/// every sheet pixel its frame pixel covers.
pub fn append_diagnostics(
    source: &[RenderDiagnostic],
    destination: &mut Vec<RenderDiagnostic>,
    destination_x: u32,
    destination_y: u32,
    scale: u32,
)
    requires
        placement_fits(source@, destination_x as int, destination_y as int, scale as int),
    ensures
        final(destination)@ == old(destination)@ + all_placed(
            source@,
            destination_x as int,
            destination_y as int,
            scale as int,
        ),
{
    let ghost start = destination@;
    let mut index: usize = 0;
    while index < source.len()
        invariant
            placement_fits(source@, destination_x as int, destination_y as int, scale as int),
            index <= source@.len(),
            destination@ == start + all_placed(
                source@.take(index as int),
                destination_x as int,
                destination_y as int,
                scale as int,
            ),
        decreases source@.len() - index,
    {
        let diagnostic = source[index];
        let ghost before = destination@;
        proof {
            assert(source@.take(index + 1).drop_last() =~= source@.take(index as int));
            assert(source@.take(index + 1).last() == diagnostic);
        }
        match diagnostic {
            RenderDiagnostic::EqualDepthColorConflict { x, y, first, second } => {
                proof {
                    assert(source@[index as int] == diagnostic);
                }
                let mut scale_y: u32 = 0;
                while scale_y < scale
                    invariant
                        destination_x + x * scale + scale <= u32::MAX,
                        destination_y + y * scale + scale <= u32::MAX,
                        scale_y <= scale,
                        destination@ == before + placed(
                            diagnostic,
                            destination_x as int,
                            destination_y as int,
                            scale as int,
                        ).take(scale_y * scale),
                        diagnostic == (RenderDiagnostic::EqualDepthColorConflict { x, y, first, second }),
                    decreases scale - scale_y,
                {
                    let mut scale_x: u32 = 0;
                    while scale_x < scale
                        invariant
                            destination_x + x * scale + scale <= u32::MAX,
                            destination_y + y * scale + scale <= u32::MAX,
                            scale_y < scale,
                            scale_x <= scale,
                            destination@ == before + placed(
                                diagnostic,
                                destination_x as int,
                                destination_y as int,
                                scale as int,
                            ).take(scale_y * scale + scale_x),
                            diagnostic == (RenderDiagnostic::EqualDepthColorConflict { x, y, first, second }),
                        decreases scale - scale_x,
                    {
                        proof {
                            assert(x * scale <= u32::MAX) by (nonlinear_arith)
                                requires
                                    destination_x + x * scale + scale <= u32::MAX,
                                    destination_x >= 0,
                                    scale >= 0,
                            ;
                            assert(y * scale <= u32::MAX) by (nonlinear_arith)
                                requires
                                    destination_y + y * scale + scale <= u32::MAX,
                                    destination_y >= 0,
                                    scale >= 0,
                            ;
                        }
                        let placed_x = destination_x + x * scale + scale_x;
                        let placed_y = destination_y + y * scale + scale_y;
                        let ghost k = scale_y * scale + scale_x;
                        let ghost all = placed(diagnostic, destination_x as int, destination_y as int, scale as int);
                        proof {
                            assert(k < scale * scale) by (nonlinear_arith)
                                requires
                                    k == scale_y * scale + scale_x,
                                    scale_y < scale,
                                    scale_x < scale,
                            ;
                            vstd::arithmetic::div_mod::lemma_fundamental_div_mod(k, scale as int);
                            assert(k % (scale as int) == scale_x && k / (scale as int) == scale_y) by {
                                vstd::arithmetic::div_mod::lemma_mod_multiples_vanish(
                                    scale_y as int,
                                    scale_x as int,
                                    scale as int,
                                );
                                vstd::arithmetic::div_mod::lemma_div_multiples_vanish_fancy(
                                    scale_y as int,
                                    scale_x as int,
                                    scale as int,
                                );
                                vstd::arithmetic::mul::lemma_mul_is_commutative(scale_y as int, scale as int);
                                vstd::arithmetic::div_mod::lemma_small_mod(scale_x as nat, scale as nat);
                            }
                            assert(all.take(k + 1) =~= all.take(k).push(all[k]));
                        }
                        destination.push(
                            RenderDiagnostic::EqualDepthColorConflict { x: placed_x, y: placed_y, first, second },
                        );
                        scale_x += 1;
                    }
                    proof {
                        assert(scale_y * scale + scale == (scale_y + 1) * scale) by (nonlinear_arith);
                    }
                    scale_y += 1;
                }
                proof {
                    let all = placed(diagnostic, destination_x as int, destination_y as int, scale as int);
                    assert(all.take(scale * scale) =~= all);
                }
            },
            _ => {
                destination.push(diagnostic);
                proof {
                    assert(placed(diagnostic, destination_x as int, destination_y as int, scale as int) =~= seq![
                        diagnostic,
                    ]);
                }
            },
        }
        proof {
            assert(destination@ =~= start + all_placed(
                source@.take(index + 1),
                destination_x as int,
                destination_y as int,
                scale as int,
            ));
        }
        index += 1;
    }
    proof {
        assert(source@.take(source@.len() as int) =~= source@);
    }
}

} // verus!
