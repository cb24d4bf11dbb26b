//! Which capture side owns each covered texel: the fixpoint of resolving
//! ownership in score order under the current bans and banning the far
//! endpoint of every cut edge whose endpoints are both kept.
//!
//! Texels of all sides are numbered side after side. The sweep order, each
//! sample's better-placed candidates, and each cut edge with its far
//! endpoint are computed by the caller from the geometry.

use vstd::prelude::*;

verus! {

/// Some candidate of `candidates` is kept.
pub open spec fn taken(kept: Seq<bool>, candidates: Seq<usize>) -> bool {
    exists|k: int| 0 <= k < candidates.len() && kept[#[trigger] candidates[k] as int]
}

/// The keeps after sweeping the first `count` samples of `order` under
/// `banned`: every texel starts unkept, and a sample that is not banned is
/// kept exactly when none of its better candidates is kept at that point.
pub open spec fn sweep(order: Seq<usize>, better: Seq<Vec<usize>>, banned: Seq<bool>, count: int) -> Seq<bool>
    decreases count,
{
    if count <= 0 {
        Seq::new(banned.len(), |position: int| false)
    } else {
        let kept = sweep(order, better, banned, count - 1);
        let sample = order[count - 1] as int;
        if banned[sample] {
            kept
        } else {
            kept.update(sample, !taken(kept, better[count - 1]@))
        }
    }
}

/// Every sample, candidate and edge endpoint names one of `total` texels,
/// and each sample has its list of candidates.
pub open spec fn inputs_in_range(
    total: int,
    order: Seq<usize>,
    better: Seq<Vec<usize>>,
    edges: Seq<(usize, usize)>,
) -> bool {
    &&& better.len() == order.len()
    &&& forall|k: int| 0 <= k < order.len() ==> #[trigger] order[k] < total
    &&& forall|k: int, c: int|
        0 <= k < better.len() && 0 <= c < better[k]@.len() ==> #[trigger] better[k]@[c] < total
    &&& forall|e: int| 0 <= e < edges.len() ==> (#[trigger] edges[e]).0 < total && edges[e].1 < total
}

/// How many texels are marked.
pub open spec fn marked_count(marks: Seq<bool>) -> nat
    decreases marks.len(),
{
    if marks.len() == 0 {
        0
    } else {
        marked_count(marks.drop_last()) + if marks.last() {
            1nat
        } else {
            0nat
        }
    }
}

proof fn lemma_marked_count_bound(marks: Seq<bool>)
    ensures
        marked_count(marks) <= marks.len(),
    decreases marks.len(),
{
    if marks.len() > 0 {
        lemma_marked_count_bound(marks.drop_last());
    }
}

proof fn lemma_mark_one_more(marks: Seq<bool>, position: int)
    requires
        0 <= position < marks.len(),
        !marks[position],
    ensures
        marked_count(marks.update(position, true)) == marked_count(marks) + 1,
    decreases marks.len(),
{
    let marked = marks.update(position, true);
    if position == marks.len() - 1 {
        assert(marked.drop_last() =~= marks.drop_last());
    } else {
        lemma_mark_one_more(marks.drop_last(), position);
        assert(marked.drop_last() =~= marks.drop_last().update(position, true));
    }
}

/// The sweep marks only texels it was given, never a banned one, and keeps
/// only texels that are samples.
proof fn lemma_sweep_shape(order: Seq<usize>, better: Seq<Vec<usize>>, banned: Seq<bool>, count: int)
    requires
        0 <= count <= order.len(),
        forall|k: int| 0 <= k < order.len() ==> #[trigger] order[k] < banned.len(),
    ensures
        sweep(order, better, banned, count).len() == banned.len(),
        forall|position: int|
            0 <= position < banned.len() && #[trigger] sweep(order, better, banned, count)[position] ==> !banned[position]
                && exists|k: int| 0 <= k < count && order[k] as int == position,
    decreases count,
{
    if count > 0 {
        lemma_sweep_shape(order, better, banned, count - 1);
        let kept = sweep(order, better, banned, count - 1);
        let sample = order[count - 1] as int;
        assert forall|position: int|
            0 <= position < banned.len() && #[trigger] sweep(order, better, banned, count)[position] implies !banned[position]
                && exists|k: int| 0 <= k < count && order[k] as int == position by {
            if position != sample || banned[sample] {
                assert(kept[position]);
                let k = choose|k: int| 0 <= k < count - 1 && order[k] as int == position;
                assert(0 <= k < count && order[k] as int == position);
            } else {
                assert(order[count - 1] as int == position);
            }
        }
    }
}

/// Some edge among the first `count` has `position` as its far endpoint and
/// both its endpoints kept.
pub open spec fn far_of_kept_edge(kept: Seq<bool>, edges: Seq<(usize, usize)>, count: int, position: int) -> bool {
    exists|e: int|
        0 <= e < count && (#[trigger] edges[e]).1 as int == position && kept[edges[e].0 as int] && kept[edges[e].1
            as int]
}

/// One pass of the fixpoint: resolve under `banned`, then ban the far
/// endpoint of every cut edge whose endpoints are both kept.
pub open spec fn ban_step(
    order: Seq<usize>,
    better: Seq<Vec<usize>>,
    edges: Seq<(usize, usize)>,
    banned: Seq<bool>,
) -> Seq<bool> {
    let kept = sweep(order, better, banned, order.len() as int);
    Seq::new(banned.len(), |position: int| banned[position] || far_of_kept_edge(kept, edges, edges.len() as int, position))
}

/// The bans reached from `banned` by repeating passes until one bans
/// nothing new.
pub open spec fn bans_from(
    order: Seq<usize>,
    better: Seq<Vec<usize>>,
    edges: Seq<(usize, usize)>,
    banned: Seq<bool>,
) -> Seq<bool>
    decreases banned.len() - marked_count(banned),
{
    let next = ban_step(order, better, edges, banned);
    if marked_count(banned) < marked_count(next) <= banned.len() {
        bans_from(order, better, edges, next)
    } else {
        banned
    }
}

/// The bans of the ownership fixpoint over `total` texels: passes repeated
/// from no bans at all.
pub open spec fn fixpoint_bans(
    total: int,
    order: Seq<usize>,
    better: Seq<Vec<usize>>,
    edges: Seq<(usize, usize)>,
) -> Seq<bool> {
    bans_from(order, better, edges, Seq::new(total as nat, |position: int| false))
}

/// The outcome of the ownership fixpoint, over all texels side after side.
pub struct OwnershipMasks {
    pub kept: Vec<bool>,
    pub banned: Vec<bool>,
}

fn any_kept(kept: &Vec<bool>, candidates: &Vec<usize>) -> (found: bool)
    requires
        forall|c: int| 0 <= c < candidates@.len() ==> #[trigger] candidates@[c] < kept@.len(),
    ensures
        found == taken(kept@, candidates@),
{
    let mut index: usize = 0;
    while index < candidates.len()
        invariant
            index <= candidates@.len(),
            forall|c: int| 0 <= c < candidates@.len() ==> #[trigger] candidates@[c] < kept@.len(),
            forall|c: int| 0 <= c < index ==> !kept@[#[trigger] candidates@[c] as int],
        decreases candidates@.len() - index,
    {
        if kept[candidates[index]] {
            return true;
        }
        index += 1;
    }
    false
}

/// Resolves ownership once under `banned`: samples in sweep order, each
/// kept unless banned or one of its better candidates is kept already.
fn resolve(order: &Vec<usize>, better: &Vec<Vec<usize>>, banned: &Vec<bool>) -> (kept: Vec<bool>)
    requires
        inputs_in_range(banned@.len() as int, order@, better@, Seq::empty()),
    ensures
        kept@ == sweep(order@, better@, banned@, order@.len() as int),
{
    let mut kept: Vec<bool> = Vec::new();
    let mut position: usize = 0;
    while position < banned.len()
        invariant
            position <= banned@.len(),
            kept@ =~= Seq::new(position as nat, |p: int| false),
        decreases banned@.len() - position,
    {
        kept.push(false);
        position += 1;
    }
    let mut index: usize = 0;
    while index < order.len()
        invariant
            index <= order@.len(),
            inputs_in_range(banned@.len() as int, order@, better@, Seq::empty()),
            kept@ == sweep(order@, better@, banned@, index as int),
        decreases order@.len() - index,
    {
        proof {
            lemma_sweep_shape(order@, better@, banned@, index as int);
        }
        let sample = order[index];
        if !banned[sample] {
            let found = any_kept(&kept, &better[index]);
            kept.set(sample, !found);
        }
        index += 1;
    }
    kept
}

/// The ownership fixpoint over `total` texels: resolve keeps in sweep order
/// under the current bans, then ban the far endpoint of every cut edge
/// whose endpoints are both kept, and repeat until a pass bans nothing.
/// Bans only accumulate, so the passes end. The bans are exactly those the
/// passes reach from no bans; the keeps are the resolution under them; no
/// texel is both kept and banned, every
/// kept texel is a sample, every banned texel is the far endpoint of a cut
/// edge, and no cut edge has both endpoints kept.
pub fn ownership_fixpoint(
    total: usize,
    order: &Vec<usize>,
    better: &Vec<Vec<usize>>,
    edges: &Vec<(usize, usize)>,
) -> (masks: OwnershipMasks)
    requires
        inputs_in_range(total as int, order@, better@, edges@),
    ensures
        masks.banned@.len() == total,
        masks.banned@ == fixpoint_bans(total as int, order@, better@, edges@),
        ban_step(order@, better@, edges@, masks.banned@) == masks.banned@,
        masks.kept@ == sweep(order@, better@, masks.banned@, order@.len() as int),
        forall|position: int| 0 <= position < total ==> !(#[trigger] masks.kept@[position] && masks.banned@[position]),
        forall|position: int|
            0 <= position < total && #[trigger] masks.kept@[position] ==> exists|k: int|
                0 <= k < order@.len() && order@[k] as int == position,
        forall|position: int|
            0 <= position < total && #[trigger] masks.banned@[position] ==> exists|e: int|
                0 <= e < edges@.len() && edges@[e].1 as int == position,
        forall|e: int|
            0 <= e < edges@.len() ==> !(masks.kept@[(#[trigger] edges@[e]).0 as int] && masks.kept@[edges@[e].1 as int]),
{
    let mut banned: Vec<bool> = Vec::new();
    let mut position: usize = 0;
    while position < total
        invariant
            position <= total,
            banned@ =~= Seq::new(position as nat, |p: int| false),
        decreases total - position,
    {
        banned.push(false);
        position += 1;
    }
    proof {
        assert(marked_count(banned@) == 0) by {
            lemma_all_clear(banned@);
        }
        assert(banned@ == Seq::new(total as nat, |position: int| false));
    }
    loop
        invariant
            inputs_in_range(total as int, order@, better@, edges@),
            banned@.len() == total,
            bans_from(order@, better@, edges@, banned@) == fixpoint_bans(total as int, order@, better@, edges@),
            marked_count(banned@) <= total,
            forall|position: int|
                0 <= position < total && #[trigger] banned@[position] ==> exists|e: int|
                    0 <= e < edges@.len() && edges@[e].1 as int == position,
        decreases total - marked_count(banned@),
    {
        let kept = resolve(order, better, &banned);
        proof {
            lemma_sweep_shape(order@, better@, banned@, order@.len() as int);
            lemma_marked_count_bound(banned@);
        }
        let ghost before = banned@;
        let mut new_bans = false;
        let mut index: usize = 0;
        while index < edges.len()
            invariant
                index <= edges@.len(),
                inputs_in_range(total as int, order@, better@, edges@),
                banned@.len() == total,
                kept@.len() == total,
                new_bans ==> marked_count(banned@) > marked_count(before),
                !new_bans ==> banned@ == before,
                forall|p: int| 0 <= p < total && before[p] ==> #[trigger] banned@[p],
                marked_count(banned@) <= total,
                forall|position: int|
                    0 <= position < total && #[trigger] banned@[position] ==> exists|e: int|
                        0 <= e < edges@.len() && edges@[e].1 as int == position,
                forall|e: int|
                    0 <= e < index ==> (kept@[(#[trigger] edges@[e]).0 as int] && kept@[edges@[e].1 as int]
                        ==> banned@[edges@[e].1 as int]),
                forall|p: int|
                    0 <= p < total ==> #[trigger] banned@[p] == (before[p] || far_of_kept_edge(
                        kept@,
                        edges@,
                        index as int,
                        p,
                    )),
            decreases edges@.len() - index,
        {
            let (near, far) = edges[index];
            let ghost previous = banned@;
            if kept[near] && kept[far] && !banned[far] {
                proof {
                    lemma_mark_one_more(banned@, far as int);
                    lemma_marked_count_bound(banned@.update(far as int, true));
                }
                banned.set(far, true);
                new_bans = true;
                assert(edges@[index as int].1 as int == far as int);
            }
            proof {
                let i = index as int;
                assert forall|p: int| 0 <= p < total implies #[trigger] banned@[p] == (before[p] || far_of_kept_edge(
                    kept@,
                    edges@,
                    i + 1,
                    p,
                )) by {
                    if far_of_kept_edge(kept@, edges@, i + 1, p) && !far_of_kept_edge(kept@, edges@, i, p) {
                        let e = choose|e: int|
                            0 <= e < i + 1 && (#[trigger] edges@[e]).1 as int == p && kept@[edges@[e].0 as int]
                                && kept@[edges@[e].1 as int];
                        assert(e == i);
                    }
                    if far_of_kept_edge(kept@, edges@, i, p) {
                        let e = choose|e: int|
                            0 <= e < i && (#[trigger] edges@[e]).1 as int == p && kept@[edges@[e].0 as int]
                                && kept@[edges@[e].1 as int];
                        assert(0 <= e < i + 1);
                    }
                    if p == far as int && kept@[near as int] && kept@[far as int] {
                        assert(edges@[i].1 as int == p);
                    }
                }
            }
            index += 1;
        }
        proof {
            let step = ban_step(order@, better@, edges@, before);
            assert(kept@ == sweep(order@, better@, before, order@.len() as int));
            assert(banned@ =~= step);
            lemma_marked_count_bound(step);
        }
        if !new_bans {
            proof {
                assert forall|e: int| 0 <= e < edges@.len() implies !(kept@[(#[trigger] edges@[e]).0 as int]
                    && kept@[edges@[e].1 as int]) by {
                    let far = edges@[e].1 as int;
                    if kept@[edges@[e].0 as int] && kept@[far] {
                        assert(banned@[far]);
                        assert(sweep(order@, better@, banned@, order@.len() as int)[far]);
                    }
                }
                assert forall|position: int| 0 <= position < total implies !(#[trigger] kept@[position]
                    && banned@[position]) by {
                    if kept@[position] {
                        assert(sweep(order@, better@, banned@, order@.len() as int)[position]);
                    }
                }
                assert forall|position: int| 0 <= position < total && #[trigger] kept@[position] implies exists|
                    k: int,
                | 0 <= k < order@.len() && order@[k] as int == position by {
                    assert(sweep(order@, better@, banned@, order@.len() as int)[position]);
                }
            }
            return OwnershipMasks { kept, banned };
        }
    }
}

proof fn lemma_all_clear(marks: Seq<bool>)
    requires
        forall|position: int| 0 <= position < marks.len() ==> !#[trigger] marks[position],
    ensures
        marked_count(marks) == 0,
    decreases marks.len(),
{
    if marks.len() > 0 {
        lemma_all_clear(marks.drop_last());
    }
}

} // verus!
