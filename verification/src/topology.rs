//! Triangle lists, strips and fans expanded to index triples.

use vstd::prelude::*;

verus! {

/// How a mesh primitive's indices form its faces.
#[derive(Clone, Copy, Debug, PartialEq, Eq)]
pub enum PrimitiveMode {
    Triangles,
    TriangleStrip,
    TriangleFan,
    /// Points and lines: no surface.
    Other,
}

/// The index triples of a primitive: plain chunks of three for a list; for
/// a strip, triangle `i` uses `(i, i+1, i+2)` with the first two swapped on
/// odd `i`, so every triangle keeps the strip's winding; for a fan,
/// triangle `i` uses `(0, i, i+1)`.
pub open spec fn spec_faces(mode: PrimitiveMode, indices: Seq<u32>) -> Seq<[usize; 3]> {
    let at = |i: int| indices[i] as usize;
    match mode {
        PrimitiveMode::Triangles => Seq::new(
            (indices.len() / 3) as nat,
            |k: int| [at(3 * k), at(3 * k + 1), at(3 * k + 2)],
        ),
        PrimitiveMode::TriangleStrip => Seq::new(
            (if indices.len() >= 2 {
                indices.len() - 2
            } else {
                0
            }) as nat,
            |i: int|
                if i % 2 == 0 {
                    [at(i), at(i + 1), at(i + 2)]
                } else {
                    [at(i + 1), at(i), at(i + 2)]
                },
        ),
        PrimitiveMode::TriangleFan => Seq::new(
            (if indices.len() >= 2 {
                indices.len() - 2
            } else {
                0
            }) as nat,
            |k: int| [at(0), at(k + 1), at(k + 2)],
        ),
        PrimitiveMode::Other => Seq::empty(),
    }
}

/// Expands a primitive's index buffer into its triangles' index triples.
pub fn faces(mode: PrimitiveMode, indices: &Vec<u32>) -> (triples: Vec<[usize; 3]>)
    ensures
        triples@ == spec_faces(mode, indices@),
{
    let count = indices.len();
    let mut triples: Vec<[usize; 3]> = Vec::new();
    match mode {
        PrimitiveMode::Triangles => {
            let total = count / 3;
            let mut k: usize = 0;
            while k < total
                invariant
                    count == indices@.len(),
                    total == count / 3,
                    k <= total,
                    mode == PrimitiveMode::Triangles,
                    triples@ =~= spec_faces(mode, indices@).take(k as int),
                decreases total - k,
            {
                triples.push([indices[3 * k] as usize, indices[3 * k + 1] as usize, indices[3 * k + 2] as usize]);
                k += 1;
            }
            proof {
                assert(spec_faces(mode, indices@).take(total as int) =~= spec_faces(mode, indices@));
            }
        },
        PrimitiveMode::TriangleStrip => {
            let total = if count >= 2 {
                count - 2
            } else {
                0
            };
            let mut i: usize = 0;
            while i < total
                invariant
                    count == indices@.len(),
                    total == (if count >= 2 {
                        count - 2
                    } else {
                        0
                    }),
                    i <= total,
                    mode == PrimitiveMode::TriangleStrip,
                    triples@ =~= spec_faces(mode, indices@).take(i as int),
                decreases total - i,
            {
                if i % 2 == 0 {
                    triples.push([indices[i] as usize, indices[i + 1] as usize, indices[i + 2] as usize]);
                } else {
                    triples.push([indices[i + 1] as usize, indices[i] as usize, indices[i + 2] as usize]);
                }
                i += 1;
            }
            proof {
                assert(spec_faces(mode, indices@).take(total as int) =~= spec_faces(mode, indices@));
            }
        },
        PrimitiveMode::TriangleFan => {
            let total = if count >= 2 {
                count - 2
            } else {
                0
            };
            let mut k: usize = 0;
            while k < total
                invariant
                    count == indices@.len(),
                    total == (if count >= 2 {
                        count - 2
                    } else {
                        0
                    }),
                    k <= total,
                    mode == PrimitiveMode::TriangleFan,
                    triples@ =~= spec_faces(mode, indices@).take(k as int),
                decreases total - k,
            {
                triples.push([indices[0] as usize, indices[k + 1] as usize, indices[k + 2] as usize]);
                k += 1;
            }
            proof {
                assert(spec_faces(mode, indices@).take(total as int) =~= spec_faces(mode, indices@));
            }
        },
        PrimitiveMode::Other => {},
    }
    triples
}

} // verus!
