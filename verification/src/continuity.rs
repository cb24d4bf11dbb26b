use vstd::prelude::*;

use crate::chart::in_image;
use crate::grid::{lemma_row_major_bound, row_major};

verus! {

/// Whether two image positions are edge neighbors inside a `width` by
/// `height` image.
pub open spec fn neighbors_in_image(width: u32, height: u32, ax: int, ay: int, bx: int, by: int) -> bool {
    &&& in_image(width, height, ax, ay)
    &&& in_image(width, height, bx, by)
    &&& ((ay == by && (ax == bx + 1 || bx == ax + 1)) || (ax == bx && (ay == by + 1 || by == ay + 1)))
}

/// The abstract content of a side's edge labels.
pub struct ContinuityModel {
    pub width: u32,
    pub height: u32,
    pub horizontal: Seq<bool>,
    pub vertical: Seq<bool>,
}

impl ContinuityModel {
    pub open spec fn wf(self) -> bool {
        &&& self.width >= 1
        &&& self.height >= 1
        &&& self.width as int * self.height as int <= u32::MAX
        &&& self.horizontal.len() == (self.width - 1) * self.height
        &&& self.vertical.len() == self.width * (self.height - 1)
    }

    /// The label of the edge between two neighbors.
    pub open spec fn connected(self, ax: int, ay: int, bx: int, by: int) -> bool {
        let x0 = if ax < bx {
            ax
        } else {
            bx
        };
        let y0 = if ay < by {
            ay
        } else {
            by
        };
        if ay == by {
            self.horizontal[row_major(self.width - 1, x0, y0)]
        } else {
            self.vertical[row_major(self.width as int, x0, y0)]
        }
    }
}

/// Edge labels for one side: `true` where the surface continues across the
/// edge between two edge-adjacent texels.
#[derive(Clone, Debug, PartialEq, Eq)]
pub struct SideContinuity {
    width: u32,
    height: u32,
    horizontal: Vec<bool>,
    vertical: Vec<bool>,
}

impl SideContinuity {
    pub closed spec fn model(&self) -> ContinuityModel {
        ContinuityModel {
            width: self.width,
            height: self.height,
            horizontal: self.horizontal@,
            vertical: self.vertical@,
        }
    }

    /// Whether the surface continues across the edge between two neighbors.
    pub fn connected(&self, ax: u32, ay: u32, bx: u32, by: u32) -> (joined: bool)
        requires
            self.model().wf(),
            neighbors_in_image(self.model().width, self.model().height, ax as int, ay as int, bx as int, by as int),
        ensures
            joined == self.model().connected(ax as int, ay as int, bx as int, by as int),
    {
        let x0 = if ax < bx {
            ax
        } else {
            bx
        };
        let y0 = if ay < by {
            ay
        } else {
            by
        };
        if ay == by {
            proof {
                lemma_row_major_bound((self.width - 1) as int, self.height as int, x0 as int, y0 as int);
                assert((self.width - 1) as int * self.height as int <= self.width as int * self.height as int) by (
                nonlinear_arith)
                    requires
                        self.width >= 1,
                ;
                assert(y0 * (self.width - 1) as int <= row_major((self.width - 1) as int, x0 as int, y0 as int));
            }
            self.horizontal[(y0 * (self.width - 1) + x0) as usize]
        } else {
            proof {
                lemma_row_major_bound(self.width as int, (self.height - 1) as int, x0 as int, y0 as int);
                assert(self.width as int * (self.height - 1) as int <= self.width as int * self.height as int) by (
                nonlinear_arith)
                    requires
                        self.height >= 1,
                ;
                assert(y0 * self.width as int <= row_major(self.width as int, x0 as int, y0 as int));
            }
            self.vertical[(y0 * self.width + x0) as usize]
        }
    }

    /// Every edge labeled `value`.
    pub fn uniform(width: u32, height: u32, value: bool) -> (continuity: Self)
        requires
            width >= 1,
            height >= 1,
            width as int * height as int <= u32::MAX,
        ensures
            continuity.model().wf(),
            continuity.model().width == width,
            continuity.model().height == height,
            forall|i: int| 0 <= i < continuity.model().horizontal.len() ==> continuity.model().horizontal[i] == value,
            forall|i: int| 0 <= i < continuity.model().vertical.len() ==> continuity.model().vertical[i] == value,
    {
        assert((width - 1) as int * height as int <= width as int * height as int) by (nonlinear_arith)
            requires
                width >= 1,
                height >= 1,
        ;
        assert(width as int * (height - 1) as int <= width as int * height as int) by (nonlinear_arith)
            requires
                width >= 1,
                height >= 1,
        ;
        let horizontal_count = ((width - 1) * height) as usize;
        let vertical_count = (width * (height - 1)) as usize;
        let horizontal = filled(horizontal_count, value);
        let vertical = filled(vertical_count, value);
        Self { width, height, horizontal, vertical }
    }

    /// Labels given edge by edge: `horizontal` holds `(width - 1) * height`
    /// entries, entry `y * (width - 1) + x` for the edge `(x, y)`-`(x + 1, y)`;
    /// `vertical` holds `width * (height - 1)`, entry `y * width + x` for
    /// `(x, y)`-`(x, y + 1)`.
    pub fn from_edges(width: u32, height: u32, horizontal: Vec<bool>, vertical: Vec<bool>) -> (continuity: Self)
        requires
            width >= 1,
            height >= 1,
            width as int * height as int <= u32::MAX,
            horizontal@.len() == (width - 1) * height,
            vertical@.len() == width * (height - 1),
        ensures
            continuity.model() == (ContinuityModel { width, height, horizontal: horizontal@, vertical: vertical@ }),
            continuity.model().wf(),
    {
        Self { width, height, horizontal, vertical }
    }
}

fn filled(count: usize, value: bool) -> (entries: Vec<bool>)
    ensures
        entries@.len() == count,
        forall|i: int| 0 <= i < count ==> entries@[i] == value,
{
    let mut entries = Vec::new();
    let mut index: usize = 0;
    while index < count
        invariant
            index <= count,
            entries@.len() == index,
            forall|i: int| 0 <= i < index ==> entries@[i] == value,
        decreases count - index,
    {
        entries.push(value);
        index += 1;
    }
    entries
}

} // verus!
