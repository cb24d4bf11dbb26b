use vstd::prelude::*;

use crate::chart::{in_image, Chart, ChartModel};
use crate::grid::{
    lemma_row_major, lemma_row_major_bound, lemma_row_major_injective, lemma_row_major_order, lemma_u32_product,
    row_major,
};

verus! {

/// The label of one connected foreground region of a chart.
#[derive(Clone, Copy, Debug, PartialEq, Eq, Hash, Ord, PartialOrd, Structural)]
pub struct ComponentId(pub u32);

/// Whether the chart texel at `(x, y)` carries relief (nonzero alpha).
pub open spec fn foreground(chart: ChartModel, x: int, y: int) -> bool {
    in_image(chart.width, chart.height, x, y) && chart.pixel(x, y)[3] != 0
}

/// Two image positions share an edge.
pub open spec fn adjacent(ax: int, ay: int, bx: int, by: int) -> bool {
    (ax == bx && (ay == by + 1 || by == ay + 1)) || (ay == by && (ax == bx + 1 || bx == ax + 1))
}

/// The abstract content of a component map.
pub struct ComponentModel {
    pub width: u32,
    pub height: u32,
    pub labels: Seq<Option<ComponentId>>,
}

impl ComponentModel {
    pub open spec fn label_at(self, x: int, y: int) -> Option<ComponentId> {
        self.labels[row_major(self.width as int, x, y)]
    }
}

/// A sequence of positions walking between edge-adjacent foreground texels.
pub open spec fn is_walk(chart: ChartModel, walk: Seq<(int, int)>) -> bool {
    &&& walk.len() >= 1
    &&& forall|k: int| 0 <= k < walk.len() ==> foreground(chart, (#[trigger] walk[k]).0, walk[k].1)
    &&& forall|k: int|
        0 <= k < walk.len() - 1 ==> adjacent((#[trigger] walk[k]).0, walk[k].1, walk[k + 1].0, walk[k + 1].1)
}

/// Two foreground texels are joined by a walk through edge-adjacent
/// foreground texels.
pub open spec fn connected(chart: ChartModel, ax: int, ay: int, bx: int, by: int) -> bool {
    exists|walk: Seq<(int, int)>| is_walk(chart, walk) && walk[0] == (ax, ay) && walk.last() == (bx, by)
}

/// A foreground texel is connected to itself.
pub proof fn lemma_connected_reflexive(chart: ChartModel, x: int, y: int)
    requires
        foreground(chart, x, y),
    ensures
        connected(chart, x, y, x, y),
{
    let walk = seq![(x, y)];
    assert(is_walk(chart, walk) && walk[0] == (x, y) && walk.last() == (x, y));
}

/// A walk extends by a foreground texel adjacent to its end.
pub proof fn lemma_connected_extend(chart: ChartModel, ax: int, ay: int, bx: int, by: int, nx: int, ny: int)
    requires
        connected(chart, ax, ay, bx, by),
        foreground(chart, nx, ny),
        adjacent(bx, by, nx, ny),
    ensures
        connected(chart, ax, ay, nx, ny),
{
    let walk = choose|walk: Seq<(int, int)>| is_walk(chart, walk) && walk[0] == (ax, ay) && walk.last() == (bx, by);
    let longer = walk.push((nx, ny));
    assert forall|k: int| 0 <= k < longer.len() implies foreground(chart, (#[trigger] longer[k]).0, longer[k].1) by {
        if k < walk.len() {
            assert(longer[k] == walk[k]);
        }
    }
    assert forall|k: int| 0 <= k < longer.len() - 1 implies adjacent(
        (#[trigger] longer[k]).0,
        longer[k].1,
        longer[k + 1].0,
        longer[k + 1].1,
    ) by {
        if k < walk.len() - 1 {
            assert(longer[k] == walk[k] && longer[k + 1] == walk[k + 1]);
        }
    }
    assert(is_walk(chart, longer) && longer[0] == (ax, ay) && longer.last() == (nx, ny));
}

/// Connection is symmetric: a walk can be followed backwards.
pub proof fn lemma_connected_symmetric(chart: ChartModel, ax: int, ay: int, bx: int, by: int)
    requires
        connected(chart, ax, ay, bx, by),
    ensures
        connected(chart, bx, by, ax, ay),
{
    let walk = choose|walk: Seq<(int, int)>| is_walk(chart, walk) && walk[0] == (ax, ay) && walk.last() == (bx, by);
    let back = walk.reverse();
    assert forall|k: int| 0 <= k < back.len() implies foreground(chart, (#[trigger] back[k]).0, back[k].1) by {
        assert(back[k] == walk[walk.len() - 1 - k]);
    }
    assert forall|k: int| 0 <= k < back.len() - 1 implies adjacent(
        (#[trigger] back[k]).0,
        back[k].1,
        back[k + 1].0,
        back[k + 1].1,
    ) by {
        let j = walk.len() - 2 - k;
        assert(back[k] == walk[j + 1] && back[k + 1] == walk[j]);
        assert(adjacent(walk[j].0, walk[j].1, walk[j + 1].0, walk[j + 1].1));
    }
    assert(is_walk(chart, back) && back[0] == (bx, by) && back.last() == (ax, ay));
}

/// Connection is transitive: two walks meeting end to start join.
pub proof fn lemma_connected_transitive(chart: ChartModel, ax: int, ay: int, bx: int, by: int, dx: int, dy: int)
    requires
        connected(chart, ax, ay, bx, by),
        connected(chart, bx, by, dx, dy),
    ensures
        connected(chart, ax, ay, dx, dy),
{
    let first = choose|walk: Seq<(int, int)>| is_walk(chart, walk) && walk[0] == (ax, ay) && walk.last() == (bx, by);
    let second = choose|walk: Seq<(int, int)>| is_walk(chart, walk) && walk[0] == (bx, by) && walk.last() == (dx, dy);
    let joined = first + second.subrange(1, second.len() as int);
    assert forall|k: int| 0 <= k < joined.len() implies foreground(chart, (#[trigger] joined[k]).0, joined[k].1) by {
        if k < first.len() {
            assert(joined[k] == first[k]);
        } else {
            assert(joined[k] == second[k - first.len() + 1]);
        }
    }
    assert forall|k: int| 0 <= k < joined.len() - 1 implies adjacent(
        (#[trigger] joined[k]).0,
        joined[k].1,
        joined[k + 1].0,
        joined[k + 1].1,
    ) by {
        if k < first.len() - 1 {
            assert(joined[k] == first[k] && joined[k + 1] == first[k + 1]);
        } else if k == first.len() - 1 {
            assert(joined[k] == second[0] && joined[k + 1] == second[1]);
        } else {
            let j = k - first.len() + 1;
            assert(joined[k] == second[j] && joined[k + 1] == second[j + 1]);
        }
    }
    if second.len() == 1 {
        assert(joined.last() == first.last());
    } else {
        assert(joined.last() == second.last());
    }
    assert(is_walk(chart, joined) && joined[0] == (ax, ay) && joined.last() == (dx, dy));
}

/// Connected-component labels over a chart's foreground texels.
#[derive(Clone, Debug, PartialEq, Eq)]
pub struct ComponentMap {
    width: u32,
    height: u32,
    labels: Vec<Option<ComponentId>>,
}

/// Number of unlabeled entries.
pub open spec fn count_unlabeled(labels: Seq<Option<ComponentId>>) -> nat
    decreases labels.len(),
{
    if labels.len() == 0 {
        0
    } else {
        count_unlabeled(labels.drop_last()) + if labels.last() is None {
            1nat
        } else {
            0nat
        }
    }
}

proof fn lemma_count_unlabeled_update(labels: Seq<Option<ComponentId>>, index: int, id: ComponentId)
    requires
        0 <= index < labels.len(),
        labels[index] is None,
    ensures
        count_unlabeled(labels.update(index, Some(id))) + 1 == count_unlabeled(labels),
    decreases labels.len(),
{
    let updated = labels.update(index, Some(id));
    if index == labels.len() - 1 {
        assert(updated.drop_last() =~= labels.drop_last());
    } else {
        assert(updated.drop_last() =~= labels.drop_last().update(index, Some(id)));
        lemma_count_unlabeled_update(labels.drop_last(), index, id);
    }
}

/// The in-image edge neighbors of `(x, y)`: left, right, above, below.
pub fn neighbors(x: u32, y: u32, width: u32, height: u32) -> (found: Vec<(u32, u32)>)
    requires
        x < width,
        y < height,
    ensures
        forall|k: int|
            0 <= k < found@.len() ==> in_image(width, height, (#[trigger] found@[k]).0 as int, found@[k].1 as int)
                && adjacent(x as int, y as int, found@[k].0 as int, found@[k].1 as int),
        forall|nx: int, ny: int|
            in_image(width, height, nx, ny) && adjacent(x as int, y as int, nx, ny) ==> exists|k: int|
                0 <= k < found@.len() && #[trigger] found@[k] == (nx as u32, ny as u32),
{
    let mut found = Vec::new();
    if x > 0 {
        found.push((x - 1, y));
    }
    if x + 1 < width {
        found.push((x + 1, y));
    }
    if y > 0 {
        found.push((x, y - 1));
    }
    if y + 1 < height {
        found.push((x, y + 1));
    }
    proof {
        assert forall|nx: int, ny: int|
            in_image(width, height, nx, ny) && adjacent(x as int, y as int, nx, ny) implies exists|k: int|
                0 <= k < found@.len() && #[trigger] found@[k] == (nx as u32, ny as u32) by {
            let target = (nx as u32, ny as u32);
            if found@.len() > 0 && found@[0] == target {
            } else if found@.len() > 1 && found@[1] == target {
            } else if found@.len() > 2 && found@[2] == target {
            } else {
                assert(found@.len() > 3 && found@[3] == target);
            }
        }
    }
    found
}

/// Labeled texels have foreground under them.
pub open spec fn labels_on_foreground(chart: ChartModel, labels: Seq<Option<ComponentId>>) -> bool {
    forall|xx: int, yy: int|
        in_image(chart.width, chart.height, xx, yy) ==> ((#[trigger] labels[row_major(chart.width as int, xx, yy)]) is Some
            ==> foreground(chart, xx, yy))
}

/// Every labeled texel outside `pending` shares its label with all its
/// foreground neighbors.
pub open spec fn closed_except(
    chart: ChartModel,
    labels: Seq<Option<ComponentId>>,
    pending: Seq<(u32, u32)>,
    skip: Option<(int, int)>,
) -> bool {
    forall|ax: int, ay: int, bx: int, by: int|
        foreground(chart, ax, ay) && foreground(chart, bx, by) && adjacent(ax, ay, bx, by)
            && labels[row_major(chart.width as int, ax, ay)] is Some && !pending.contains((ax as u32, ay as u32))
            && skip != Some((ax, ay)) ==> #[trigger] labels[row_major(chart.width as int, ax, ay)]
            == #[trigger] labels[row_major(chart.width as int, bx, by)]
}

/// Labels that were present stay as they were.
pub open spec fn keeps_labels(before: Seq<Option<ComponentId>>, after: Seq<Option<ComponentId>>) -> bool {
    &&& before.len() == after.len()
    &&& forall|i: int| 0 <= i < before.len() && before[i] is Some ==> #[trigger] after[i] == before[i]
}

/// Every texel labeled `component` is connected to `(x, y)`.
pub open spec fn joined_to(
    chart: ChartModel,
    labels: Seq<Option<ComponentId>>,
    component: ComponentId,
    x: int,
    y: int,
) -> bool {
    forall|xx: int, yy: int|
        in_image(chart.width, chart.height, xx, yy) && #[trigger] labels[row_major(chart.width as int, xx, yy)]
            == Some(component) ==> connected(chart, x, y, xx, yy)
}

/// Every label that changed became `component`.
pub open spec fn only_adds(
    before: Seq<Option<ComponentId>>,
    after: Seq<Option<ComponentId>>,
    component: ComponentId,
) -> bool {
    forall|i: int| 0 <= i < before.len() ==> #[trigger] after[i] == before[i] || after[i] == Some(component)
}

/// Every label is below `bound`.
pub open spec fn ids_below(labels: Seq<Option<ComponentId>>, bound: int) -> bool {
    forall|i: int|
        0 <= i < labels.len() ==> match #[trigger] labels[i] {
            Some(id) => id.0 < bound,
            None => true,
        }
}

/// Every labeled texel is connected to the seed of its label.
pub open spec fn seeded(chart: ChartModel, labels: Seq<Option<ComponentId>>, seeds: Seq<(int, int)>) -> bool {
    forall|xx: int, yy: int|
        in_image(chart.width, chart.height, xx, yy) ==> match #[trigger] labels[row_major(chart.width as int, xx, yy)] {
            Some(id) => id.0 < seeds.len() && connected(chart, seeds[id.0 as int].0, seeds[id.0 as int].1, xx, yy),
            None => true,
        }
}

/// Seed `k` is the first texel labeled `k`: the seeds lie before scan
/// position `scan` in increasing row-major order, each carries its own
/// label, and no texel labeled `k` comes before seed `k`.
pub open spec fn numbered_in_scan_order(
    chart: ChartModel,
    labels: Seq<Option<ComponentId>>,
    seeds: Seq<(int, int)>,
    scan: int,
) -> bool {
    let width = chart.width as int;
    &&& forall|k: int|
        0 <= k < seeds.len() ==> in_image(chart.width, chart.height, (#[trigger] seeds[k]).0, seeds[k].1)
            && labels[row_major(width, seeds[k].0, seeds[k].1)] == Some(ComponentId(k as u32))
            && row_major(width, seeds[k].0, seeds[k].1) < scan
    &&& forall|j: int, k: int|
        0 <= j < k < seeds.len() ==> row_major(width, (#[trigger] seeds[j]).0, seeds[j].1) < row_major(
            width,
            (#[trigger] seeds[k]).0,
            seeds[k].1,
        )
    &&& forall|xx: int, yy: int|
        in_image(chart.width, chart.height, xx, yy) ==> match #[trigger] labels[row_major(width, xx, yy)] {
            Some(id) => row_major(width, seeds[id.0 as int].0, seeds[id.0 as int].1) <= row_major(width, xx, yy),
            None => true,
        }
}

/// Label `id` occurs at a texel whose row-major index is below `index`.
pub open spec fn labeled_before(model: ComponentModel, id: int, index: int) -> bool {
    exists|x: int, y: int|
        in_image(model.width, model.height, x, y) && row_major(model.width as int, x, y) < index
            && #[trigger] model.label_at(x, y) == Some(ComponentId(id as u32))
}

/// Floods the unlabeled foreground region containing `(x, y)` with `component`.
fn flood(chart: &Chart, labels: &mut Vec<Option<ComponentId>>, x: u32, y: u32, component: ComponentId)
    requires
        chart.wf(),
        old(labels)@.len() == chart.model().width as int * chart.model().height as int,
        in_image(chart.model().width, chart.model().height, x as int, y as int),
        foreground(chart.model(), x as int, y as int),
        old(labels)@[row_major(chart.model().width as int, x as int, y as int)] is None,
        labels_on_foreground(chart.model(), old(labels)@),
        closed_except(chart.model(), old(labels)@, Seq::empty(), None),
        forall|i: int| 0 <= i < old(labels)@.len() ==> #[trigger] old(labels)@[i] != Some(component),
    ensures
        final(labels)@[row_major(chart.model().width as int, x as int, y as int)] == Some(component),
        labels_on_foreground(chart.model(), final(labels)@),
        closed_except(chart.model(), final(labels)@, Seq::empty(), None),
        keeps_labels(old(labels)@, final(labels)@),
        only_adds(old(labels)@, final(labels)@, component),
        joined_to(chart.model(), final(labels)@, component, x as int, y as int),
{
    let ghost c = chart.model();
    let ghost initial = labels@;
    let (width, height) = chart.dimensions();
    proof {
        lemma_row_major_bound(width as int, height as int, x as int, y as int);
    }
    let length = labels.len();
    let seed = y as usize * width as usize + x as usize;
    proof {
        lemma_count_unlabeled_update(labels@, seed as int, component);
    }
    labels.set(seed, Some(component));
    let mut pending: Vec<(u32, u32)> = Vec::new();
    pending.push((x, y));
    let ghost mut unlabeled = count_unlabeled(labels@);
    proof {
        assert forall|xx: int, yy: int|
            in_image(c.width, c.height, xx, yy) implies ((#[trigger] labels@[row_major(c.width as int, xx, yy)]) is Some
            ==> foreground(c, xx, yy)) by {
            lemma_row_major_injective(width as int, xx, yy, x as int, y as int);
            lemma_row_major_bound(width as int, height as int, xx, yy);
        }
        assert forall|ax: int, ay: int, bx: int, by: int|
            foreground(c, ax, ay) && foreground(c, bx, by) && adjacent(ax, ay, bx, by)
                && labels@[row_major(c.width as int, ax, ay)] is Some && !pending@.contains((ax as u32, ay as u32))
                implies #[trigger] labels@[row_major(c.width as int, ax, ay)] == #[trigger] labels@[row_major(
                c.width as int,
                bx,
                by,
            )] by {
            lemma_row_major_injective(width as int, ax, ay, x as int, y as int);
            lemma_row_major_injective(width as int, bx, by, x as int, y as int);
            lemma_row_major_bound(width as int, height as int, ax, ay);
            lemma_row_major_bound(width as int, height as int, bx, by);
            if (ax, ay) == (x as int, y as int) {
                assert(pending@[0] == (ax as u32, ay as u32));
            }
            if (bx, by) == (x as int, y as int) {
                // The seed was unlabeled, so no labeled texel outside pending touched it.
                assert(initial[row_major(c.width as int, ax, ay)] is Some);
            }
        }
        lemma_connected_reflexive(c, x as int, y as int);
        assert forall|xx: int, yy: int|
            in_image(c.width, c.height, xx, yy) && #[trigger] labels@[row_major(c.width as int, xx, yy)] == Some(
                component,
            ) implies connected(c, x as int, y as int, xx, yy) by {
            lemma_row_major_injective(width as int, xx, yy, x as int, y as int);
            lemma_row_major_bound(width as int, height as int, xx, yy);
        }
        assert forall|i: int| 0 <= i < initial.len() implies #[trigger] labels@[i] == initial[i] || labels@[i] == Some(
            component,
        ) by {}
    }
    while pending.len() > 0
        invariant
            c == chart.model(),
            chart.wf(),
            width == c.width,
            height == c.height,
            labels@.len() == width as int * height as int,
            labels@[row_major(width as int, x as int, y as int)] == Some(component),
            in_image(width, height, x as int, y as int),
            unlabeled == count_unlabeled(labels@),
            forall|k: int|
                0 <= k < pending@.len() ==> in_image(width, height, (#[trigger] pending@[k]).0 as int, pending@[k].1 as int)
                    && labels@[row_major(width as int, pending@[k].0 as int, pending@[k].1 as int)] == Some(component),
            labels_on_foreground(c, labels@),
            closed_except(c, labels@, pending@, None),
            keeps_labels(initial, labels@),
            forall|i: int| 0 <= i < initial.len() ==> #[trigger] initial[i] != Some(component),
            only_adds(initial, labels@, component),
            joined_to(c, labels@, component, x as int, y as int),
        decreases unlabeled, pending@.len(),
    {
        let ghost before_pop = pending@;
        let (current_x, current_y) = pending.pop().unwrap();
        assert(before_pop == pending@.push((current_x, current_y)));
        assert(before_pop[before_pop.len() - 1] == (current_x, current_y));
        let ghost current = (current_x as int, current_y as int);
        proof {
            assert forall|ax: int, ay: int, bx: int, by: int|
                foreground(c, ax, ay) && foreground(c, bx, by) && adjacent(ax, ay, bx, by)
                    && labels@[row_major(c.width as int, ax, ay)] is Some && !pending@.contains((ax as u32, ay as u32))
                    && Some(current) != Some((ax, ay)) implies #[trigger] labels@[row_major(c.width as int, ax, ay)]
                == #[trigger] labels@[row_major(c.width as int, bx, by)] by {
                if before_pop.contains((ax as u32, ay as u32)) {
                    let k = choose|k: int| 0 <= k < before_pop.len() && before_pop[k] == (ax as u32, ay as u32);
                    if k < pending@.len() {
                        assert(pending@[k] == (ax as u32, ay as u32));
                    }
                }
            }
        }
        let around = neighbors(current_x, current_y, width, height);
        let ghost start_unlabeled = unlabeled;
        let ghost start_pending = pending@.len();
        let mut k: usize = 0;
        while k < around.len()
            invariant
                c == chart.model(),
                chart.wf(),
                width == c.width,
                height == c.height,
                labels@.len() == width as int * height as int,
                labels@[row_major(width as int, x as int, y as int)] == Some(component),
                in_image(width, height, x as int, y as int),
                unlabeled == count_unlabeled(labels@),
                in_image(width, height, current.0, current.1),
                labels@[row_major(width as int, current.0, current.1)] == Some(component),
                k <= around@.len(),
                unlabeled + pending@.len() == start_unlabeled + start_pending,
                unlabeled <= start_unlabeled,
                forall|j: int|
                    0 <= j < around@.len() ==> in_image(width, height, (#[trigger] around@[j]).0 as int, around@[j].1 as int)
                        && adjacent(current.0, current.1, around@[j].0 as int, around@[j].1 as int),
                forall|j: int|
                    0 <= j < k && foreground(c, (#[trigger] around@[j]).0 as int, around@[j].1 as int) ==> labels@[row_major(
                        width as int,
                        around@[j].0 as int,
                        around@[j].1 as int,
                    )] == Some(component),
                forall|j: int|
                    0 <= j < pending@.len() ==> in_image(width, height, (#[trigger] pending@[j]).0 as int, pending@[j].1 as int)
                        && labels@[row_major(width as int, pending@[j].0 as int, pending@[j].1 as int)] == Some(component),
                labels_on_foreground(c, labels@),
                closed_except(c, labels@, pending@, Some(current)),
                keeps_labels(initial, labels@),
                forall|i: int| 0 <= i < initial.len() ==> #[trigger] initial[i] != Some(component),
                only_adds(initial, labels@, component),
                joined_to(c, labels@, component, x as int, y as int),
            decreases around@.len() - k,
        {
            let (nx, ny) = around[k];
            proof {
                lemma_row_major_bound(width as int, height as int, nx as int, ny as int);
                lemma_row_major(width as int, nx as int, ny as int);
                lemma_row_major(width as int, current.0, current.1);
            }
            let length = labels.len();
            let index = ny as usize * width as usize + nx as usize;
            let is_foreground = match chart.rgba_at(nx, ny) {
                Some(pixel) => pixel[3] != 0,
                None => false,
            };
            if is_foreground && labels[index].is_none() {
                let ghost before = labels@;
                proof {
                    lemma_count_unlabeled_update(labels@, index as int, component);
                    unlabeled = (unlabeled - 1) as nat;
                }
                let ghost old_pending = pending@;
                labels.set(index, Some(component));
                pending.push((nx, ny));
                assert(pending@ == old_pending.push((nx, ny)));
                proof {
                    assert forall|j: int| 0 <= j < pending@.len() implies in_image(
                        width,
                        height,
                        (#[trigger] pending@[j]).0 as int,
                        pending@[j].1 as int,
                    ) && labels@[row_major(width as int, pending@[j].0 as int, pending@[j].1 as int)] == Some(component) by {
                        if j < old_pending.len() {
                            assert(pending@[j] == old_pending[j]);
                            lemma_row_major_bound(width as int, height as int, old_pending[j].0 as int, old_pending[j].1 as int);
                        }
                    }
                }
                proof {
                    assert(before[index as int] is None);
                    assert(labels@ == before.update(index as int, Some(component)));
                    lemma_row_major_bound(width as int, height as int, x as int, y as int);
                    lemma_row_major_bound(width as int, height as int, current.0, current.1);
                    assert(before[row_major(width as int, x as int, y as int)] == Some(component));
                    assert(labels@[row_major(width as int, x as int, y as int)] == Some(component));
                    assert(labels@[row_major(width as int, current.0, current.1)] == Some(component));
                    assert forall|j: int|
                        0 <= j < k + 1 && foreground(c, (#[trigger] around@[j]).0 as int, around@[j].1 as int) implies labels@[row_major(
                            width as int,
                            around@[j].0 as int,
                            around@[j].1 as int,
                        )] == Some(component) by {
                        if j < k {
                            lemma_row_major_bound(width as int, height as int, around@[j].0 as int, around@[j].1 as int);
                            assert(before[row_major(width as int, around@[j].0 as int, around@[j].1 as int)] == Some(component));
                        }
                    }
                    assert forall|xx: int, yy: int|
                        in_image(c.width, c.height, xx, yy) implies ((#[trigger] labels@[row_major(
                        c.width as int,
                        xx,
                        yy,
                    )]) is Some ==> foreground(c, xx, yy)) by {
                        lemma_row_major_injective(width as int, xx, yy, nx as int, ny as int);
                        lemma_row_major_bound(width as int, height as int, xx, yy);
                    }
                    assert forall|i: int| 0 <= i < initial.len() && initial[i] is Some implies #[trigger] labels@[i]
                        == initial[i] by {
                        assert(before[i] == initial[i]);
                    }
                    assert forall|i: int| 0 <= i < initial.len() implies #[trigger] labels@[i] == initial[i]
                        || labels@[i] == Some(component) by {
                        assert(before[i] == initial[i] || before[i] == Some(component));
                    }
                    assert(connected(c, x as int, y as int, current.0, current.1));
                    lemma_connected_extend(c, x as int, y as int, current.0, current.1, nx as int, ny as int);
                    assert forall|xx: int, yy: int|
                        in_image(c.width, c.height, xx, yy) && #[trigger] labels@[row_major(c.width as int, xx, yy)]
                            == Some(component) implies connected(c, x as int, y as int, xx, yy) by {
                        lemma_row_major_injective(width as int, xx, yy, nx as int, ny as int);
                        lemma_row_major_bound(width as int, height as int, xx, yy);
                        if (xx, yy) != (nx as int, ny as int) {
                            assert(before[row_major(c.width as int, xx, yy)] == Some(component));
                        }
                    }
                    assert forall|ax: int, ay: int, bx: int, by: int|
                        foreground(c, ax, ay) && foreground(c, bx, by) && adjacent(ax, ay, bx, by)
                            && labels@[row_major(c.width as int, ax, ay)] is Some && !pending@.contains(
                            (ax as u32, ay as u32),
                        ) && Some(current) != Some((ax, ay)) implies #[trigger] labels@[row_major(
                        c.width as int,
                        ax,
                        ay,
                    )] == #[trigger] labels@[row_major(c.width as int, bx, by)] by {
                        lemma_row_major_injective(width as int, ax, ay, nx as int, ny as int);
                        lemma_row_major_injective(width as int, bx, by, nx as int, ny as int);
                        lemma_row_major_bound(width as int, height as int, ax, ay);
                        lemma_row_major_bound(width as int, height as int, bx, by);
                        if (ax, ay) == (nx as int, ny as int) {
                            assert(pending@[pending@.len() - 1] == (ax as u32, ay as u32));
                        }
                        if old_pending.contains((ax as u32, ay as u32)) {
                            let w = choose|w: int| 0 <= w < old_pending.len() && old_pending[w] == (ax as u32, ay as u32);
                            assert(pending@[w] == (ax as u32, ay as u32));
                        }
                        assert(before[row_major(c.width as int, ax, ay)] is Some);
                        assert(before[row_major(c.width as int, ax, ay)] == before[row_major(c.width as int, bx, by)]);
                    }
                }
            } else {
                proof {
                    if is_foreground {
                        let b = (nx as int, ny as int);
                        if pending@.contains((nx, ny)) {
                            let w = choose|w: int| 0 <= w < pending@.len() && pending@[w] == (nx, ny);
                        } else {
                            assert(adjacent(nx as int, ny as int, current.0, current.1));
                            assert(labels@[row_major(width as int, nx as int, ny as int)] == labels@[row_major(
                                width as int,
                                current.0,
                                current.1,
                            )]);
                        }
                    }
                }
            }
            k += 1;
        }
        proof {
            assert forall|ax: int, ay: int, bx: int, by: int|
                foreground(c, ax, ay) && foreground(c, bx, by) && adjacent(ax, ay, bx, by)
                    && labels@[row_major(c.width as int, ax, ay)] is Some && !pending@.contains((ax as u32, ay as u32))
                    implies #[trigger] labels@[row_major(c.width as int, ax, ay)] == #[trigger] labels@[row_major(
                c.width as int,
                bx,
                by,
            )] by {
                if (ax, ay) == current {
                    let j = choose|j: int| 0 <= j < around@.len() && #[trigger] around@[j] == (bx as u32, by as u32);
                    assert(around@[j].0 as int == bx && around@[j].1 as int == by);
                }
            }
        }
    }
    proof {
        assert(pending@ =~= Seq::<(u32, u32)>::empty());
    }
}

impl ComponentMap {
    pub closed spec fn model(&self) -> ComponentModel {
        ComponentModel { width: self.width, height: self.height, labels: self.labels@ }
    }

    pub open spec fn wf(&self) -> bool {
        self.model().labels.len() == self.model().width as int * self.model().height as int
    }

    /// The label at `(x, y)`: none off the image or on background.
    pub fn at(&self, x: u32, y: u32) -> (label: Option<ComponentId>)
        requires
            self.wf(),
        ensures
            in_image(self.model().width, self.model().height, x as int, y as int) ==> label == self.model().label_at(
                x as int,
                y as int,
            ),
            !in_image(self.model().width, self.model().height, x as int, y as int) ==> label is None,
    {
        if x < self.width && y < self.height {
            proof {
                lemma_row_major_bound(self.width as int, self.height as int, x as int, y as int);
            }
            let length = self.labels.len();
            self.labels[y as usize * self.width as usize + x as usize]
        } else {
            None
        }
    }

    /// Labels every foreground texel of `chart` with its edge-connected
    /// foreground region: edge neighbors share a label, and texels sharing a
    /// label are joined by a foreground walk. Regions are numbered in the
    /// row-major order of their first texel, starting at zero.
    pub fn label(chart: &Chart) -> (map: Self)
        requires
            chart.wf(),
            chart.model().width as int * chart.model().height as int <= u32::MAX,
        ensures
            map.model().width == chart.model().width,
            map.model().height == chart.model().height,
            map.model().labels.len() == chart.model().width as int * chart.model().height as int,
            forall|x: int, y: int|
                in_image(chart.model().width, chart.model().height, x, y) ==> ((#[trigger] map.model().label_at(x, y)) is Some
                    <==> foreground(chart.model(), x, y)),
            forall|ax: int, ay: int, bx: int, by: int|
                foreground(chart.model(), ax, ay) && foreground(chart.model(), bx, by) && adjacent(ax, ay, bx, by)
                    ==> #[trigger] map.model().label_at(ax, ay) == #[trigger] map.model().label_at(bx, by),
            forall|ax: int, ay: int, bx: int, by: int|
                in_image(chart.model().width, chart.model().height, ax, ay) && in_image(
                    chart.model().width,
                    chart.model().height,
                    bx,
                    by,
                ) && (#[trigger] map.model().label_at(ax, ay)) is Some && map.model().label_at(ax, ay)
                    == #[trigger] map.model().label_at(bx, by) ==> connected(chart.model(), ax, ay, bx, by),
            forall|x: int, y: int, j: int|
                in_image(chart.model().width, chart.model().height, x, y) && map.model().label_at(x, y) is Some && 0 <= j
                    < (map.model().label_at(x, y)->0).0 ==> #[trigger] labeled_before(
                    map.model(),
                    j,
                    row_major(chart.model().width as int, x, y),
                ),
    {
        let ghost c = chart.model();
        let (width, height) = chart.dimensions();
        proof {
            lemma_u32_product(width, height);
        }
        let total = width as usize * height as usize;
        let mut labels: Vec<Option<ComponentId>> = Vec::new();
        let mut fill: usize = 0;
        while fill < total
            invariant
                fill <= total,
                labels@ =~= Seq::new(fill as nat, |i: int| None::<ComponentId>),
            decreases total - fill,
        {
            labels.push(None);
            fill += 1;
        }
        proof {
            assert forall|xx: int, yy: int| in_image(width, height, xx, yy) implies (#[trigger] labels@[row_major(
                width as int,
                xx,
                yy,
            )]) is None by {
                lemma_row_major_bound(width as int, height as int, xx, yy);
            }
        }
        let mut next_id: u32 = 0;
        let ghost mut seeds: Seq<(int, int)> = Seq::empty();
        let mut y: u32 = 0;
        while y < height
            invariant
                c == chart.model(),
                chart.wf(),
                width == c.width,
                height == c.height,
                total == width as int * height as int,
                total <= u32::MAX,
                labels@.len() == total,
                y <= height,
                next_id <= y as int * width as int,
                seeds.len() == next_id,
                ids_below(labels@, next_id as int),
                seeded(c, labels@, seeds),
                labels_on_foreground(c, labels@),
                closed_except(c, labels@, Seq::empty(), None),
                numbered_in_scan_order(c, labels@, seeds, y as int * width as int),
                forall|xx: int, yy: int|
                    in_image(width, height, xx, yy) && yy < y && foreground(c, xx, yy) ==> (#[trigger] labels@[row_major(
                        width as int,
                        xx,
                        yy,
                    )]) is Some,
            decreases height - y,
        {
            let mut x: u32 = 0;
            while x < width
                invariant
                    c == chart.model(),
                    chart.wf(),
                    width == c.width,
                    height == c.height,
                    total == width as int * height as int,
                    total <= u32::MAX,
                    labels@.len() == total,
                    y < height,
                    x <= width,
                    next_id <= y as int * width as int + x,
                    seeds.len() == next_id,
                    ids_below(labels@, next_id as int),
                    seeded(c, labels@, seeds),
                    labels_on_foreground(c, labels@),
                    closed_except(c, labels@, Seq::empty(), None),
                    numbered_in_scan_order(c, labels@, seeds, y as int * width as int + x as int),
                    forall|xx: int, yy: int|
                        in_image(width, height, xx, yy) && (yy < y || (yy == y && xx < x)) && foreground(c, xx, yy)
                            ==> (#[trigger] labels@[row_major(width as int, xx, yy)]) is Some,
                decreases width - x,
            {
                proof {
                    lemma_row_major_bound(width as int, height as int, x as int, y as int);
                    lemma_row_major(width as int, x as int, y as int);
                }
                let length = labels.len();
                let index = y as usize * width as usize + x as usize;
                let is_foreground = match chart.rgba_at(x, y) {
                    Some(pixel) => pixel[3] != 0,
                    None => false,
                };
                let ghost before = labels@;
                if labels[index].is_none() && is_foreground {
                    let component = ComponentId(next_id);
                    proof {
                        assert forall|i: int| 0 <= i < labels@.len() implies #[trigger] labels@[i] != Some(component) by {
                            match labels@[i] {
                                Some(id) => {},
                                None => {},
                            }
                        }
                    }
                    let ghost seeds_before = seeds;
                    next_id = next_id + 1;
                    flood(chart, &mut labels, x, y, component);
                    proof {
                        let old_seeds = seeds;
                        seeds = seeds.push((x as int, y as int));
                        assert forall|i: int| 0 <= i < labels@.len() implies match #[trigger] labels@[i] {
                            Some(id) => id.0 < next_id,
                            None => true,
                        } by {
                            assert(labels@[i] == before[i] || labels@[i] == Some(component));
                            match before[i] {
                                Some(id) => {},
                                None => {},
                            }
                        }
                        assert forall|xx: int, yy: int| in_image(c.width, c.height, xx, yy) implies match #[trigger] labels@[row_major(
                            c.width as int,
                            xx,
                            yy,
                        )] {
                            Some(id) => id.0 < seeds.len() && connected(
                                c,
                                seeds[id.0 as int].0,
                                seeds[id.0 as int].1,
                                xx,
                                yy,
                            ),
                            None => true,
                        } by {
                            lemma_row_major_bound(width as int, height as int, xx, yy);
                            let i = row_major(c.width as int, xx, yy);
                            assert(labels@[i] == before[i] || labels@[i] == Some(component));
                            if labels@[i] == Some(component) {
                                assert(seeds[next_id - 1] == (x as int, y as int));
                            } else {
                                match before[i] {
                                    Some(id) => {
                                        assert(seeds[id.0 as int] == old_seeds[id.0 as int]);
                                    },
                                    None => {},
                                }
                            }
                        }
                    }
                    proof {
                        let w = width as int;
                        let scan = y as int * w + x as int;
                        assert forall|k: int| 0 <= k < seeds.len() implies in_image(
                            c.width,
                            c.height,
                            (#[trigger] seeds[k]).0,
                            seeds[k].1,
                        ) && labels@[row_major(w, seeds[k].0, seeds[k].1)] == Some(ComponentId(k as u32)) && row_major(
                            w,
                            seeds[k].0,
                            seeds[k].1,
                        ) < scan + 1 by {
                            if k < seeds_before.len() {
                                assert(seeds[k] == seeds_before[k]);
                                lemma_row_major_bound(w, height as int, seeds[k].0, seeds[k].1);
                                assert(before[row_major(w, seeds[k].0, seeds[k].1)] is Some);
                            }
                        }
                        assert forall|j: int, k: int| 0 <= j < k < seeds.len() implies row_major(
                            w,
                            (#[trigger] seeds[j]).0,
                            seeds[j].1,
                        ) < row_major(w, (#[trigger] seeds[k]).0, seeds[k].1) by {
                            assert(seeds[j] == seeds_before[j]);
                            if k < seeds_before.len() {
                                assert(seeds[k] == seeds_before[k]);
                            }
                        }
                        assert forall|xx: int, yy: int| in_image(c.width, c.height, xx, yy) implies match #[trigger] labels@[row_major(
                            w,
                            xx,
                            yy,
                        )] {
                            Some(id) => row_major(w, seeds[id.0 as int].0, seeds[id.0 as int].1) <= row_major(w, xx, yy),
                            None => true,
                        } by {
                            lemma_row_major_bound(w, height as int, xx, yy);
                            let i = row_major(w, xx, yy);
                            if before[i] is Some {
                                let id = before[i]->0;
                                assert(labels@[i] == before[i]);
                                assert(id.0 < seeds_before.len());
                                assert(seeds[id.0 as int] == seeds_before[id.0 as int]);
                            } else if labels@[i] is Some {
                                assert(labels@[i] == Some(component));
                                assert(foreground(c, xx, yy));
                                lemma_row_major_order(w, xx, yy, x as int, y as int);
                                assert(seeds[seeds_before.len() as int] == (x as int, y as int));
                            }
                        }
                    }
                } else {
                    proof {
                        assert(labels@ == before);
                    }
                }
                proof {
                    assert forall|xx: int, yy: int|
                        in_image(width, height, xx, yy) && (yy < y || (yy == y && xx < x + 1)) && foreground(c, xx, yy)
                            implies (#[trigger] labels@[row_major(width as int, xx, yy)]) is Some by {
                        lemma_row_major_bound(width as int, height as int, xx, yy);
                        if yy < y || xx < x {
                            assert(before[row_major(width as int, xx, yy)] is Some);
                        }
                    }
                }
                x += 1;
            }
            proof {
                crate::grid::lemma_next_row(width as int, y as int);
            }
            y += 1;
        }
        proof {
            assert forall|xx: int, yy: int|
                in_image(width, height, xx, yy) implies ((#[trigger] labels@[row_major(width as int, xx, yy)]) is Some
                <==> foreground(c, xx, yy)) by {}
            assert forall|ax: int, ay: int, bx: int, by: int|
                in_image(width, height, ax, ay) && in_image(width, height, bx, by) && (#[trigger] labels@[row_major(
                    width as int,
                    ax,
                    ay,
                )]) is Some && labels@[row_major(width as int, ax, ay)] == #[trigger] labels@[row_major(
                    width as int,
                    bx,
                    by,
                )] implies connected(c, ax, ay, bx, by) by {
                let id = labels@[row_major(width as int, ax, ay)]->0;
                let seed = seeds[id.0 as int];
                lemma_connected_symmetric(c, seed.0, seed.1, ax, ay);
                lemma_connected_transitive(c, ax, ay, seed.0, seed.1, bx, by);
            }
            let model = ComponentModel { width, height, labels: labels@ };
            assert forall|x: int, y: int, j: int|
                in_image(width, height, x, y) && model.label_at(x, y) is Some && 0 <= j < (model.label_at(x, y)->0).0 implies #[trigger] labeled_before(
                model,
                j,
                row_major(width as int, x, y),
            ) by {
                let id = model.label_at(x, y)->0;
                let first = seeds[j];
                assert(seeds[id.0 as int] == seeds[id.0 as int]);
                assert(model.label_at(first.0, first.1) == Some(ComponentId(j as u32)));
            }
        }
        Self { width, height, labels }
    }
}

} // verus!
