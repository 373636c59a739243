//! The boxes of the cells, in exact arithmetic.
//!
//! The root's box is given by one pair of bounds per axis. A split bisects
//! the box of a leaf along one axis at its midpoint, so the box of a cell
//! follows from the root's by the bisections on the way down to it.

use crate::tree::{axes_within, cell_ok, has_children, parent_of, parent_ok, tree_wf, Cell};
use vstd::prelude::*;

verus! {

/// Every axis of the box has its lower bound below its upper bound.
pub open spec fn proper(bounds: Seq<(real, real)>) -> bool {
    forall|i: int| 0 <= i < bounds.len() ==> (#[trigger] bounds[i]).0 < bounds[i].1
}

/// Midpoint of the box along `axis`.
pub open spec fn midpoint(bounds: Seq<(real, real)>, axis: int) -> real {
    (bounds[axis].0 + bounds[axis].1) / 2 as real
}

/// One half of the box bisected along `axis`: the half above the midpoint
/// where `upper_half` is set, the half below it otherwise.
pub open spec fn bisected(bounds: Seq<(real, real)>, axis: int, upper_half: bool) -> Seq<
    (real, real),
> {
    if upper_half {
        bounds.update(axis, (midpoint(bounds, axis), bounds[axis].1))
    } else {
        bounds.update(axis, (bounds[axis].0, midpoint(bounds, axis)))
    }
}

/// Volume of the box: the product of its extents.
pub open spec fn box_volume(bounds: Seq<(real, real)>) -> real
    decreases bounds.len(),
{
    if bounds.len() == 0 {
        1 as real
    } else {
        box_volume(bounds.drop_last()) * (bounds.last().1 - bounds.last().0)
    }
}

/// The box of the cell at `node` in a tree whose root has the box `root`.
pub open spec fn region(cells: Seq<Cell>, node: int, root: Seq<(real, real)>) -> Seq<(real, real)>
    decreases node,
{
    if 1 <= node < cells.len() && parent_ok(cells, node) {
        let p = parent_of(cells[node]);
        bisected(region(cells, p, root), cells[p].axis as int, cells[p].second() == node)
    } else {
        root
    }
}

/// Halving the extent of one axis halves the volume of the box.
pub proof fn lemma_box_volume_halved(bounds: Seq<(real, real)>, axis: int, pair: (real, real))
    requires
        0 <= axis < bounds.len(),
        pair.1 - pair.0 == (bounds[axis].1 - bounds[axis].0) / 2 as real,
    ensures
        box_volume(bounds.update(axis, pair)) == box_volume(bounds) / 2 as real,
    decreases bounds.len(),
{
    let changed = bounds.update(axis, pair);
    let rest = box_volume(bounds.drop_last());
    let width = bounds.last().1 - bounds.last().0;
    if axis == bounds.len() - 1 {
        assert(changed.drop_last() =~= bounds.drop_last());
        let half_width = pair.1 - pair.0;
        assert(rest * half_width == (rest * width) / 2 as real) by (nonlinear_arith)
            requires
                half_width == width / 2 as real,
        ;
    } else {
        assert(changed.drop_last() =~= bounds.drop_last().update(axis, pair));
        lemma_box_volume_halved(bounds.drop_last(), axis, pair);
        let half_rest = box_volume(changed.drop_last());
        assert(half_rest * width == (rest * width) / 2 as real) by (nonlinear_arith)
            requires
                half_rest == rest / 2 as real,
        ;
    }
}

/// Either half of a bisected box has half its volume, and is proper where
/// the box is.
pub proof fn lemma_bisected(bounds: Seq<(real, real)>, axis: int, upper_half: bool)
    requires
        0 <= axis < bounds.len(),
    ensures
        bisected(bounds, axis, upper_half).len() == bounds.len(),
        box_volume(bisected(bounds, axis, upper_half)) == box_volume(bounds) / 2 as real,
        proper(bounds) ==> proper(bisected(bounds, axis, upper_half)),
        proper(bounds) ==> bounds[axis].0 < midpoint(bounds, axis) < bounds[axis].1,
{
    let half = bisected(bounds, axis, upper_half);
    lemma_box_volume_halved(bounds, axis, half[axis]);
    if proper(bounds) {
        assert(bounds[axis].0 < bounds[axis].1);
        assert forall|i: int| 0 <= i < half.len() implies (#[trigger] half[i]).0 < half[i].1 by {
            if i != axis {
                assert(half[i] == bounds[i]);
            }
        }
    }
}

/// Every cell's box has the root's number of axes, and is proper where the
/// root's is.
pub proof fn lemma_region_shape(cells: Seq<Cell>, node: int, root: Seq<(real, real)>)
    requires
        tree_wf(cells),
        axes_within(cells, root.len() as int),
        0 <= node < cells.len(),
    ensures
        region(cells, node, root).len() == root.len(),
        proper(root) ==> proper(region(cells, node, root)),
    decreases node,
{
    assert(cell_ok(cells, node));
    if node >= 1 {
        let p = parent_of(cells[node]);
        lemma_region_shape(cells, p, root);
        lemma_bisected(region(cells, p, root), cells[p].axis as int, cells[p].second() == node);
    }
}

/// The two halves of an inner cell partition its box: they are the two
/// halves of the box bisected along the cell's axis, and each has half its
/// volume.
pub proof fn lemma_halves_partition(cells: Seq<Cell>, node: int, root: Seq<(real, real)>)
    requires
        tree_wf(cells),
        axes_within(cells, root.len() as int),
        has_children(cells, node),
    ensures
        region(cells, cells[node].first(), root) == bisected(
            region(cells, node, root),
            cells[node].axis as int,
            false,
        ),
        region(cells, cells[node].second(), root) == bisected(
            region(cells, node, root),
            cells[node].axis as int,
            true,
        ),
        box_volume(region(cells, cells[node].first(), root)) == box_volume(
            region(cells, node, root),
        ) / 2 as real,
        box_volume(region(cells, cells[node].second(), root)) == box_volume(
            region(cells, node, root),
        ) / 2 as real,
{
    let a = cells[node].first();
    let b = cells[node].second();
    assert(cell_ok(cells, node));
    assert(cell_ok(cells, a));
    assert(cell_ok(cells, b));
    lemma_region_shape(cells, node, root);
    lemma_bisected(region(cells, node, root), cells[node].axis as int, false);
    lemma_bisected(region(cells, node, root), cells[node].axis as int, true);
}

} // verus!
