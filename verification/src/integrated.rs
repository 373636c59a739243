//! What a tree of cells estimates, in exact arithmetic.
//!
//! A leaf estimates from its own batch. An inner cell combines its own batch
//! with the sum of its two halves, each of half its volume, by inverse
//! variance. These values are functions of the counts in the tree and of the
//! volume of the root's box alone; the keys play no part in them.

use crate::stats::{
    combined_estimate, combined_variance, leaf_estimate, leaf_variance,
    lemma_combined_estimate_agreeing, lemma_combined_variance, lemma_combined_variance_monotone,
    lemma_leaf_bounds, lemma_leaf_certain,
};
use crate::region::{box_volume, lemma_halves_partition, region};
use crate::tree::{
    axes_within, cell_ok, descent, has_children, in_subtree, lemma_descent,
    lemma_path_holds_ancestors, split_cells, tree_wf, Cell, Tally,
};
use vstd::prelude::*;

verus! {

/// Estimate from the cell's own batch, for a cell of the given volume.
pub open spec fn own_estimate(cell: Cell, volume: real) -> real {
    leaf_estimate(cell.hits as nat, cell.samples as nat, volume)
}

/// Variance of `own_estimate`.
pub open spec fn own_variance(cell: Cell, volume: real) -> real {
    leaf_variance(cell.hits as nat, cell.samples as nat, volume)
}

/// Integrated variance of the cell at `node`, whose box has the given
/// volume.
pub open spec fn integrated_variance(cells: Seq<Cell>, node: int, volume: real) -> real
    decreases cells.len() - node,
{
    if has_children(cells, node) {
        combined_variance(
            own_variance(cells[node], volume),
            integrated_variance(cells, cells[node].first(), volume / 2 as real)
                + integrated_variance(cells, cells[node].second(), volume / 2 as real),
        )
    } else {
        own_variance(cells[node], volume)
    }
}

/// Integrated estimate of the cell at `node`, whose box has the given
/// volume.
pub open spec fn integrated_estimate(cells: Seq<Cell>, node: int, volume: real) -> real
    decreases cells.len() - node,
{
    if has_children(cells, node) {
        combined_estimate(
            own_estimate(cells[node], volume),
            own_variance(cells[node], volume),
            integrated_estimate(cells, cells[node].first(), volume / 2 as real)
                + integrated_estimate(cells, cells[node].second(), volume / 2 as real),
            integrated_variance(cells, cells[node].first(), volume / 2 as real)
                + integrated_variance(cells, cells[node].second(), volume / 2 as real),
        )
    } else {
        own_estimate(cells[node], volume)
    }
}

/// The integrated variance of a cell is never negative and never above the
/// variance of the cell's own batch.
pub proof fn lemma_integrated_variance_bounds(cells: Seq<Cell>, node: int, volume: real)
    requires
        tree_wf(cells),
        0 <= node < cells.len(),
    ensures
        0 as real <= integrated_variance(cells, node, volume) <= own_variance(cells[node], volume),
    decreases cells.len() - node,
{
    let cell = cells[node];
    assert(cell_ok(cells, node));
    lemma_leaf_bounds(cell.hits as nat, cell.samples as nat, volume);
    if has_children(cells, node) {
        let half = volume / 2 as real;
        lemma_integrated_variance_bounds(cells, cell.first(), half);
        lemma_integrated_variance_bounds(cells, cell.second(), half);
        lemma_combined_variance(
            own_variance(cell, volume),
            integrated_variance(cells, cell.first(), half) + integrated_variance(
                cells,
                cell.second(),
                half,
            ),
        );
    }
}

/// A split never raises an integrated variance. That of the split leaf and
/// of every cell above it is at most what it was before; every other cell
/// keeps its integrated variance and its integrated estimate.
pub proof fn lemma_split_variance(
    cells: Seq<Cell>,
    leaf: int,
    axis: usize,
    first: Tally,
    second: Tally,
    node: int,
    volume: real,
)
    requires
        tree_wf(cells),
        0 <= leaf < cells.len(),
        cells[leaf].is_leaf(),
        first.wf(),
        second.wf(),
        cells.len() + 1 <= usize::MAX,
        0 <= node < cells.len(),
    ensures
        0 as real <= integrated_variance(split_cells(cells, leaf, axis, first, second), node, volume)
            <= integrated_variance(cells, node, volume),
        !in_subtree(cells, node, leaf) ==> {
            &&& integrated_variance(split_cells(cells, leaf, axis, first, second), node, volume)
                == integrated_variance(cells, node, volume)
            &&& integrated_estimate(split_cells(cells, leaf, axis, first, second), node, volume)
                == integrated_estimate(cells, node, volume)
        },
    decreases cells.len() - node,
{
    let after = split_cells(cells, leaf, axis, first, second);
    let n = cells.len() as int;
    let half = volume / 2 as real;
    let cell = cells[node];
    assert(cell_ok(cells, node));
    lemma_leaf_bounds(cell.hits as nat, cell.samples as nat, volume);
    let own = own_variance(cell, volume);
    assert(own_variance(after[node], volume) == own);
    assert(own_estimate(after[node], volume) == own_estimate(cell, volume));
    if node == leaf {
        assert(has_children(after, node));
        assert(after[node].first() == n && after[node].second() == n + 1);
        assert(!has_children(after, n) && !has_children(after, n + 1));
        assert(integrated_variance(after, n, half) == own_variance(after[n], half));
        assert(integrated_variance(after, n + 1, half) == own_variance(after[n + 1], half));
        lemma_leaf_bounds(first.hits as nat, first.samples as nat, half);
        lemma_leaf_bounds(second.hits as nat, second.samples as nat, half);
        lemma_combined_variance(
            own,
            integrated_variance(after, n, half) + integrated_variance(after, n + 1, half),
        );
    } else if has_children(cells, node) {
        let a = cell.first();
        let b = cell.second();
        assert(has_children(after, node));
        assert(after[node].first() == a && after[node].second() == b);
        lemma_split_variance(cells, leaf, axis, first, second, a, half);
        lemma_split_variance(cells, leaf, axis, first, second, b, half);
        lemma_combined_variance_monotone(
            own,
            integrated_variance(after, a, half) + integrated_variance(after, b, half),
            integrated_variance(cells, a, half) + integrated_variance(cells, b, half),
        );
        lemma_combined_variance(
            own,
            integrated_variance(after, a, half) + integrated_variance(after, b, half),
        );
    } else {
        assert(!has_children(after, node));
    }
}

/// A refinement changes the values of the cells on its path and of no
/// other: a cell off the path from the root to the split leaf keeps its
/// integrated estimate and variance, and no cell's integrated variance
/// rises.
pub proof fn lemma_refinement_changes_the_path(
    cells: Seq<Cell>,
    axis: usize,
    first: Tally,
    second: Tally,
    node: int,
    volume: real,
)
    requires
        tree_wf(cells),
        first.wf(),
        second.wf(),
        cells.len() + 1 <= usize::MAX,
        0 <= node < cells.len(),
    ensures
        ({
            let leaf = descent(cells, 0).last() as int;
            let after = split_cells(cells, leaf, axis, first, second);
            &&& 0 as real <= integrated_variance(after, node, volume) <= integrated_variance(
                cells,
                node,
                volume,
            )
            &&& !descent(cells, 0).contains(node as usize) ==> {
                &&& integrated_variance(after, node, volume) == integrated_variance(
                    cells,
                    node,
                    volume,
                )
                &&& integrated_estimate(after, node, volume) == integrated_estimate(
                    cells,
                    node,
                    volume,
                )
            }
        }),
{
    let path = descent(cells, 0);
    let leaf = path.last() as int;
    lemma_descent(cells, 0);
    lemma_split_variance(cells, leaf, axis, first, second, node, volume);
    if in_subtree(cells, node, leaf) {
        lemma_path_holds_ancestors(cells, path.len() - 1, node);
    }
}

/// In a tree whose every batch hit with every point, each cell's integrated
/// estimate is the volume of its box, and no variance is left.
pub proof fn lemma_certain_tree(cells: Seq<Cell>, node: int, volume: real)
    requires
        tree_wf(cells),
        forall|i: int| 0 <= i < cells.len() ==> (#[trigger] cells[i]).hits == cells[i].samples,
        0 <= node < cells.len(),
    ensures
        integrated_estimate(cells, node, volume) == volume,
        integrated_variance(cells, node, volume) == 0 as real,
    decreases cells.len() - node,
{
    let cell = cells[node];
    assert(cell_ok(cells, node));
    lemma_leaf_certain(cell.hits as nat, cell.samples as nat, volume);
    if has_children(cells, node) {
        let half = volume / 2 as real;
        lemma_certain_tree(cells, cell.first(), half);
        lemma_certain_tree(cells, cell.second(), half);
        assert(half + half == volume);
        lemma_combined_estimate_agreeing(volume, own_variance(cell, volume), 0 as real);
        lemma_combined_variance(0 as real, 0 as real);
    }
}

/// An inner cell combines its own batch with its two halves, each taken at
/// the volume of its own box.
pub proof fn lemma_integrated_over_regions(cells: Seq<Cell>, node: int, root: Seq<(real, real)>)
    requires
        tree_wf(cells),
        axes_within(cells, root.len() as int),
        has_children(cells, node),
    ensures
        integrated_variance(cells, node, box_volume(region(cells, node, root)))
            == combined_variance(
            own_variance(cells[node], box_volume(region(cells, node, root))),
            integrated_variance(
                cells,
                cells[node].first(),
                box_volume(region(cells, cells[node].first(), root)),
            ) + integrated_variance(
                cells,
                cells[node].second(),
                box_volume(region(cells, cells[node].second(), root)),
            ),
        ),
        integrated_estimate(cells, node, box_volume(region(cells, node, root)))
            == combined_estimate(
            own_estimate(cells[node], box_volume(region(cells, node, root))),
            own_variance(cells[node], box_volume(region(cells, node, root))),
            integrated_estimate(
                cells,
                cells[node].first(),
                box_volume(region(cells, cells[node].first(), root)),
            ) + integrated_estimate(
                cells,
                cells[node].second(),
                box_volume(region(cells, cells[node].second(), root)),
            ),
            integrated_variance(
                cells,
                cells[node].first(),
                box_volume(region(cells, cells[node].first(), root)),
            ) + integrated_variance(
                cells,
                cells[node].second(),
                box_volume(region(cells, cells[node].second(), root)),
            ),
        ),
{
    lemma_halves_partition(cells, node, root);
}

} // verus!
