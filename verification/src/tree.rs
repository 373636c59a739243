//! The tree of cells that an estimation refines.
//!
//! The cells stand in one growing table. The root is entry 0; a split turns
//! a leaf into an inner cell and appends its two halves, so a child always
//! stands behind its parent and no cell is ever removed. A cell keeps the
//! count of its own batch, which never changes, and a key by which the
//! caller orders the cells' integrated variances: a larger key means a more
//! uncertain cell.

use vstd::prelude::*;

verus! {

/// The result of one batch drawn in a cell.
#[derive(Clone, Copy, Debug, PartialEq, Eq)]
pub struct Tally {
    /// Points of the batch that fell into the region.
    pub hits: usize,
    /// Points drawn.
    pub samples: usize,
    /// Order key of the variance of the batch's estimate.
    pub key: u64,
}

/// One cell of the partition.
#[derive(Clone, Copy, Debug, PartialEq, Eq)]
pub struct Cell {
    /// Points of the cell's own batch that fell into the region.
    pub hits: usize,
    /// Points of the cell's own batch.
    pub samples: usize,
    /// Order key of the cell's integrated variance.
    pub key: u64,
    /// The cell that was split into this one and its sibling; none for the
    /// root.
    pub parent: Option<usize>,
    /// The two halves of the cell, once it has been split.
    pub children: Option<(usize, usize)>,
    /// The axis along which the cell was bisected; 0 as long as it is a
    /// leaf.
    pub axis: usize,
}

/// The cells of a partition of a box, the root first.
pub struct BspTree {
    cells: Vec<Cell>,
    dim: usize,
}

impl Tally {
    /// A batch holds at least one point, and no more hits than points.
    pub open spec fn wf(self) -> bool {
        0 < self.samples && self.hits <= self.samples
    }

    /// The leaf that the batch makes below `parent`.
    pub open spec fn leaf(self, parent: Option<usize>) -> Cell {
        Cell {
            hits: self.hits,
            samples: self.samples,
            key: self.key,
            parent,
            children: None,
            axis: 0,
        }
    }
}

impl Cell {
    /// A cell without children.
    pub open spec fn is_leaf(self) -> bool {
        self.children is None
    }

    /// Index of the first half; 0 for a leaf.
    pub open spec fn first(self) -> int {
        match self.children {
            Some(pair) => pair.0 as int,
            None => 0,
        }
    }

    /// Index of the second half; 0 for a leaf.
    pub open spec fn second(self) -> int {
        match self.children {
            Some(pair) => pair.1 as int,
            None => 0,
        }
    }

    /// The cell's own batch.
    pub open spec fn tally(self) -> Tally {
        Tally { hits: self.hits, samples: self.samples, key: self.key }
    }
}

/// Index of the cell's parent; 0 for the root.
pub open spec fn parent_of(cell: Cell) -> int {
    match cell.parent {
        Some(p) => p as int,
        None => 0,
    }
}

/// `node` is an inner cell of the table whose halves stand behind it.
pub open spec fn has_children(cells: Seq<Cell>, node: int) -> bool {
    &&& 0 <= node < cells.len()
    &&& !cells[node].is_leaf()
    &&& node < cells[node].first() < cells.len()
    &&& node < cells[node].second() < cells.len()
}

/// An inner cell's two halves are neighbours behind it and name it as their
/// parent.
pub open spec fn halves_ok(cells: Seq<Cell>, node: int) -> bool {
    &&& has_children(cells, node)
    &&& cells[node].second() == cells[node].first() + 1
    &&& cells[cells[node].first()].parent == Some(node as usize)
    &&& cells[cells[node].second()].parent == Some(node as usize)
}

/// A cell other than the root is one of the two halves of its parent, which
/// stands before it.
pub open spec fn parent_ok(cells: Seq<Cell>, node: int) -> bool {
    &&& cells[node].parent matches Some(p)
    &&& p < node
    &&& !cells[p as int].is_leaf()
    &&& (cells[p as int].first() == node || cells[p as int].second() == node)
}

/// What holds of each cell of a well-formed table.
pub open spec fn cell_ok(cells: Seq<Cell>, node: int) -> bool {
    &&& cells[node].tally().wf()
    &&& !cells[node].is_leaf() ==> halves_ok(cells, node)
    &&& node >= 1 ==> parent_ok(cells, node)
}

/// The table is a binary tree rooted at entry 0: every batch is well formed,
/// the two halves of an inner cell are neighbours behind it that name it as
/// their parent, and every cell but the root is a half of its parent.
pub open spec fn tree_wf(cells: Seq<Cell>) -> bool {
    &&& cells.len() >= 1
    &&& cells[0].parent is None
    &&& forall|i: int| 0 <= i < cells.len() ==> #[trigger] cell_ok(cells, i)
}

/// Every inner cell was bisected along one of the box's `dim` axes.
pub open spec fn axes_within(cells: Seq<Cell>, dim: int) -> bool {
    forall|i: int|
        0 <= i < cells.len() && !(#[trigger] cells[i]).is_leaf() ==> 0 <= cells[i].axis < dim
}

/// The half of an inner cell that a refinement goes into: the one with the
/// larger key, the first where the keys are equal.
pub open spec fn preferred_child(cells: Seq<Cell>, node: int) -> int {
    if cells[cells[node].first()].key < cells[cells[node].second()].key {
        cells[node].second()
    } else {
        cells[node].first()
    }
}

/// The cells from `node` down to the leaf that a refinement reaches from it.
pub open spec fn descent(cells: Seq<Cell>, node: int) -> Seq<usize>
    decreases cells.len() - node,
{
    if has_children(cells, node) {
        seq![node as usize] + descent(cells, preferred_child(cells, node))
    } else {
        seq![node as usize]
    }
}

/// `target` is `node` or lies below it.
pub open spec fn in_subtree(cells: Seq<Cell>, node: int, target: int) -> bool
    decreases cells.len() - node,
{
    node == target || (has_children(cells, node) && (in_subtree(
        cells,
        cells[node].first(),
        target,
    ) || in_subtree(cells, cells[node].second(), target)))
}

/// Number of points drawn for the cells of the table, all batches
/// together.
pub open spec fn total_samples(cells: Seq<Cell>) -> nat
    decreases cells.len(),
{
    if cells.len() == 0 {
        0
    } else {
        total_samples(cells.drop_last()) + cells.last().samples as nat
    }
}

/// The table after the leaf `leaf` has been bisected along `axis` into two
/// cells that hold the batches `first` and `second`.
pub open spec fn split_cells(
    cells: Seq<Cell>,
    leaf: int,
    axis: usize,
    first: Tally,
    second: Tally,
) -> Seq<Cell> {
    let halves = (cells.len() as usize, (cells.len() + 1) as usize);
    cells.update(leaf, Cell { children: Some(halves), axis, ..cells[leaf] }).push(
        first.leaf(Some(leaf as usize)),
    ).push(second.leaf(Some(leaf as usize)))
}

impl View for BspTree {
    type V = Seq<Cell>;

    closed spec fn view(&self) -> Seq<Cell> {
        self.cells@
    }
}

impl BspTree {
    /// Number of axes of the box that the tree partitions.
    pub closed spec fn axes(&self) -> int {
        self.dim as int
    }

    /// Well-formedness of the tree: that of its table, over a box of at
    /// least one axis.
    pub open spec fn wf(&self) -> bool {
        &&& tree_wf(self@)
        &&& self.axes() > 0
        &&& axes_within(self@, self.axes())
    }

    /// A tree of one cell, the root, which holds the first batch drawn in a
    /// box of `dim` axes.
    pub fn new(dim: usize, root: Tally) -> (tree: BspTree)
        requires
            dim > 0,
            root.wf(),
        ensures
            tree@ == seq![root.leaf(None)],
            tree.axes() == dim,
            tree.wf(),
    {
        let mut cells: Vec<Cell> = Vec::new();
        cells.push(
            Cell {
                hits: root.hits,
                samples: root.samples,
                key: root.key,
                parent: None,
                children: None,
                axis: 0,
            },
        );
        let tree = BspTree { cells, dim };
        assert(tree@ =~= seq![root.leaf(None)]);
        tree
    }

    /// Number of axes of the box.
    pub fn dim(&self) -> (dim: usize)
        ensures
            dim == self.axes(),
    {
        self.dim
    }

    /// Number of cells.
    pub fn len(&self) -> (n: usize)
        ensures
            n == self@.len(),
    {
        self.cells.len()
    }

    /// The cell at `node`.
    pub fn cell(&self, node: usize) -> (cell: Cell)
        requires
            node < self@.len(),
        ensures
            cell == self@[node as int],
    {
        self.cells[node]
    }

    /// The path of a refinement: from the root into the half with the larger
    /// key, down to a leaf.
    pub fn descend(&self) -> (path: Vec<usize>)
        requires
            self.wf(),
        ensures
            path@ == descent(self@, 0),
            path@.len() >= 1,
            path@[0] == 0,
            path@.last() < self@.len(),
            self@[path@.last() as int].is_leaf(),
    {
        proof {
            lemma_descent(self@, 0);
        }
        let mut path: Vec<usize> = Vec::new();
        let mut node: usize = 0;
        loop
            invariant
                self.wf(),
                node < self@.len(),
                path@ + descent(self@, node as int) == descent(self@, 0),
            decreases self@.len() - node,
        {
            let cell = self.cells[node];
            let ghost before = path@;
            assert(cell_ok(self@, node as int));
            path.push(node);
            match cell.children {
                None => {
                    assert(path@ =~= before + descent(self@, node as int));
                    return path;
                },
                Some((first, second)) => {
                    let next: usize = if self.cells[first].key < self.cells[second].key {
                        second
                    } else {
                        first
                    };
                    assert(path@ + descent(self@, next as int) =~= before + descent(
                        self@,
                        node as int,
                    ));
                    node = next;
                },
            }
        }
    }

    /// Bisects the leaf `leaf` along `axis`: its two halves are appended,
    /// holding the batches `first` and `second`. Returns their indices.
    pub fn split(&mut self, leaf: usize, axis: usize, first: Tally, second: Tally) -> (halves: (
        usize,
        usize,
    ))
        requires
            old(self).wf(),
            leaf < old(self)@.len(),
            old(self)@[leaf as int].is_leaf(),
            axis < old(self).axes(),
            first.wf(),
            second.wf(),
        ensures
            final(self)@ == split_cells(old(self)@, leaf as int, axis, first, second),
            final(self).axes() == old(self).axes(),
            final(self).wf(),
            halves.0 == old(self)@.len(),
            halves.1 == old(self)@.len() + 1,
    {
        let a: usize = self.cells.len();
        self.cells.push(
            Cell {
                hits: first.hits,
                samples: first.samples,
                key: first.key,
                parent: Some(leaf),
                children: None,
                axis: 0,
            },
        );
        self.cells.push(
            Cell {
                hits: second.hits,
                samples: second.samples,
                key: second.key,
                parent: Some(leaf),
                children: None,
                axis: 0,
            },
        );
        let b: usize = self.cells.len() - 1;
        let old_cell = self.cells[leaf];
        self.cells.set(
            leaf,
            Cell {
                hits: old_cell.hits,
                samples: old_cell.samples,
                key: old_cell.key,
                parent: old_cell.parent,
                children: Some((a, b)),
                axis,
            },
        );
        assert(self@ =~= split_cells(old(self)@, leaf as int, axis, first, second));
        proof {
            lemma_split_wf(old(self)@, leaf as int, axis, first, second);
            assert forall|i: int| 0 <= i < self@.len() && !(#[trigger] self@[i]).is_leaf() implies 0
                <= self@[i].axis < self.axes() by {
                if i != leaf {
                    assert(!old(self)@[i].is_leaf());
                }
            }
        }
        (a, b)
    }

    /// Refines the tree: bisects the leaf that the descent from the root
    /// reaches, along `axis`, into two cells that hold the batches `first`
    /// and `second`. Returns the path of the descent, whose cells are those
    /// that the new cells lie below.
    pub fn refine(&mut self, axis: usize, first: Tally, second: Tally) -> (path: Vec<usize>)
        requires
            old(self).wf(),
            axis < old(self).axes(),
            first.wf(),
            second.wf(),
        ensures
            path@ == descent(old(self)@, 0),
            final(self)@ == split_cells(
                old(self)@,
                descent(old(self)@, 0).last() as int,
                axis,
                first,
                second,
            ),
            final(self).axes() == old(self).axes(),
            final(self).wf(),
    {
        let path = self.descend();
        let leaf: usize = path[path.len() - 1];
        self.split(leaf, axis, first, second);
        path
    }

    /// Replaces the key of the cell at `node`, after its integrated variance
    /// has been computed anew.
    pub fn set_key(&mut self, node: usize, key: u64)
        requires
            old(self).wf(),
            node < old(self)@.len(),
        ensures
            final(self)@ == old(self)@.update(
                node as int,
                (Cell { key, ..old(self)@[node as int] }),
            ),
            final(self).axes() == old(self).axes(),
            final(self).wf(),
    {
        let old_cell = self.cells[node];
        self.cells.set(
            node,
            Cell {
                hits: old_cell.hits,
                samples: old_cell.samples,
                key,
                parent: old_cell.parent,
                children: old_cell.children,
                axis: old_cell.axis,
            },
        );
        assert(self@ =~= old(self)@.update(node as int, (Cell { key, ..old(self)@[node as int] })));
        proof {
            let before = old(self)@;
            let after = self@;
            assert forall|i: int| 0 <= i < after.len() implies #[trigger] cell_ok(after, i) by {
                assert(cell_ok(before, i));
            }
            assert forall|i: int| 0 <= i < after.len() && !(#[trigger] after[i]).is_leaf() implies 0
                <= after[i].axis < self.axes() by {
                assert(!before[i].is_leaf());
            }
        }
    }
}

/// Splitting a leaf of a well-formed tree leaves a well-formed tree.
pub proof fn lemma_split_wf(cells: Seq<Cell>, leaf: int, axis: usize, first: Tally, second: Tally)
    requires
        tree_wf(cells),
        0 <= leaf < cells.len(),
        cells[leaf].is_leaf(),
        first.wf(),
        second.wf(),
        cells.len() + 1 <= usize::MAX,
    ensures
        tree_wf(split_cells(cells, leaf, axis, first, second)),
{
    let after = split_cells(cells, leaf, axis, first, second);
    let n = cells.len() as int;
    assert(after.len() == n + 2);
    assert(cell_ok(cells, leaf));
    assert(cell_ok(cells, 0));
    assert forall|i: int| 0 <= i < after.len() implies #[trigger] cell_ok(after, i) by {
        if i < n {
            assert(cell_ok(cells, i));
            if i >= 1 {
                let p = parent_of(cells[i]);
                assert(p != leaf);
                assert(after[p] == cells[p]);
            }
            if i != leaf && !cells[i].is_leaf() {
                let a = cells[i].first();
                assert(after[a].parent == cells[a].parent);
                assert(after[a + 1].parent == cells[a + 1].parent);
            }
        }
    }
}

/// The cell at place `k` of a path is the preferred half of the cell before
/// it.
pub open spec fn follows_preference(cells: Seq<Cell>, path: Seq<usize>, k: int) -> bool {
    &&& has_children(cells, path[k - 1] as int)
    &&& path[k] == preferred_child(cells, path[k - 1] as int)
}

/// The path of a refinement starts at `node` and ends in a leaf, which lies
/// below every cell of the path.
pub proof fn lemma_descent(cells: Seq<Cell>, node: int)
    requires
        tree_wf(cells),
        0 <= node < cells.len(),
    ensures
        descent(cells, node).len() >= 1,
        descent(cells, node)[0] == node,
        descent(cells, node).last() < cells.len(),
        cells[descent(cells, node).last() as int].is_leaf(),
        forall|k: int|
            0 <= k < descent(cells, node).len() ==> in_subtree(
                cells,
                #[trigger] descent(cells, node)[k] as int,
                descent(cells, node).last() as int,
            ),
    decreases cells.len() - node,
{
    let path = descent(cells, node);
    if has_children(cells, node) {
        let next = preferred_child(cells, node);
        let rest = descent(cells, next);
        lemma_descent(cells, next);
        assert(path == seq![node as usize] + rest);
        assert(path.last() == rest.last());
        assert(rest[0] == next);
        assert(in_subtree(cells, next, rest.last() as int));
        assert(in_subtree(cells, node, rest.last() as int));
        assert forall|k: int| 0 <= k < path.len() implies in_subtree(
            cells,
            #[trigger] path[k] as int,
            path.last() as int,
        ) by {
            if k > 0 {
                assert(path[k] == rest[k - 1]);
            }
        }
    } else {
        assert(cell_ok(cells, node));
    }
}

/// Each cell of a refinement's path but the first is the preferred half of
/// the one before it.
pub proof fn lemma_descent_steps(cells: Seq<Cell>, node: int)
    requires
        tree_wf(cells),
        0 <= node < cells.len(),
    ensures
        forall|k: int|
            1 <= k < descent(cells, node).len() ==> #[trigger] follows_preference(
                cells,
                descent(cells, node),
                k,
            ),
    decreases cells.len() - node,
{
    let path = descent(cells, node);
    if has_children(cells, node) {
        let next = preferred_child(cells, node);
        let rest = descent(cells, next);
        lemma_descent(cells, next);
        lemma_descent_steps(cells, next);
        assert(path == seq![node as usize] + rest);
        assert forall|k: int| 1 <= k < path.len() implies #[trigger] follows_preference(
            cells,
            path,
            k,
        ) by {
            assert(path[k] == rest[k - 1]);
            if k > 1 {
                assert(path[k - 1] == rest[k - 2]);
                assert(follows_preference(cells, rest, k - 1));
            } else {
                assert(path[0] == node);
                assert(rest[0] == next);
            }
        }
    }
}

/// Replacing a cell by one with as many samples leaves the total as it is.
pub proof fn lemma_total_samples_update(cells: Seq<Cell>, node: int, cell: Cell)
    requires
        0 <= node < cells.len(),
        cell.samples == cells[node].samples,
    ensures
        total_samples(cells.update(node, cell)) == total_samples(cells),
    decreases cells.len(),
{
    let changed = cells.update(node, cell);
    if node == cells.len() - 1 {
        assert(changed.drop_last() =~= cells.drop_last());
    } else {
        assert(changed.drop_last() =~= cells.drop_last().update(node, cell));
        lemma_total_samples_update(cells.drop_last(), node, cell);
    }
}

/// A split adds the two batches of the new halves to the points drawn, and
/// nothing else: no batch is counted twice and none is lost.
pub proof fn lemma_split_total_samples(
    cells: Seq<Cell>,
    leaf: int,
    axis: usize,
    first: Tally,
    second: Tally,
)
    requires
        0 <= leaf < cells.len(),
    ensures
        total_samples(split_cells(cells, leaf, axis, first, second)) == total_samples(cells)
            + first.samples + second.samples,
{
    let halves = (cells.len() as usize, (cells.len() + 1) as usize);
    let inner = Cell { children: Some(halves), axis, ..cells[leaf] };
    let one = cells.update(leaf, inner);
    let two = one.push(first.leaf(Some(leaf as usize)));
    let three = two.push(second.leaf(Some(leaf as usize)));
    lemma_total_samples_update(cells, leaf, inner);
    assert(two.drop_last() =~= one);
    assert(three.drop_last() =~= two);
    assert(total_samples(two) == total_samples(one) + first.samples);
    assert(total_samples(three) == total_samples(two) + second.samples);
    assert(three == split_cells(cells, leaf, axis, first, second));
}

/// A cell stands before every other cell of its subtree.
pub proof fn lemma_subtree_stands_behind(cells: Seq<Cell>, node: int, target: int)
    requires
        in_subtree(cells, node, target),
    ensures
        node <= target,
        node < cells.len() ==> target < cells.len(),
    decreases cells.len() - node,
{
    if node != target {
        if in_subtree(cells, cells[node].first(), target) {
            lemma_subtree_stands_behind(cells, cells[node].first(), target);
        } else {
            lemma_subtree_stands_behind(cells, cells[node].second(), target);
        }
    }
}

/// A subtree that holds a cell other than its own root holds that cell's
/// parent too.
pub proof fn lemma_subtree_holds_parent(cells: Seq<Cell>, node: int, target: int)
    requires
        tree_wf(cells),
        in_subtree(cells, node, target),
        node != target,
    ensures
        in_subtree(cells, node, parent_of(cells[target])),
    decreases cells.len() - node,
{
    assert(cell_ok(cells, node));
    let a = cells[node].first();
    let b = cells[node].second();
    if in_subtree(cells, a, target) {
        if a != target {
            lemma_subtree_holds_parent(cells, a, target);
        }
    } else {
        if b != target {
            lemma_subtree_holds_parent(cells, b, target);
        }
    }
}

/// The cells above the leaf of a refinement are the cells of its path: a
/// cell whose subtree holds a cell of the path is itself on the path.
pub proof fn lemma_path_holds_ancestors(cells: Seq<Cell>, k: int, node: int)
    requires
        tree_wf(cells),
        0 <= k < descent(cells, 0).len(),
        0 <= node < cells.len(),
        in_subtree(cells, node, descent(cells, 0)[k] as int),
    ensures
        descent(cells, 0).contains(node as usize),
    decreases k,
{
    let path = descent(cells, 0);
    let target = path[k] as int;
    lemma_descent(cells, 0);
    lemma_descent_steps(cells, 0);
    lemma_subtree_stands_behind(cells, node, target);
    if node == target {
        assert(path[k] == node as usize);
    } else {
        assert(k >= 1);
        assert(follows_preference(cells, path, k));
        assert(cell_ok(cells, path[k - 1] as int));
        assert(parent_of(cells[target]) == path[k - 1]);
        lemma_subtree_holds_parent(cells, node, target);
        lemma_path_holds_ancestors(cells, k - 1, node);
    }
}

} // verus!
