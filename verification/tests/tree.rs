use bsp_monte_carlo::tree::{BspTree, Cell, Tally};

fn tally(hits: usize, samples: usize, key: u64) -> Tally {
    Tally { hits, samples, key }
}

#[test]
fn new_tree_is_one_leaf() {
    let tree = BspTree::new(2, tally(30, 100, 7));
    assert_eq!(tree.len(), 1);
    assert_eq!(tree.dim(), 2);
    assert_eq!(
        tree.cell(0),
        Cell { hits: 30, samples: 100, key: 7, parent: None, children: None, axis: 0 }
    );
    assert_eq!(tree.descend(), vec![0]);
}

#[test]
fn split_appends_both_halves() {
    let mut tree = BspTree::new(3, tally(30, 100, 7));
    let halves = tree.split(0, 2, tally(20, 50, 4), tally(10, 50, 9));
    assert_eq!(halves, (1, 2));
    assert_eq!(tree.len(), 3);
    assert_eq!(
        tree.cell(0),
        Cell { hits: 30, samples: 100, key: 7, parent: None, children: Some((1, 2)), axis: 2 }
    );
    assert_eq!(
        tree.cell(1),
        Cell { hits: 20, samples: 50, key: 4, parent: Some(0), children: None, axis: 0 }
    );
    assert_eq!(
        tree.cell(2),
        Cell { hits: 10, samples: 50, key: 9, parent: Some(0), children: None, axis: 0 }
    );
}

#[test]
fn descent_goes_into_the_larger_key() {
    let mut tree = BspTree::new(2, tally(30, 100, 7));
    tree.split(0, 0, tally(20, 50, 4), tally(10, 50, 9));
    assert_eq!(tree.descend(), vec![0, 2]);
    tree.split(2, 1, tally(5, 25, 6), tally(5, 25, 3));
    assert_eq!(tree.descend(), vec![0, 2, 3]);
    tree.set_key(2, 1);
    assert_eq!(tree.descend(), vec![0, 1]);
}

#[test]
fn equal_keys_go_into_the_first_half() {
    let mut tree = BspTree::new(1, tally(1, 2, 0));
    tree.split(0, 0, tally(1, 1, 5), tally(0, 1, 5));
    assert_eq!(tree.descend(), vec![0, 1]);
    tree.split(1, 0, tally(1, 1, 0), tally(1, 1, 0));
    assert_eq!(tree.descend(), vec![0, 1, 3]);
}

#[test]
fn the_root_key_plays_no_part_in_the_descent() {
    let mut tree = BspTree::new(2, tally(3, 4, 0));
    tree.split(0, 1, tally(1, 2, 1), tally(2, 2, 2));
    tree.set_key(0, u64::MAX);
    assert_eq!(tree.descend(), vec![0, 2]);
    assert_eq!(tree.cell(0).key, u64::MAX);
    assert_eq!(tree.cell(0).children, Some((1, 2)));
    assert_eq!(tree.cell(0).axis, 1);
}

#[test]
fn set_key_changes_the_key_alone() {
    let mut tree = BspTree::new(2, tally(3, 4, 10));
    tree.split(0, 1, tally(1, 2, 1), tally(2, 2, 2));
    tree.set_key(1, 99);
    assert_eq!(
        tree.cell(1),
        Cell { hits: 1, samples: 2, key: 99, parent: Some(0), children: None, axis: 0 }
    );
    assert_eq!(tree.cell(2).key, 2);
    assert_eq!(tree.len(), 3);
    assert_eq!(tree.dim(), 2);
}

#[test]
fn every_cell_but_the_root_is_a_half_of_its_parent() {
    let mut tree = BspTree::new(3, tally(50, 100, 50));
    let mut key = 1;
    for round in 0..20 {
        let path = tree.descend();
        let leaf = *path.last().unwrap();
        assert!(tree.cell(leaf).children.is_none());
        let halves = tree.split(leaf, round % 3, tally(1, 5, key), tally(2, 5, key + 1));
        assert_eq!(halves, (2 * round + 1, 2 * round + 2));
        key += 2;
    }
    assert_eq!(tree.len(), 41);
    let mut samples = 0;
    for node in 0..tree.len() {
        let cell = tree.cell(node);
        samples += cell.samples;
        match cell.parent {
            None => assert_eq!(node, 0),
            Some(parent) => {
                assert!(parent < node);
                let (first, second) = tree.cell(parent).children.unwrap();
                assert!(first == node || second == node);
                assert_eq!(second, first + 1);
            }
        }
        if let Some((first, second)) = cell.children {
            assert!(cell.axis < 3);
            assert_eq!(tree.cell(first).parent, Some(node));
            assert_eq!(tree.cell(second).parent, Some(node));
        }
    }
    assert_eq!(samples, 100 + 20 * 10);
}

#[test]
fn refinement_splits_the_leaf_of_the_descent() {
    let mut tree = BspTree::new(2, tally(30, 100, 7));
    assert_eq!(tree.refine(0, tally(20, 50, 4), tally(10, 50, 9)), vec![0]);
    assert_eq!(tree.cell(0).children, Some((1, 2)));
    assert_eq!(tree.refine(1, tally(5, 25, 6), tally(5, 25, 3)), vec![0, 2]);
    assert_eq!(tree.cell(2).children, Some((3, 4)));
    assert_eq!(tree.cell(2).axis, 1);
    assert_eq!(tree.cell(1).children, None);
    assert_eq!(tree.cell(3).parent, Some(2));
    assert_eq!(tree.cell(4).parent, Some(2));
    assert_eq!(tree.refine(0, tally(1, 13, 1), tally(1, 12, 8)), vec![0, 2, 3]);
    assert_eq!(tree.len(), 7);
    assert_eq!(tree.cell(6), Cell {
        hits: 1,
        samples: 12,
        key: 8,
        parent: Some(3),
        children: None,
        axis: 0,
    });
}
