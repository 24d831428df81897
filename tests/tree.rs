use astrograph::body::BodyTree;
use astrograph::constellation::{Constellation, Weak};
use astrograph::resolver::get_body_by_id;

/// root -> [a, b]; a -> [a0, a1]; a1 -> [a10]; b -> [b0]
fn three_levels() -> (BodyTree<&'static str>, Vec<usize>) {
    let mut tree = BodyTree::new("root");
    let a = tree.add_child(0, "a");
    let b = tree.add_child(0, "b");
    let a0 = tree.add_child(a, "a0");
    let a1 = tree.add_child(a, "a1");
    let b0 = tree.add_child(b, "b0");
    let a10 = tree.add_child(a1, "a10");
    (tree, vec![0, a, b, a0, a1, b0, a10])
}

#[test]
fn new_tree_is_single_hydrated_root() {
    let tree = BodyTree::new(7u32);
    assert_eq!(tree.len(), 1);
    assert!(tree.hydrated());
    assert_eq!(tree.parent(0), None);
    assert!(tree.children(0).is_empty());
    assert_eq!(*tree.get(0), 7);
    assert_eq!(tree.id(0), Some(vec![]));
}

#[test]
fn add_child_records_forward_link_only() {
    let mut tree = BodyTree::new("root");
    let a = tree.add_child(0, "a");
    assert_eq!(a, 1);
    assert_eq!(tree.children(0), &vec![1]);
    assert_eq!(tree.parent(a), None);
    assert!(!tree.hydrated());
    assert_eq!(tree.id(a), None);
    assert_eq!(tree.ancestors(a), None);
}

#[test]
fn hydration_links_every_body_to_its_owner() {
    let (mut tree, ix) = three_levels();
    tree.hydrate();
    assert!(tree.hydrated());
    assert_eq!(tree.parent(0), None);
    let owners = [None, Some(0), Some(0), Some(ix[1]), Some(ix[1]), Some(ix[2]), Some(ix[4])];
    for (n, owner) in ix.iter().zip(owners.iter()) {
        assert_eq!(tree.parent(*n), *owner);
    }
    // Walking from the deepest leaf reaches the root through its builders.
    assert_eq!(tree.ancestors(ix[6]), Some(vec![ix[6], ix[4], ix[1], 0]));
    assert_eq!(tree.ancestors(ix[5]), Some(vec![ix[5], ix[2], 0]));
    assert_eq!(tree.ancestors(0), Some(vec![0]));
    assert_eq!(tree.ancestors(99), None);
}

#[test]
fn hydration_is_idempotent() {
    let (mut tree, ix) = three_levels();
    tree.hydrate();
    let first: Vec<Option<usize>> = ix.iter().map(|n| tree.parent(*n)).collect();
    tree.hydrate();
    let second: Vec<Option<usize>> = ix.iter().map(|n| tree.parent(*n)).collect();
    assert_eq!(first, second);
    assert_eq!(*tree.get(ix[6]), "a10");
}

#[test]
fn ids_follow_child_positions() {
    let (mut tree, ix) = three_levels();
    tree.hydrate();
    assert_eq!(tree.id(ix[1]), Some(vec![0]));
    assert_eq!(tree.id(ix[2]), Some(vec![1]));
    assert_eq!(tree.id(ix[4]), Some(vec![0, 1]));
    assert_eq!(tree.id(ix[5]), Some(vec![1, 0]));
    assert_eq!(tree.id(ix[6]), Some(vec![0, 1, 0]));
    assert_eq!(tree.id(42), None);
}

#[test]
fn resolving_every_id_round_trips() {
    let (mut tree, _) = three_levels();
    tree.hydrate();
    for n in 0..tree.len() {
        let id = tree.id(n).unwrap();
        assert_eq!(get_body_by_id(&id, &tree), Some(n));
    }
}

#[test]
fn resolve_reads_path_from_the_root_down() {
    let (tree, ix) = three_levels();
    assert_eq!(get_body_by_id(&[], &tree), Some(0));
    assert_eq!(get_body_by_id(&[0, 1], &tree), Some(ix[4]));
    assert_eq!(get_body_by_id(&[1, 0], &tree), Some(ix[5]));
    assert_eq!(get_body_by_id(&[0, 1, 0], &tree), Some(ix[6]));
}

#[test]
fn resolve_out_of_range_is_not_found() {
    let (tree, _) = three_levels();
    assert_eq!(get_body_by_id(&[0, 99], &tree), None);
    assert_eq!(get_body_by_id(&[2], &tree), None);
    assert_eq!(get_body_by_id(&[0, 0, 0], &tree), None);
}

#[test]
fn upgrade_resolves_weak_pair() {
    let (mut tree, ix) = three_levels();
    tree.hydrate();
    let weak = Weak::new(vec![(vec![0], vec![0, 1])]);
    let strong = weak.upgrade(&tree);
    assert_eq!(strong.edges(), &vec![(ix[1], ix[4])]);
    let (a, b) = strong.edges()[0];
    assert_eq!(tree.id(a), Some(vec![0]));
    assert_eq!(tree.id(b), Some(vec![0, 1]));
}

#[test]
fn upgrade_drops_pair_with_missing_end() {
    let (tree, ix) = three_levels();
    let weak = Weak::new(vec![
        (vec![0], vec![0, 99]),
        (vec![1], vec![0, 0]),
        (vec![5], vec![]),
    ]);
    let strong = weak.upgrade(&tree);
    assert_eq!(strong.edges(), &vec![(ix[2], ix[3])]);
}

#[test]
fn downgrade_gives_ids_of_both_ends() {
    let (mut tree, ix) = three_levels();
    tree.hydrate();
    let strong = Constellation::new(vec![(ix[6], ix[5]), (ix[3], 50), (0, ix[2])]);
    let weak = Weak::from_constellation(strong, &tree);
    assert_eq!(
        weak.edges(),
        &vec![(vec![0, 1, 0], vec![1, 0]), (vec![], vec![1])]
    );
}

#[test]
fn downgrade_of_unhydrated_tree_drops_everything() {
    let (tree, ix) = three_levels();
    let strong = Constellation::new(vec![(ix[1], ix[2])]);
    let weak = Weak::from_constellation(strong, &tree);
    assert!(weak.edges().is_empty());
}

#[test]
fn upgrade_then_downgrade_keeps_resolvable_edges() {
    let (mut tree, _) = three_levels();
    tree.hydrate();
    let edges = vec![(vec![0, 0], vec![1]), (vec![3], vec![0]), (vec![0, 1, 0], vec![])];
    let strong = Weak::new(edges).upgrade(&tree);
    let weak = Weak::from_constellation(strong, &tree);
    assert_eq!(
        weak.edges(),
        &vec![(vec![0, 0], vec![1]), (vec![0, 1, 0], vec![])]
    );
}

#[test]
fn others_skips_the_anchor() {
    let (tree, _) = three_levels();
    assert_eq!(tree.others(0), vec![1, 2, 3, 4, 5, 6]);
    assert_eq!(tree.others(4), vec![0, 1, 2, 3, 5, 6]);
    assert_eq!(tree.others(6), vec![0, 1, 2, 3, 4, 5]);
    assert_eq!(BodyTree::new(()).others(0), Vec::<usize>::new());
}
