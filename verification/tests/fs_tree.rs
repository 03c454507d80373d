use std::collections::HashSet;

use torrenter::fs_tree::{split_components, FSTree};

fn collect_ids(tree: &FSTree, node: usize) -> HashSet<usize> {
    let mut ids: Vec<usize> = Vec::new();
    tree.path_ids(node, &mut ids);
    ids.into_iter().collect()
}

#[test]
fn test_fs_tree() {
    let paths = vec![
        "Season 1/a.mkv".to_string(),
        "Season 1/b.mkv".to_string(),
        "Season 1/c.mkv".to_string(),
        "Season 1/d.mkv".to_string(),
        "Season 2/a.mkv".to_string(),
        "Season 2/b.mkv".to_string(),
        "Season 2/c.mkv".to_string(),
        "Season 2/d.mkv".to_string(),
        "Season 2/bonus/a.mkv".to_string(),
        "Season 2/bonus/b.mkv".to_string(),
        "Season 2/bonus/c.mkv".to_string(),
        "Season 2/bonus/d.mkv".to_string(),
    ];

    let tree = FSTree::from_paths(paths);
    assert!(tree.is_ok());
    let tree = tree.unwrap();

    // Tree should have 2 children: Season 1, Season 2.
    let root = &tree.nodes[0];
    assert_eq!(root.name, "root".to_string());
    assert!(root.is_dir);
    assert_eq!(root.children.len(), 2);

    // Season 1 and 2 should exist
    let s1 = tree.find_child(0, &"Season 1".to_string());
    let s2 = tree.find_child(0, &"Season 2".to_string());
    assert!(s1.is_some());
    assert!(s2.is_some());

    // Season 1 should have 4 children
    let s1_id = s1.unwrap();
    let s1 = &tree.nodes[s1_id];
    assert_eq!(s1.path_id, 0);
    assert!(s1.is_dir);
    assert_eq!(s1.children.len(), 4);
    assert!(tree.find_child(s1_id, &"a.mkv".to_string()).is_some());
    assert!(tree.find_child(s1_id, &"b.mkv".to_string()).is_some());
    assert!(tree.find_child(s1_id, &"c.mkv".to_string()).is_some());
    assert!(tree.find_child(s1_id, &"d.mkv".to_string()).is_some());
    let s1_a = tree.find_child(s1_id, &"a.mkv".to_string()).unwrap();
    let s1_b = tree.find_child(s1_id, &"b.mkv".to_string()).unwrap();
    let s1_c = tree.find_child(s1_id, &"c.mkv".to_string()).unwrap();
    let s1_d = tree.find_child(s1_id, &"d.mkv".to_string()).unwrap();
    assert_eq!(tree.nodes[s1_a].path_id, 0);
    assert_eq!(tree.nodes[s1_b].path_id, 1);
    assert_eq!(tree.nodes[s1_c].path_id, 2);
    assert_eq!(tree.nodes[s1_d].path_id, 3);

    let s1_path_ids = collect_ids(&tree, s1_id);
    assert_eq!(
        s1_path_ids,
        vec![0, 1, 2, 3].into_iter().collect::<HashSet<usize>>()
    );

    // Season 2 should have 5 children
    let s2_id = s2.unwrap();
    let s2 = &tree.nodes[s2_id];
    assert_eq!(s2.path_id, 4);
    assert!(s2.is_dir);
    assert_eq!(s2.children.len(), 5);
    assert!(tree.find_child(s2_id, &"a.mkv".to_string()).is_some());
    assert!(tree.find_child(s2_id, &"b.mkv".to_string()).is_some());
    assert!(tree.find_child(s2_id, &"c.mkv".to_string()).is_some());
    assert!(tree.find_child(s2_id, &"d.mkv".to_string()).is_some());
    assert!(tree.find_child(s2_id, &"bonus".to_string()).is_some());
    let s2_a = tree.find_child(s2_id, &"a.mkv".to_string()).unwrap();
    let s2_b = tree.find_child(s2_id, &"b.mkv".to_string()).unwrap();
    let s2_c = tree.find_child(s2_id, &"c.mkv".to_string()).unwrap();
    let s2_d = tree.find_child(s2_id, &"d.mkv".to_string()).unwrap();
    assert_eq!(tree.nodes[s2_a].path_id, 4);
    assert_eq!(tree.nodes[s2_b].path_id, 5);
    assert_eq!(tree.nodes[s2_c].path_id, 6);
    assert_eq!(tree.nodes[s2_d].path_id, 7);

    let s2_path_ids = collect_ids(&tree, s2_id);
    assert_eq!(
        s2_path_ids,
        vec![4, 5, 6, 7, 8, 9, 10, 11]
            .into_iter()
            .collect::<HashSet<usize>>()
    );

    // Bonus should have 4 children
    let bonus_id = tree.find_child(s2_id, &"bonus".to_string()).unwrap();
    let bonus = &tree.nodes[bonus_id];
    assert_eq!(bonus.path_id, 8);
    assert!(bonus.is_dir);
    assert!(tree.find_child(bonus_id, &"a.mkv".to_string()).is_some());
    assert!(tree.find_child(bonus_id, &"b.mkv".to_string()).is_some());
    assert!(tree.find_child(bonus_id, &"c.mkv".to_string()).is_some());
    assert!(tree.find_child(bonus_id, &"d.mkv".to_string()).is_some());
    let bonus_a = tree.find_child(bonus_id, &"a.mkv".to_string()).unwrap();
    let bonus_b = tree.find_child(bonus_id, &"b.mkv".to_string()).unwrap();
    let bonus_c = tree.find_child(bonus_id, &"c.mkv".to_string()).unwrap();
    let bonus_d = tree.find_child(bonus_id, &"d.mkv".to_string()).unwrap();
    assert_eq!(tree.nodes[bonus_a].path_id, 8);
    assert_eq!(tree.nodes[bonus_b].path_id, 9);
    assert_eq!(tree.nodes[bonus_c].path_id, 10);
    assert_eq!(tree.nodes[bonus_d].path_id, 11);

    let bonus_path_ids = collect_ids(&tree, bonus_id);
    assert_eq!(
        bonus_path_ids,
        vec![8, 9, 10, 11].into_iter().collect::<HashSet<usize>>()
    );
}

#[test]
fn test_split_components_plain() {
    let comps = split_components("Season 1/a.mkv");
    assert_eq!(comps, vec!["Season 1".to_string(), "a.mkv".to_string()]);
}

#[test]
fn test_split_components_drops_empty() {
    let comps = split_components("a//b/");
    assert_eq!(comps, vec!["a".to_string(), "b".to_string()]);
    let comps = split_components("");
    assert!(comps.is_empty());
    let comps = split_components("///");
    assert!(comps.is_empty());
}

#[test]
fn test_from_paths_single_file() {
    let tree = FSTree::from_paths(vec!["video.mkv".to_string()]).unwrap();
    assert_eq!(tree.nodes.len(), 2);
    let leaf = tree.find_child(0, &"video.mkv".to_string()).unwrap();
    assert!(!tree.nodes[leaf].is_dir);
    assert_eq!(tree.nodes[leaf].path_id, 0);
}

#[test]
fn test_from_paths_one_leaf_per_path() {
    // every input path gets exactly one file node, and their path ids
    // are a permutation of the input indices
    let paths = vec![
        "a/x".to_string(),
        "a/y".to_string(),
        "b/x".to_string(),
        "c".to_string(),
    ];
    let n = paths.len();
    let tree = FSTree::from_paths(paths).unwrap();
    let leaf_ids: Vec<usize> = (0..tree.nodes.len())
        .skip(1)
        .filter(|&j| !tree.nodes[j].is_dir)
        .map(|j| tree.nodes[j].path_id)
        .collect();
    let as_set: HashSet<usize> = leaf_ids.iter().copied().collect();
    assert_eq!(leaf_ids.len(), n);
    assert_eq!(as_set, (0..n).collect::<HashSet<usize>>());
}

#[test]
fn test_path_ids_no_duplicates() {
    let paths = vec!["d/a".to_string(), "d/b".to_string(), "d/c".to_string()];
    let tree = FSTree::from_paths(paths).unwrap();
    let d = tree.find_child(0, &"d".to_string()).unwrap();
    let mut ids: Vec<usize> = Vec::new();
    tree.path_ids(d, &mut ids);
    let set: HashSet<usize> = ids.iter().copied().collect();
    assert_eq!(ids.len(), set.len());
    assert_eq!(set, vec![0, 1, 2].into_iter().collect::<HashSet<usize>>());
}

#[test]
fn test_add_child_dedup() {
    let mut tree = FSTree::new();
    let a = tree.add_child(0, "a".to_string(), true, 0);
    assert!(a.is_ok());
    let again = tree.add_child(0, "a".to_string(), true, 1);
    assert!(matches!(
        again,
        Err(torrenter::fs_tree::ErrAddChild::ChildExists(id)) if id == a.unwrap()
    ));
    let missing = tree.add_child(99, "b".to_string(), false, 0);
    assert!(matches!(
        missing,
        Err(torrenter::fs_tree::ErrAddChild::ParentNotFound)
    ));
}

#[test]
fn test_from_paths_empty() {
    let tree = FSTree::from_paths(Vec::new()).unwrap();
    assert_eq!(tree.nodes.len(), 1);
    assert_eq!(tree.nodes[0].name, "root");
    assert!(tree.nodes[0].children.is_empty());
}
