use visual_du::fs::{DiskUsageTree, FileKind, FsEntity, FsMetadata};

fn dir(path: &str, depth: u16) -> FsEntity {
    FsEntity {
        path: path.to_string(),
        metadata: FsMetadata { kind: FileKind::Dir, len: 4096 },
        depth,
    }
}

fn file(path: &str, len: u64, depth: u16) -> FsEntity {
    FsEntity { path: path.to_string(), metadata: FsMetadata { kind: FileKind::File, len }, depth }
}

fn symlink(path: &str, len: u64, depth: u16) -> FsEntity {
    FsEntity {
        path: path.to_string(),
        metadata: FsMetadata { kind: FileKind::Symlink, len },
        depth,
    }
}

fn aggregates(tree: &DiskUsageTree) -> Vec<u64> {
    tree.nodes().iter().map(|n| n.aggregate_size_bytes).collect()
}

/// Sum of the own sizes of `index` and everything below it, by walking the
/// parent links of every node.
fn subtree_sum(tree: &DiskUsageTree, index: usize) -> u64 {
    let nodes = tree.nodes();
    let mut sum: u64 = 0;
    for start in 0..nodes.len() {
        let mut cur = Some(start);
        while let Some(c) = cur {
            if c == index {
                sum += nodes[start].own_size_bytes;
                break;
            }
            cur = nodes[c].parent;
        }
    }
    sum
}

#[test]
fn new_tree_is_empty() {
    let tree = DiskUsageTree::new("/scan".to_string());
    assert_eq!(tree.len(), 0);
    assert_eq!(tree.root_path(), "/scan");
    assert_eq!(tree.total_bytes(), 0);
    assert!(tree.node(0).is_none());
    assert!(tree.find(&String::new()).is_none());
}

#[test]
fn root_is_registered_under_the_empty_key() {
    let mut tree = DiskUsageTree::new("/scan".to_string());
    let delta = tree.register(&dir("/scan", 0)).unwrap();
    assert_eq!(delta.node, 0);
    assert_eq!(delta.added_bytes, 0);
    assert!(delta.changed.is_empty());
    let root = tree.node(0).unwrap();
    assert_eq!(root.key, "");
    assert_eq!(root.parent, None);
    assert_eq!(root.own_size_bytes, 0);
    assert_eq!(root.aggregate_size_bytes, 0);
    assert!(root.is_dir);
    assert_eq!(root.depth, 0);
    assert!(root.children.is_empty());
    assert_eq!(tree.find(&String::new()), Some(0));
}

#[test]
fn sizes_reach_every_ancestor() {
    let mut tree = DiskUsageTree::new("/scan".to_string());
    tree.register(&dir("/scan", 0)).unwrap();
    tree.register(&dir("/scan/a", 1)).unwrap();
    tree.register(&file("/scan/b.txt", 700, 1)).unwrap();
    tree.register(&dir("/scan/a/deep", 2)).unwrap();
    assert_eq!(aggregates(&tree), vec![700, 0, 700, 0]);
    let delta = tree.register(&file("/scan/a/deep/x.bin", 300, 3)).unwrap();
    assert_eq!(delta.node, 4);
    assert_eq!(delta.added_bytes, 300);
    // the parent first, then its parent, then the root
    assert_eq!(delta.changed, vec![3, 1, 0]);
    assert_eq!(aggregates(&tree), vec![1000, 300, 700, 300, 300]);
    assert_eq!(tree.total_bytes(), 1000);

    let added = tree.node(4).unwrap();
    assert_eq!(added.key, "a/deep/x.bin");
    assert_eq!(added.parent, Some(3));
    assert_eq!(added.sibling_index, 0);
    assert_eq!(added.own_size_bytes, 300);
    assert!(!added.is_dir);
    assert_eq!(added.depth, 3);
    assert_eq!(tree.node(0).unwrap().children, vec![1, 2]);
    assert_eq!(tree.node(1).unwrap().children, vec![3]);
    assert_eq!(tree.node(2).unwrap().sibling_index, 1);
    assert_eq!(tree.find(&"a/deep".to_string()), Some(3));
    assert_eq!(tree.find(&"a/missing".to_string()), None);
}

#[test]
fn aggregate_is_the_sum_of_the_subtree_after_every_registration() {
    let entries = vec![
        dir("/r", 0),
        file("/r/one", 5, 1),
        dir("/r/d", 1),
        dir("/r/e", 1),
        file("/r/d/two", 11, 2),
        symlink("/r/d/link", 99, 2),
        dir("/r/e/f", 2),
        file("/r/e/three", 0, 2),
        file("/r/e/f/four", 1_000_000, 3),
        file("/r/d/five", 7, 2),
    ];
    let mut tree = DiskUsageTree::new("/r".to_string());
    let mut previous: Vec<u64> = Vec::new();
    for entry in entries.iter() {
        tree.register(entry).unwrap();
        let now = aggregates(&tree);
        for index in 0..tree.len() {
            assert_eq!(now[index], subtree_sum(&tree, index));
        }
        // no aggregate ever shrinks
        for index in 0..previous.len() {
            assert!(now[index] >= previous[index]);
        }
        previous = now;
    }
    assert_eq!(aggregates(&tree), vec![1_000_023, 5, 18, 1_000_000, 11, 0, 1_000_000, 0, 1_000_000, 7]);
}

#[test]
fn only_files_contribute_their_length() {
    let mut tree = DiskUsageTree::new("/r".to_string());
    tree.register(&dir("/r", 0)).unwrap();
    tree.register(&symlink("/r/link", 64, 1)).unwrap();
    tree.register(&dir("/r/sub", 1)).unwrap();
    assert_eq!(aggregates(&tree), vec![0, 0, 0]);
    assert_eq!(tree.node(1).unwrap().own_size_bytes, 0);
    assert_eq!(tree.node(2).unwrap().own_size_bytes, 0);
}

#[test]
fn zero_bytes_change_nothing_above() {
    let mut tree = DiskUsageTree::new("/r".to_string());
    tree.register(&dir("/r", 0)).unwrap();
    tree.register(&file("/r/full", 10, 1)).unwrap();
    let before = aggregates(&tree);
    let delta = tree.register(&file("/r/empty", 0, 1)).unwrap();
    assert_eq!(delta.added_bytes, 0);
    assert!(delta.changed.is_empty());
    assert_eq!(aggregates(&tree)[..2], before[..]);
    assert_eq!(tree.node(0).unwrap().children, vec![1, 2]);
}

#[test]
fn orphan_is_refused_and_the_tree_stays() {
    let mut tree = DiskUsageTree::new("/r".to_string());
    tree.register(&dir("/r", 0)).unwrap();
    tree.register(&file("/r/a", 3, 1)).unwrap();
    let error = tree.register(&file("/r/missing/b", 9, 2)).unwrap_err();
    assert_eq!(error.key, "missing/b");
    assert_eq!(tree.len(), 2);
    assert_eq!(aggregates(&tree), vec![3, 3]);
    assert_eq!(tree.node(0).unwrap().children, vec![1]);
    // once the parent is there, the same entry is accepted
    tree.register(&dir("/r/missing", 1)).unwrap();
    let delta = tree.register(&file("/r/missing/b", 9, 2)).unwrap();
    assert_eq!(delta.changed, vec![2, 0]);
    assert_eq!(aggregates(&tree), vec![12, 3, 9, 9]);
}

#[test]
fn first_entry_below_the_root_is_an_orphan_in_an_empty_tree() {
    let mut tree = DiskUsageTree::new("/r".to_string());
    let error = tree.register(&file("/r/a", 3, 1)).unwrap_err();
    assert_eq!(error.key, "a");
    assert_eq!(tree.len(), 0);
}

#[test]
fn root_may_be_the_file_system_root() {
    let mut tree = DiskUsageTree::new("/".to_string());
    tree.register(&dir("/", 0)).unwrap();
    tree.register(&dir("/etc", 1)).unwrap();
    tree.register(&file("/etc/hosts", 42, 2)).unwrap();
    assert_eq!(tree.node(1).unwrap().key, "etc");
    assert_eq!(tree.node(2).unwrap().key, "etc/hosts");
    assert_eq!(aggregates(&tree), vec![42, 42, 42]);
}

#[test]
fn total_may_reach_the_largest_size() {
    let mut tree = DiskUsageTree::new("/r".to_string());
    tree.register(&dir("/r", 0)).unwrap();
    tree.register(&file("/r/a", u64::MAX - 1, 1)).unwrap();
    tree.register(&file("/r/b", 1, 1)).unwrap();
    assert_eq!(tree.total_bytes(), u64::MAX);
}

#[test]
fn nodes_are_found_by_their_keys() {
    let mut tree = DiskUsageTree::new("/r".to_string());
    tree.register(&dir("/r", 0)).unwrap();
    tree.register(&dir("/r/a", 1)).unwrap();
    tree.register(&file("/r/a/x", 4, 2)).unwrap();
    tree.register(&file("/r/a/y", 6, 2)).unwrap();
    let a = tree.get(&"a".to_string()).unwrap();
    assert_eq!(a.aggregate_size_bytes, 10);
    assert_eq!(a.own_size_bytes, 0);
    assert!(tree.get(&"b".to_string()).is_none());
    assert_eq!(tree.parent_key(0), None);
    assert_eq!(tree.parent_key(1), Some(&String::new()));
    assert_eq!(tree.parent_key(3), Some(&"a".to_string()));
    assert_eq!(tree.parent_key(4), None);
    assert_eq!(tree.children_keys(0), vec![&"a".to_string()]);
    assert_eq!(tree.children_keys(1), vec![&"a/x".to_string(), &"a/y".to_string()]);
    assert!(tree.children_keys(2).is_empty());
    assert!(tree.children_keys(9).is_empty());
}
