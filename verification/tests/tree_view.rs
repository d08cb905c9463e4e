use visual_du::fs::{DiskUsageTree, FileKind, FsEntity, FsMetadata};
use visual_du::ui::tree_view::{layout_tree, DiskUsageTreeOptions, LayoutNode};
use visual_du::ui::tree_view_theme::HUE_SCALE;

fn dir(path: &str, depth: u16) -> FsEntity {
    FsEntity {
        path: path.to_string(),
        metadata: FsMetadata { kind: FileKind::Dir, len: 4096 },
        depth,
    }
}

fn file(path: &str, len: u64, depth: u16) -> FsEntity {
    FsEntity { path: path.to_string(), metadata: FsMetadata { kind: FileKind::File, len }, depth }
}

fn tree_of(entries: Vec<FsEntity>) -> DiskUsageTree {
    let mut tree = DiskUsageTree::new("/r".to_string());
    for entry in entries.iter() {
        tree.register(entry).unwrap();
    }
    tree
}

fn place(node: &LayoutNode) -> (bool, u32, u32, u32) {
    (node.visible, node.offset, node.width, node.span)
}

fn band(node: &LayoutNode) -> Option<(u32, u32)> {
    node.color_range.map(|r| (r.start(), r.end()))
}

const HIDDEN: (bool, u32, u32, u32) = (false, 0, 0, 0);

#[test]
fn default_options() {
    let options = DiskUsageTreeOptions::default();
    assert_eq!(options.max_depth, 6);
    assert_eq!(options.min_visible_width, 1);
    assert_eq!(options.gap_width, 1);
}

#[test]
fn empty_tree_has_an_empty_layout() {
    let tree = DiskUsageTree::new("/r".to_string());
    let out = layout_tree(&tree, 100, DiskUsageTreeOptions::default());
    assert!(out.nodes.is_empty());
    assert!(out.hidden_groups.is_empty());
}

#[test]
fn root_with_two_files() {
    let tree = tree_of(vec![dir("/r", 0), file("/r/a", 300, 1), file("/r/b", 700, 1)]);
    let out = layout_tree(&tree, 100, DiskUsageTreeOptions::default()).nodes;
    assert_eq!(out.len(), 3);
    assert_eq!(place(&out[0]), (true, 0, 100, 100));
    assert_eq!(band(&out[0]), Some((0, HUE_SCALE)));
    assert_eq!(place(&out[1]), (true, 0, 29, 100));
    assert_eq!(place(&out[2]), (true, 30, 70, 100));
    // files carry no band
    assert_eq!(band(&out[1]), None);
    assert_eq!(band(&out[2]), None);
    assert_eq!(out[1].width + 1 + out[2].width, 100);
}

#[test]
fn empty_directory_lays_out_nothing_below() {
    let tree = tree_of(vec![dir("/r", 0)]);
    let out = layout_tree(&tree, 640, DiskUsageTreeOptions::default()).nodes;
    assert_eq!(out.len(), 1);
    assert_eq!(place(&out[0]), (true, 0, 640, 640));
}

#[test]
fn children_of_a_directory_without_bytes_are_hidden() {
    let tree = tree_of(vec![dir("/r", 0), file("/r/empty", 0, 1), dir("/r/d", 1)]);
    let out = layout_tree(&tree, 640, DiskUsageTreeOptions::default()).nodes;
    assert_eq!(place(&out[0]), (true, 0, 640, 640));
    assert_eq!(place(&out[1]), HIDDEN);
    assert_eq!(place(&out[2]), HIDDEN);
    assert_eq!(band(&out[2]), None);
}

#[test]
fn directories_divide_their_band_among_child_directories() {
    let tree = tree_of(vec![
        dir("/r", 0),
        dir("/r/a", 1),
        dir("/r/b", 1),
        file("/r/a/x", 250, 2),
        file("/r/b/y", 500, 2),
        dir("/r/b/c", 2),
        file("/r/b/c/z", 250, 3),
    ]);
    let out = layout_tree(&tree, 1000, DiskUsageTreeOptions::default()).nodes;
    // a holds 250 of 1000 bytes, b holds 750; one gap leaves 999 units
    assert_eq!(place(&out[1]), (true, 0, 249, 1000));
    assert_eq!(place(&out[2]), (true, 250, 750, 1000));
    // bands follow offset and width inside the parent's span of 1000
    let scale = HUE_SCALE as u64;
    let a_start = 0;
    let a_end = (scale * 249 / 1000) as u32;
    let b_start = (scale * 250 / 1000) as u32;
    let b_end = b_start + (scale * 750 / 1000) as u32;
    assert_eq!(band(&out[1]), Some((a_start, a_end)));
    assert_eq!(band(&out[2]), Some((b_start, b_end)));
    // x is the only child of a and fills it
    assert_eq!(place(&out[3]), (true, 0, 249, 249));
    // b's children: y holds 500 of 750, c holds 250; 749 units after the gap
    assert_eq!(place(&out[4]), (true, 0, 499, 750));
    assert_eq!(place(&out[5]), (true, 500, 250, 750));
    assert_eq!(band(&out[4]), None);
    let b_len = (b_end - b_start) as u64;
    let c_start = b_start + (b_len * 500 / 750) as u32;
    let c_end = c_start + (b_len * 250 / 750) as u32;
    assert_eq!(band(&out[5]), Some((c_start, c_end)));
    assert_eq!(place(&out[6]), (true, 0, 250, 250));
}

#[test]
fn bands_nest_at_every_level() {
    let tree = tree_of(vec![
        dir("/r", 0),
        dir("/r/a", 1),
        dir("/r/b", 1),
        dir("/r/a/c", 2),
        dir("/r/a/d", 2),
        dir("/r/b/e", 2),
        file("/r/a/c/1", 1234, 3),
        file("/r/a/d/2", 4321, 3),
        dir("/r/b/e/f", 3),
        file("/r/b/e/f/3", 777, 4),
        file("/r/b/e/4", 999, 3),
    ]);
    let out = layout_tree(&tree, 1913, DiskUsageTreeOptions::default()).nodes;
    let mut checked = 0;
    for index in 1..tree.len() {
        if let Some((start, end)) = band(&out[index]) {
            let parent = tree.node(index).unwrap().parent.unwrap();
            let (parent_start, parent_end) = band(&out[parent]).unwrap();
            assert!(parent_start <= start);
            assert!(start <= end);
            assert!(end <= parent_end);
            checked += 1;
        }
    }
    assert_eq!(checked, 6);
}

#[test]
fn everything_below_a_hidden_directory_is_hidden() {
    let tree = tree_of(vec![
        dir("/r", 0),
        dir("/r/small", 1),
        file("/r/big", 100_000, 1),
        dir("/r/small/inner", 2),
        file("/r/small/inner/x", 1, 3),
    ]);
    let out = layout_tree(&tree, 100, DiskUsageTreeOptions::default()).nodes;
    assert_eq!(place(&out[0]), (true, 0, 100, 100));
    assert_eq!(place(&out[1]), HIDDEN);
    assert_eq!(place(&out[2]), (true, 0, 99, 100));
    assert_eq!(place(&out[3]), HIDDEN);
    assert_eq!(place(&out[4]), HIDDEN);
    assert_eq!(band(&out[1]), None);
    assert_eq!(band(&out[3]), None);
}

#[test]
fn node_at_the_maximum_depth_is_shown_but_not_expanded() {
    let tree = tree_of(vec![
        dir("/r", 0),
        dir("/r/a", 1),
        dir("/r/a/b", 2),
        file("/r/a/b/x", 10, 3),
    ]);
    let options = DiskUsageTreeOptions { max_depth: 2, min_visible_width: 1, gap_width: 1 };
    let out = layout_tree(&tree, 100, options).nodes;
    assert_eq!(place(&out[1]), (true, 0, 100, 100));
    assert_eq!(place(&out[2]), (true, 0, 100, 100));
    assert!(band(&out[2]).is_some());
    assert_eq!(place(&out[3]), HIDDEN);
    let options = DiskUsageTreeOptions { max_depth: 3, min_visible_width: 1, gap_width: 1 };
    let out = layout_tree(&tree, 100, options).nodes;
    assert_eq!(place(&out[3]), (true, 0, 100, 100));
    let options = DiskUsageTreeOptions { max_depth: 0, min_visible_width: 1, gap_width: 1 };
    let out = layout_tree(&tree, 100, options).nodes;
    assert_eq!(place(&out[0]), (true, 0, 100, 100));
    assert_eq!(place(&out[1]), HIDDEN);
}

#[test]
fn visibility_follows_the_threshold_at_every_level() {
    let tree = tree_of(vec![
        dir("/r", 0),
        file("/r/one", 1, 1),
        file("/r/two", 2, 1),
        dir("/r/d", 1),
        file("/r/d/three", 3, 2),
        file("/r/d/rest", 94, 2),
    ]);
    let options = DiskUsageTreeOptions { max_depth: 6, min_visible_width: 1, gap_width: 1 };
    let out = layout_tree(&tree, 100, options).nodes;
    // exact widths under the root: 1, 2 and 97
    assert!(!out[1].visible);
    assert!(out[2].visible);
    assert!(out[3].visible);
    // d is 97 units wide: 96.03 of the 99 that the gap leaves, and the whole
    // left-over unit
    assert_eq!(place(&out[2]), (true, 0, 1, 100));
    assert_eq!(place(&out[3]), (true, 2, 97, 100));
    // under d, three has 3/97 of 97 units, which reaches the threshold of 2
    assert!(out[4].visible);
    assert!(out[5].visible);
    assert_eq!(out[4].span, 97);
    assert_eq!(out[4].width + 1 + out[5].width, 97);
}

#[test]
fn file_as_root_has_no_band() {
    let mut tree = DiskUsageTree::new("/r".to_string());
    tree.register(&file("/r", 10, 0)).unwrap();
    let out = layout_tree(&tree, 50, DiskUsageTreeOptions::default()).nodes;
    assert_eq!(place(&out[0]), (true, 0, 50, 50));
    assert_eq!(band(&out[0]), None);
}

#[test]
fn layout_follows_the_tree_as_it_grows() {
    let mut tree = DiskUsageTree::new("/r".to_string());
    tree.register(&dir("/r", 0)).unwrap();
    tree.register(&file("/r/a", 10, 1)).unwrap();
    let out = layout_tree(&tree, 100, DiskUsageTreeOptions::default()).nodes;
    assert_eq!(place(&out[1]), (true, 0, 100, 100));
    tree.register(&file("/r/b", 30, 1)).unwrap();
    let out = layout_tree(&tree, 100, DiskUsageTreeOptions::default()).nodes;
    assert_eq!(place(&out[1]), (true, 0, 24, 100));
    assert_eq!(place(&out[2]), (true, 25, 75, 100));
}

#[test]
fn hidden_children_are_signalled_as_a_group_where_they_are_wide_enough() {
    let mut entries = vec![dir("/r", 0), dir("/r/many", 1), file("/r/big", 50, 1)];
    for i in 0..50 {
        entries.push(file(&format!("/r/many/f{:02}", i), 1, 2));
    }
    let tree = tree_of(entries);
    let out = layout_tree(&tree, 81, DiskUsageTreeOptions::default());
    // both children of the root hold half of it: 40 units each beside one gap
    assert_eq!(place(&out.nodes[1]), (true, 0, 40, 81));
    assert_eq!(place(&out.nodes[2]), (true, 41, 40, 81));
    // each of the fifty files would be 0.8 units wide
    for index in 3..53 {
        assert_eq!(place(&out.nodes[index]), HIDDEN);
    }
    assert_eq!(out.hidden_groups.len(), 53);
    assert!(!out.hidden_groups[0]);
    assert!(out.hidden_groups[1]);
    // a file has no children to group
    assert!(!out.hidden_groups[2]);
    assert!(!out.hidden_groups[3]);
}

#[test]
fn few_hidden_bytes_are_no_group() {
    let tree = tree_of(vec![dir("/r", 0), file("/r/a", 1, 1), file("/r/b", 99, 1)]);
    let out = layout_tree(&tree, 100, DiskUsageTreeOptions::default());
    assert!(!out.nodes[1].visible);
    assert!(!out.hidden_groups[0]);
    assert_eq!(place(&out.nodes[2]), (true, 0, 99, 100));
}
