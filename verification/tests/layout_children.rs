use visual_du::ui::layout::{layout_children, ChildSpan, Frame};

fn frame(parent_bytes: u64, parent_width: u32, min_visible_width: u32, gap_width: u32) -> Frame {
    Frame { parent_bytes, parent_width, min_visible_width, gap_width }
}

fn widths_plus_gaps(spans: &Vec<ChildSpan>, gaps: usize, gap_width: u32) -> u64 {
    let mut total: u64 = 0;
    for span in spans.iter() {
        total += span.width as u64;
    }
    total + (gaps as u64) * (gap_width as u64)
}

#[test]
fn two_files_share_the_width_without_drift() {
    let out = layout_children(&vec![300, 700], frame(1000, 100, 1, 1));
    assert_eq!(out.visible.len(), 2);
    assert!(out.hidden.is_empty());
    assert!(!out.hidden_group);
    assert_eq!(out.number_of_gaps, 1);
    assert_eq!(out.available_width, 99);
    // 300/1000 of 99 is 29.7 and 700/1000 of 99 is 69.3: rounded down to 29
    // and 69, the left-over unit goes to the last child.
    assert_eq!(out.visible[0], ChildSpan { index: 0, offset: 0, width: 29 });
    assert_eq!(out.visible[1], ChildSpan { index: 1, offset: 30, width: 70 });
    assert_eq!(widths_plus_gaps(&out.visible, out.number_of_gaps, 1), 100);
}

#[test]
fn fifty_tiny_files_are_hidden_and_grouped() {
    let sizes: Vec<u64> = vec![1; 50];
    let out = layout_children(&sizes, frame(50, 40, 1, 1));
    assert!(out.visible.is_empty());
    assert_eq!(out.hidden.len(), 50);
    assert_eq!(out.hidden[0], 0);
    assert_eq!(out.hidden[49], 49);
    assert_eq!(out.hidden_bytes, 50);
    // together they are 40 units wide, more than the threshold of 2
    assert!(out.hidden_group);
    assert_eq!(out.number_of_gaps, 0);
    assert_eq!(out.available_width, 40);
}

#[test]
fn empty_parent_gives_its_child_no_width() {
    let out = layout_children(&vec![0], frame(0, 100, 1, 1));
    assert!(out.visible.is_empty());
    assert_eq!(out.hidden, vec![0]);
    assert_eq!(out.hidden_bytes, 0);
    assert!(!out.hidden_group);
    assert_eq!(out.number_of_gaps, 0);
    assert_eq!(out.available_width, 100);
}

#[test]
fn no_children_leave_the_width_untouched() {
    let out = layout_children(&Vec::new(), frame(10, 100, 1, 1));
    assert!(out.visible.is_empty());
    assert!(out.hidden.is_empty());
    assert!(!out.hidden_group);
    assert_eq!(out.number_of_gaps, 0);
    assert_eq!(out.available_width, 100);
}

#[test]
fn threshold_is_min_width_plus_gap() {
    // exact widths 1, 2 and 97 of 100: the threshold is 1 + 1 = 2
    let out = layout_children(&vec![1, 2, 97], frame(100, 100, 1, 1));
    assert_eq!(out.hidden, vec![0]);
    assert_eq!(out.visible.len(), 2);
    assert_eq!(out.visible[0].index, 1);
    assert_eq!(out.visible[1].index, 2);
    // one hidden unit does not exceed the threshold
    assert!(!out.hidden_group);
    assert_eq!(out.number_of_gaps, 1);
    assert_eq!(out.available_width, 99);
    // 2/100 of 99 is 1.98 and 97/100 of 99 is 96.03; the left-over of
    // 0.98 + 0.03 holds one whole unit, which the last child takes
    assert_eq!(out.visible[0], ChildSpan { index: 1, offset: 0, width: 1 });
    assert_eq!(out.visible[1], ChildSpan { index: 2, offset: 2, width: 97 });
}

#[test]
fn threshold_counts_the_gap() {
    // exact width 3 of 100 with min 2 and gap 2: below the threshold of 4
    let out = layout_children(&vec![3, 97], frame(100, 100, 2, 2));
    assert_eq!(out.hidden, vec![0]);
    assert_eq!(out.visible.len(), 1);
    let out = layout_children(&vec![4, 96], frame(100, 100, 2, 2));
    assert!(out.hidden.is_empty());
    assert_eq!(out.visible.len(), 2);
}

#[test]
fn hidden_group_needs_more_than_the_threshold() {
    // hidden children are 1 + 1 = 2 units wide, which is the threshold itself
    let out = layout_children(&vec![1, 1, 98], frame(100, 100, 1, 1));
    assert_eq!(out.hidden, vec![0, 1]);
    assert!(!out.hidden_group);
    assert_eq!(out.number_of_gaps, 0);
    // three hidden units exceed it, and the group takes a slot
    let out = layout_children(&vec![1, 1, 1, 97], frame(100, 100, 1, 1));
    assert_eq!(out.hidden, vec![0, 1, 2]);
    assert!(out.hidden_group);
    assert_eq!(out.number_of_gaps, 1);
    assert_eq!(out.available_width, 99);
    assert_eq!(out.visible[0], ChildSpan { index: 3, offset: 0, width: 96 });
}

#[test]
fn shown_children_keep_sibling_order_between_hidden_ones() {
    let out = layout_children(&vec![400, 1, 300, 1, 298], frame(1000, 1000, 1, 1));
    assert_eq!(out.hidden, vec![1, 3]);
    let shown: Vec<usize> = out.visible.iter().map(|s| s.index).collect();
    assert_eq!(shown, vec![0, 2, 4]);
    assert_eq!(out.number_of_gaps, 2);
    assert_eq!(out.available_width, 998);
    // 399.2, 299.4 and 297.404 of 998
    assert_eq!(out.visible[0], ChildSpan { index: 0, offset: 0, width: 399 });
    assert_eq!(out.visible[1], ChildSpan { index: 2, offset: 400, width: 299 });
    // the left-over is 200 + 400 + 404 = 1004 thousandths: one whole unit
    assert_eq!(out.visible[2], ChildSpan { index: 4, offset: 700, width: 298 });
}

#[test]
fn widths_and_gaps_fill_the_parent_when_all_bytes_are_shown() {
    let cases: Vec<(Vec<u64>, u32)> = vec![
        (vec![1, 1, 1], 100),
        (vec![7, 11, 13, 17], 97),
        (vec![1000, 1], 4001),
        (vec![5], 9),
        (vec![123456789, 987654321, 555555555], 1920),
    ];
    for (sizes, width) in cases {
        let total: u64 = sizes.iter().sum();
        let out = layout_children(&sizes, frame(total, width, 1, 1));
        assert_eq!(out.visible.len(), sizes.len());
        assert_eq!(widths_plus_gaps(&out.visible, out.number_of_gaps, 1), width as u64);
        let last = out.visible[out.visible.len() - 1];
        assert_eq!(last.offset + last.width, width);
    }
}

#[test]
fn widths_never_exceed_the_parent() {
    // the parent holds 100 bytes of its own, so the children cover half of it
    let out = layout_children(&vec![50, 50], frame(200, 101, 1, 1));
    assert_eq!(out.number_of_gaps, 1);
    assert_eq!(out.available_width, 100);
    assert_eq!(out.visible[0], ChildSpan { index: 0, offset: 0, width: 25 });
    assert_eq!(out.visible[1], ChildSpan { index: 1, offset: 26, width: 25 });
    assert!(widths_plus_gaps(&out.visible, out.number_of_gaps, 1) <= 101);
}

#[test]
fn zero_threshold_shows_every_child_of_a_sized_parent() {
    let out = layout_children(&vec![0, 10], frame(10, 7, 0, 0));
    assert!(out.hidden.is_empty());
    assert_eq!(out.visible[0], ChildSpan { index: 0, offset: 0, width: 0 });
    assert_eq!(out.visible[1], ChildSpan { index: 1, offset: 0, width: 7 });
}

#[test]
fn is_shown_compares_exact_widths() {
    let f = frame(3, 10, 2, 1);
    // 1/3 of 10 is 3.33, which reaches 3
    assert!(f.is_shown(1));
    let f = frame(4, 10, 2, 1);
    // 1/4 of 10 is 2.5, which does not
    assert!(!f.is_shown(1));
    assert!(f.is_shown(2));
    assert!(!frame(0, 10, 0, 0).is_shown(0));
}

#[test]
fn is_grouped_is_strict() {
    let f = frame(100, 100, 1, 1);
    assert!(!f.is_grouped(2));
    assert!(f.is_grouped(3));
    assert!(!frame(0, 100, 1, 1).is_grouped(0));
}

#[test]
fn large_numbers_do_not_overflow() {
    let big = u64::MAX / 2;
    let out = layout_children(&vec![big, big], frame(u64::MAX, u32::MAX, u32::MAX / 4, 1));
    assert_eq!(out.visible.len(), 2);
    assert_eq!(out.number_of_gaps, 1);
    assert_eq!(out.available_width, u32::MAX - 1);
    let total = widths_plus_gaps(&out.visible, out.number_of_gaps, 1);
    assert!(total <= u32::MAX as u64);
    assert!(total >= u32::MAX as u64 - 2);
}
