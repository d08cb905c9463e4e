use visual_du::ui::tree_view_theme::{DescendentColorRange, HUE_SCALE};

#[test]
fn default_band_is_the_whole_circle() {
    let band = DescendentColorRange::default();
    assert_eq!(band.start(), 0);
    assert_eq!(band.end(), HUE_SCALE);
    assert_eq!(band.len(), HUE_SCALE);
    let full = DescendentColorRange::full();
    assert_eq!(full, band);
}

#[test]
fn new_accepts_only_bands_inside_the_circle() {
    assert!(DescendentColorRange::new(0, 0).is_some());
    assert!(DescendentColorRange::new(10, 20).is_some());
    assert!(DescendentColorRange::new(0, HUE_SCALE).is_some());
    assert!(DescendentColorRange::new(20, 10).is_none());
    assert!(DescendentColorRange::new(0, HUE_SCALE + 1).is_none());
    let band = DescendentColorRange::new(10, 20).unwrap();
    assert_eq!(band.start(), 10);
    assert_eq!(band.end(), 20);
    assert_eq!(band.len(), 10);
}

#[test]
fn sub_range_cuts_in_proportion() {
    let band = DescendentColorRange::new(1000, 2000).unwrap();
    let child = band.sub_range(30, 70, 100);
    assert_eq!(child.start(), 1300);
    assert_eq!(child.end(), 2000);
    let child = band.sub_range(0, 29, 100);
    assert_eq!(child.start(), 1000);
    assert_eq!(child.end(), 1290);
    let child = band.sub_range(1, 1, 3);
    // a third of 1000 is 333.3
    assert_eq!(child.start(), 1333);
    assert_eq!(child.end(), 1666);
}

#[test]
fn sub_range_of_an_empty_span_is_empty() {
    let band = DescendentColorRange::new(5, 50).unwrap();
    let child = band.sub_range(0, 0, 0);
    assert_eq!(child.start(), 5);
    assert_eq!(child.end(), 5);
}

#[test]
fn sub_range_stays_inside_its_parent() {
    let parent = DescendentColorRange::new(123, 4567).unwrap();
    let spans: Vec<(u64, u64, u64)> = vec![
        (0, 0, 1),
        (0, 1, 1),
        (1, 0, 1),
        (3, 4, 7),
        (50, 51, 101),
        (u64::MAX - 1, 1, u64::MAX),
        (0, u64::MAX, u64::MAX),
    ];
    for (offset, width, span) in spans {
        let child = parent.sub_range(offset, width, span);
        assert!(parent.start() <= child.start());
        assert!(child.start() <= child.end());
        assert!(child.end() <= parent.end());
        let grandchild = child.sub_range(offset, width, span);
        assert!(child.start() <= grandchild.start());
        assert!(grandchild.end() <= child.end());
        assert!(parent.start() <= grandchild.start());
        assert!(grandchild.end() <= parent.end());
    }
}

#[test]
fn hue_at_walks_through_the_band_and_wraps() {
    let band = DescendentColorRange::new(100, 300).unwrap();
    assert_eq!(band.hue_at(0, 1), 100);
    assert_eq!(band.hue_at(1, 2), 200);
    assert_eq!(band.hue_at(1, 1), 300);
    assert_eq!(band.hue_at(0, 0), 100);
    let full = DescendentColorRange::full();
    assert_eq!(full.hue_at(0, 1), 0);
    assert_eq!(full.hue_at(1, 4), HUE_SCALE / 4);
    // the end of the circle is its start
    assert_eq!(full.hue_at(1, 1), 0);
}

#[test]
fn get_color_follows_the_rainbow() {
    let full = DescendentColorRange::full();
    let start = full.get_color(0, 1);
    let end = full.get_color(1, 1);
    // the gradient is cyclic: the end of the circle has the colour of its start
    assert_eq!(start, end);
    let middle = full.get_color(1, 2);
    let sampled = colorous::RAINBOW.eval_rational((HUE_SCALE / 2) as usize, HUE_SCALE as usize);
    assert_eq!((middle.r, middle.g, middle.b), (sampled.r, sampled.g, sampled.b));
    assert_ne!(start, middle);
    let third = DescendentColorRange::new(0, HUE_SCALE / 3).unwrap();
    assert_eq!(third.get_color(0, 1), start);
    assert_ne!(third.get_color(1, 1), start);
}
