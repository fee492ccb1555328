use cargo_tree_tui::viewport::{Area, ScrollbarGeometry, Viewport};

fn area(height: u16) -> Area {
    Area {
        x: 0,
        y: 0,
        width: 80,
        height,
    }
}

#[test]
fn new_viewport_is_at_the_top() {
    let v = Viewport::new(area(10), area(8));
    assert_eq!(v.height, 8);
    assert_eq!(v.offset, 0);
    assert_eq!(v.max_offset, 0);
    assert_eq!(v.area, area(10));
    assert_eq!(v.inner, area(8));
}

#[test]
fn centering_follows_the_formula() {
    // height 5: half, rounded up, is 3
    let v = Viewport::new(area(5), area(5)).center_on(8, 20, 0);
    assert_eq!((v.offset, v.max_offset, v.height), (5, 15, 5));
    // height 4: half is 2
    let v = Viewport::new(area(4), area(4)).center_on(8, 20, 0);
    assert_eq!((v.offset, v.max_offset), (6, 16));
    // near the top the offset stays 0
    let v = Viewport::new(area(5), area(5)).center_on(2, 20, 0);
    assert_eq!((v.offset, v.max_offset), (0, 15));
    // near the end the offset stops at the largest offset
    let v = Viewport::new(area(5), area(5)).center_on(20, 20, 0);
    assert_eq!((v.offset, v.max_offset), (15, 15));
    // everything fits
    let v = Viewport::new(area(30), area(30)).center_on(20, 20, 0);
    assert_eq!((v.offset, v.max_offset), (0, 0));
}

#[test]
fn offset_never_exceeds_largest_offset() {
    for height in 0u16..8 {
        for total in 0usize..12 {
            for focus in 0usize..14 {
                let v = Viewport::new(area(height), area(height)).center_on(focus, total, 0);
                assert!(v.offset <= v.max_offset);
                assert_eq!(v.max_offset, total.saturating_sub(height as usize));
            }
        }
    }
}

#[test]
fn reserved_lines_lower_the_height() {
    let v = Viewport::new(area(6), area(6)).center_on(10, 20, 2);
    assert_eq!((v.height, v.offset, v.max_offset), (4, 8, 16));
    let v = Viewport::new(area(2), area(2)).center_on(10, 20, 5);
    assert_eq!((v.height, v.offset, v.max_offset), (0, 10, 20));
}

#[test]
fn clamping_only_acts_at_the_largest_offset() {
    let mut v = Viewport::new(area(5), area(5)).center_on(20, 20, 0);
    assert_eq!(v.offset, 15);
    v.clamp_offset(12, 1);
    assert_eq!(v.offset, 8);
    assert_eq!(v.max_offset, 15);

    let mut v = Viewport::new(area(5), area(5)).center_on(8, 20, 0);
    v.clamp_offset(6, 0);
    assert_eq!(v.offset, 5);
}

#[test]
fn scrollbar_geometry() {
    let v = Viewport::new(area(5), area(5)).center_on(8, 20, 0);
    assert_eq!(
        v.scrollbar(20),
        Some(ScrollbarGeometry {
            content_length: 15,
            position: 5,
            viewport_length: 5
        })
    );
    let fits = Viewport::new(area(30), area(30)).center_on(8, 20, 0);
    assert_eq!(fits.scrollbar(20), None);
    let flat = Viewport::new(area(0), area(0)).center_on(8, 20, 0);
    assert_eq!(flat.scrollbar(20), None);
}
