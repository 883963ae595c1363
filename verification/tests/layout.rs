use rsheet::layout::{centered_rect, modal_cursor, Area};

#[test]
fn overlay_is_centered() {
    let r = Area { x: 0, y: 0, width: 100, height: 50 };
    assert_eq!(centered_rect(60, 20, r), Area { x: 20, y: 20, width: 60, height: 10 });
    let r = Area { x: 10, y: 5, width: 80, height: 24 };
    let c = centered_rect(50, 50, r);
    assert_eq!(c, Area { x: 30, y: 11, width: 40, height: 12 });
    let full = centered_rect(100, 100, r);
    assert_eq!(full, r);
}

#[test]
fn overlay_rounds_to_the_nearest_cell() {
    // A quarter of 100 x 50: the top margin is 37% of 50 rows, 18.5, rounded up.
    let r = Area { x: 0, y: 0, width: 100, height: 50 };
    assert_eq!(centered_rect(25, 25, r), Area { x: 37, y: 19, width: 25, height: 12 });
    // An empty overlay still lies inside the area.
    let c = centered_rect(0, 0, Area { x: 3, y: 4, width: 10, height: 10 });
    assert_eq!(c.width, 0);
    assert_eq!(c.height, 0);
    assert!(c.x >= 3 && c.x <= 13 && c.y >= 4 && c.y <= 14);
}

#[test]
fn cursor_wraps_inside_the_border() {
    let modal = Area { x: 10, y: 4, width: 12, height: 5 };
    // Inner width 10: index 3 is on the first line, index 13 on the second.
    assert_eq!(modal_cursor(modal, 0), Some((11, 5)));
    assert_eq!(modal_cursor(modal, 3), Some((14, 5)));
    assert_eq!(modal_cursor(modal, 13), Some((14, 6)));
    // Far past the box, the cursor stays on the last inner line.
    assert_eq!(modal_cursor(modal, 95), Some((16, 7)));
    assert_eq!(modal_cursor(Area { x: 0, y: 0, width: 2, height: 9 }, 0), None);
    assert_eq!(modal_cursor(Area { x: 0, y: 0, width: 9, height: 1 }, 0), None);
}

#[test]
fn centering_percentages() {
    assert_eq!(rsheet::layout::centered_percentages(60), (20, 60, 20));
    assert_eq!(rsheet::layout::centered_percentages(25), (37, 25, 37));
    assert_eq!(rsheet::layout::centered_percentages(100), (0, 100, 0));
}
