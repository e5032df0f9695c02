use focal_desk::gesture::{poll, Gesture, Note, Press, SLOP_PX};

#[test]
fn a_short_press_is_a_tap() {
    let mut p = Press::new(7, (100, 100));
    assert_eq!(p.moved((110, 95), SLOP_PX), None, "inside the slop");
    assert_eq!(p.released((110, 95)), Gesture::Tap(7));
}

#[test]
fn past_the_slop_it_is_a_drag_and_stays_one() {
    let mut p = Press::new(7, (100, 100));
    assert_eq!(p.moved((100 + SLOP_PX + 1, 100), SLOP_PX), Some((129, 100)));
    // Wandering back over the start does not turn it into a tap.
    assert_eq!(p.moved((100, 100), SLOP_PX), Some((100, 100)));
    assert_eq!(p.released((500, 600)), Gesture::Drop(7, (500, 600)));
}

#[test]
fn the_slop_is_measured_on_either_axis() {
    let mut p = Press::new(1, (0, 0));
    assert_eq!(p.moved((0, SLOP_PX), SLOP_PX), None, "exactly the slop is not past it");
    assert_eq!(p.moved((0, SLOP_PX + 1), SLOP_PX), Some((0, SLOP_PX + 1)));
}

#[test]
fn a_new_press_is_not_yet_a_drag() {
    let p = Press::new(3, (-5, 40));
    assert_eq!(p, Press { win: 3, start: (-5, 40), dragging: false });
}

#[test]
fn the_slop_counts_backwards_too() {
    let mut p = Press::new(2, (100, 100));
    assert_eq!(p.moved((100 - SLOP_PX, 100), SLOP_PX), None);
    assert_eq!(p.moved((100 - SLOP_PX - 1, 100), SLOP_PX), Some((71, 100)));
}

#[test]
fn extreme_coordinates_do_not_overflow() {
    let mut p = Press::new(4, (i32::MIN, i32::MIN));
    assert_eq!(p.moved((i32::MAX, i32::MIN), SLOP_PX), Some((i32::MAX, i32::MIN)));
}

#[test]
fn poll_without_a_press_says_nothing() {
    let mut press: Option<Press> = None;
    assert_eq!(poll(&mut press, true, (10, 10)), None);
    assert_eq!(poll(&mut press, false, (10, 10)), None);
    assert_eq!(press, None);
}

#[test]
fn poll_reports_a_tap_and_ends_the_press() {
    let mut press = Some(Press::new(9, (50, 50)));
    assert_eq!(poll(&mut press, true, (55, 60)), None);
    assert_eq!(poll(&mut press, false, (55, 60)), Some(Note::Tap(9)));
    assert_eq!(press, None);
}

#[test]
fn poll_reports_drags_then_the_drop() {
    let mut press = Some(Press::new(9, (50, 50)));
    assert_eq!(poll(&mut press, true, (50, 90)), Some(Note::Drag(9, 50, 90)));
    assert_eq!(poll(&mut press, true, (51, 51)), Some(Note::Drag(9, 51, 51)));
    assert_eq!(poll(&mut press, false, (300, 20)), Some(Note::Drop(9, 300, 20)));
    assert_eq!(press, None);
}
