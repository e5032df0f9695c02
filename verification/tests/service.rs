use focal_desk::config::{Config, WindowMeta};
use focal_desk::engine::{Engine, Event};
use focal_desk::gesture::Note;
use focal_desk::service::{
    check_dwell, desk_mode_change, housekeeping, managed_count, on_foreground, order_for, rescan, Order, Step,
    Watch, CMD_CLEAR, CMD_LOG, CMD_QUIT, HOTKEY_CLEAR, HOTKEY_TOGGLE,
};

fn idle() -> Watch {
    Watch { pending: None, promoted: false }
}

#[test]
fn an_overlay_freezes_the_layout_once() {
    let mut w = Watch { pending: Some((3, 10)), promoted: true };
    let steps = on_foreground(&mut w, 9, 50, true, true, false, false, None);
    assert_eq!(steps, vec![Step::SettleFlights, Step::Freeze]);
    assert_eq!(w, idle());
    // Already frozen: nothing more to do.
    assert!(on_foreground(&mut w, 9, 60, true, true, false, true, None).is_empty());
}

#[test]
fn leaving_the_overlay_thaws_and_starts_the_timer() {
    let mut w = idle();
    let steps = on_foreground(&mut w, 4, 70, true, false, false, true, None);
    assert_eq!(steps, vec![Step::Thaw]);
    assert_eq!(w, Watch { pending: Some((4, 70)), promoted: false });
}

#[test]
fn the_desktop_clears_the_stage() {
    let mut w = Watch { pending: Some((3, 10)), promoted: false };
    assert_eq!(on_foreground(&mut w, 1, 20, true, false, true, false, Some(3)), vec![Step::ClearStage]);
    assert_eq!(w, idle());
    let mut w = idle();
    assert_eq!(
        on_foreground(&mut w, 1, 20, true, false, true, true, None),
        vec![Step::Thaw, Step::ClearStage]
    );
}

#[test]
fn the_focused_window_changes_nothing_and_dwell_off_starts_no_timer() {
    let mut w = Watch { pending: Some((2, 5)), promoted: true };
    assert!(on_foreground(&mut w, 7, 30, true, false, false, false, Some(7)).is_empty());
    assert_eq!(w, Watch { pending: Some((2, 5)), promoted: true });
    assert!(on_foreground(&mut w, 8, 30, false, false, false, false, Some(7)).is_empty());
    assert_eq!(w, idle());
}

#[test]
fn dwell_fires_once_after_the_delay() {
    let mut w = Watch { pending: Some((5, 1000)), promoted: false };
    assert_eq!(check_dwell(&mut w, 1500, 1200, 5), None, "too early");
    assert_eq!(check_dwell(&mut w, 2200, 1200, 5), Some(5));
    assert!(w.promoted);
    assert_eq!(check_dwell(&mut w, 9000, 1200, 5), None, "only once");
}

#[test]
fn dwell_drops_a_window_that_lost_the_foreground() {
    let mut w = Watch { pending: Some((5, 1000)), promoted: false };
    assert_eq!(check_dwell(&mut w, 2500, 1200, 6), None);
    assert_eq!(w, idle());
    let mut none = idle();
    assert_eq!(check_dwell(&mut none, 2500, 1200, 6), None);
    // A clock that reads earlier than the start counts as no time at all.
    let mut w = Watch { pending: Some((5, 1000)), promoted: false };
    assert_eq!(check_dwell(&mut w, 10, 1, 5), None);
}

#[test]
fn desk_mode_flips_only_on_a_change() {
    assert_eq!(desk_mode_change(true, false, false), Some(true));
    assert_eq!(desk_mode_change(false, true, false), Some(true));
    assert_eq!(desk_mode_change(false, false, true), Some(false));
    assert_eq!(desk_mode_change(true, true, true), None);
    assert_eq!(desk_mode_change(false, false, false), None);
}

#[test]
fn rescan_announces_opens_and_closes_once() {
    let mut known: Vec<u64> = vec![1, 2, 3];
    let (opened, closed) = rescan(&mut known, &vec![3, 5, 1, 5, 4]);
    assert_eq!(opened, vec![5, 4]);
    assert_eq!(closed, vec![2]);
    assert_eq!(known, vec![1, 3, 5, 4]);
    let (opened, closed) = rescan(&mut known, &vec![3, 5, 1, 5, 4]);
    assert!(opened.is_empty() && closed.is_empty());
    let (opened, closed) = rescan(&mut known, &vec![]);
    assert!(opened.is_empty());
    assert_eq!(closed, vec![1, 3, 5, 4]);
    assert!(known.is_empty());
}

#[test]
fn managed_count_counts_homed_windows() {
    let mut e = Engine::new(Config::default());
    e.handle(Event::DeskMode(true));
    let meta = |p: &str| WindowMeta { process: p.into(), title: String::new(), class: String::new() };
    e.handle(Event::Opened(1, meta("a.exe")));
    e.handle(Event::Opened(2, meta("SnippingTool.exe")));
    assert_eq!(managed_count(&e, &vec![1, 2, 3]), 1);
}

#[test]
fn notes_become_orders() {
    assert_eq!(order_for(Note::Foreground(4)), Order::Foreground(4));
    assert_eq!(order_for(Note::DisplaysChanged), Order::Displays);
    assert_eq!(order_for(Note::Hotkey(HOTKEY_CLEAR)), Order::ClearStage);
    assert_eq!(order_for(Note::Hotkey(HOTKEY_TOGGLE)), Order::ToggleForced);
    assert_eq!(order_for(Note::Hotkey(77)), Order::Nothing);
    assert_eq!(order_for(Note::Menu(CMD_CLEAR)), Order::ClearStage);
    assert_eq!(order_for(Note::Menu(CMD_LOG)), Order::OpenLog);
    assert_eq!(order_for(Note::Menu(CMD_QUIT)), Order::Quit);
    assert_eq!(order_for(Note::Menu(0)), Order::Nothing);
    assert_eq!(order_for(Note::Tap(8)), Order::Promote(8));
    assert_eq!(order_for(Note::Drag(8, 10, 20)), Order::Hover(10, 20));
    assert_eq!(order_for(Note::Drop(8, 10, 20)), Order::DropAt(8, 10, 20));
    assert_eq!(order_for(Note::Minimized(8)), Order::Frames);
    assert_eq!(order_for(Note::Restored(8)), Order::Frames);
}

#[test]
fn housekeeping_runs_every_period_and_rescans_only_in_desk_mode() {
    assert_eq!(housekeeping(399, 0, true), (false, false));
    assert_eq!(housekeeping(400, 0, true), (true, true));
    assert_eq!(housekeeping(1000, 500, false), (true, false));
    assert_eq!(housekeeping(5, 10, true), (false, false), "a clock that went back waits");
}
