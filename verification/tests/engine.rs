use focal_desk::config::{AppRule, Config, Fit, Matcher, Screen, WindowMeta};
use focal_desk::engine::{Command, Engine, Event, Target, WinId};
use focal_desk::layout::{slot_from_name, SlotId, FOCAL};

/// Shorthand: a WindowMeta with just a process name.
fn meta(p: &str) -> WindowMeta {
    WindowMeta { process: p.into(), title: String::new(), class: String::new() }
}

/// A fit by its two fractions.
fn fit(w: &str, h: &str) -> Fit {
    Fit { w: w.into(), h: h.into() }
}

/// An engine whose config gives terminals a 0.55-wide focal fit.
fn engine_with_terminal_rule() -> (Engine, Config) {
    let mut cfg = Config::default();
    cfg.apps = vec![AppRule {
        matcher: Matcher::Process("*terminal*".into()),
        slots: Vec::new(),
        priority: false,
        focal_fit: Some(fit("0.55", "1.0")),
    }];
    (Engine::new(cfg.clone()), cfg)
}

#[test]
fn promotion_preserves_home() {
    let (mut e, _cfg) = engine_with_terminal_rule();
    e.handle(Event::DeskMode(true));
    e.handle(Event::Opened(1, meta("code.exe")));
    e.handle(Event::Opened(2, meta("windowsterminal.exe")));
    let term_home = e.home_of(2).unwrap();

    // Terminal promotes onto the stage at its fit, not full size.
    let cmds = e.handle(Event::Promoted(2));
    match &cmds[..] {
        [Command::Place { win: 2, to, .. }] => {
            assert_eq!(*to, Target::Stage(Some(fit("0.55", "1.0"))));
        }
        other => panic!("unexpected commands: {other:?}"),
    }

    // Promoting the editor sends the terminal back to ITS home.
    let cmds = e.handle(Event::Promoted(1));
    assert!(cmds
        .iter()
        .any(|c| matches!(c, Command::Place { win: 2, to, .. } if *to == Target::Home(term_home))));
    assert_eq!(e.home_of(2), Some(term_home));
    assert_eq!(e.focused(), Some(1));
}

#[test]
fn refocusing_the_focused_window_is_a_noop() {
    let (mut e, _) = engine_with_terminal_rule();
    e.handle(Event::DeskMode(true));
    e.handle(Event::Opened(1, meta("a.exe")));
    e.handle(Event::Promoted(1));
    // Clicking inside the focused window re-reports it as
    // foreground; nothing may move.
    assert!(e.handle(Event::Promoted(1)).is_empty());
    assert_eq!(e.focused(), Some(1));
}

#[test]
fn set_screen_replaces_everyone() {
    let (mut e, _) = engine_with_terminal_rule();
    e.handle(Event::DeskMode(true));
    e.handle(Event::Opened(1, meta("a.exe")));
    e.handle(Event::Opened(2, meta("b.exe")));
    e.handle(Event::Promoted(2));
    let cmds = e.set_screen(Screen { px_w: 3840, px_h: 2160, inches_w: "56.65".into() });
    assert_eq!(cmds.len(), 2, "every managed window is re-placed");
    // the focused window goes to the (new) focal stage, whole
    assert!(cmds
        .iter()
        .any(|c| matches!(c, Command::Place { win: 2, to: Target::Stage(None), .. })));
    assert_eq!(e.config().screen.px_w, 3840);
}

#[test]
fn clear_stage_sends_focused_home() {
    let (mut e, _cfg) = engine_with_terminal_rule();
    e.handle(Event::DeskMode(true));
    e.handle(Event::Opened(1, meta("a.exe")));
    let home = e.home_of(1).unwrap();
    e.handle(Event::Promoted(1));
    let cmds = e.handle(Event::ClearStage);
    assert_eq!(cmds, vec![Command::Place { win: 1, to: Target::Home(home), animate: true }]);
    assert_eq!(e.focused(), None);
    // Second clear is a no-op.
    assert!(e.handle(Event::ClearStage).is_empty());
}

#[test]
fn nothing_moves_while_suspended() {
    let (mut e, _) = engine_with_terminal_rule();
    e.handle(Event::DeskMode(true));
    e.handle(Event::Opened(1, meta("a.exe")));
    e.handle(Event::Opened(2, meta("b.exe")));

    e.handle(Event::Suspend(true));
    assert!(e.is_suspended());
    // The snip is in progress: nothing may move, for any reason.
    assert!(e.handle(Event::Promoted(2)).is_empty());
    assert!(e.handle(Event::ClearStage).is_empty());
    assert!(e.handle(Event::Opened(3, meta("c.exe"))).is_empty());
    assert_eq!(e.focused(), None);

    // Closing the overlay puts everything back where it belongs.
    let cmds = e.handle(Event::Suspend(false));
    assert_eq!(cmds.len(), 3, "every managed window is re-asserted");
    assert!(
        cmds.iter().all(|c| matches!(c, Command::Place { animate: false, .. })),
        "no animation on resume"
    );
}

#[test]
fn ignored_windows_are_never_adopted() {
    let (mut e, _) = engine_with_terminal_rule();
    e.handle(Event::DeskMode(true));
    let cmds = e.handle(Event::Opened(9, meta("SnippingTool.exe")));
    assert_eq!(cmds, vec![Command::Release(9)]);
    assert_eq!(e.home_of(9), None);
    // and it can never take the stage
    assert!(e.handle(Event::Promoted(9)).is_empty());
}

#[test]
fn thirteenth_window_floats() {
    let (mut e, _) = engine_with_terminal_rule();
    e.handle(Event::DeskMode(true));
    for id in 1..=12u64 {
        let cmds = e.handle(Event::Opened(id, meta("app.exe")));
        assert!(matches!(cmds[..], [Command::Place { .. }]));
    }
    let cmds = e.handle(Event::Opened(13, meta("late.exe")));
    assert_eq!(cmds, vec![Command::Release(13)]);
}

#[test]
fn undock_releases_everything() {
    let (mut e, _) = engine_with_terminal_rule();
    e.handle(Event::DeskMode(true));
    e.handle(Event::Opened(1, meta("a.exe")));
    e.handle(Event::Opened(2, meta("b.exe")));
    let cmds = e.handle(Event::DeskMode(false));
    assert_eq!(cmds.len(), 2);
    assert!(cmds.iter().all(|c| matches!(c, Command::Release(_))));
    // Inactive engine ignores promotion.
    assert!(e.handle(Event::Promoted(1)).is_empty());
}

#[test]
fn reconfigure_rescales_without_rehoming() {
    let (mut e, cfg) = engine_with_terminal_rule();
    e.handle(Event::DeskMode(true));
    e.handle(Event::Opened(1, meta("a.exe")));
    e.handle(Event::Opened(2, meta("windowsterminal.exe")));
    let (home1, home2) = (e.home_of(1).unwrap(), e.home_of(2).unwrap());
    e.handle(Event::Promoted(2));

    // Widening the gutter is a pure geometry change — the kind a
    // slider makes.
    let mut wider = cfg.clone();
    wider.gutter_in = format!("{}", cfg.gutter_in.parse::<f32>().unwrap() * 2.0);
    let cmds = e.handle(Event::Reconfigured(wider.clone()));

    assert_eq!(cmds.len(), 2, "every managed window is re-placed");
    // Who lives where does not change under a retune.
    assert_eq!(e.home_of(1), Some(home1));
    assert_eq!(e.home_of(2), Some(home2));
    assert_eq!(e.focused(), Some(2));
    assert_eq!(e.config(), &wider);
    // The unfocused window sits at its own home, under the NEW gutter.
    assert!(
        cmds.iter()
            .any(|c| matches!(c, Command::Place { win: 1, to, .. } if *to == Target::Home(home1))),
        "window 1 should be re-placed at its home under the new gutter"
    );
    // The focused one stays on the stage, still at its fit.
    let stage = Target::Stage(Some(fit("0.55", "1.0")));
    assert!(
        cmds.iter().any(|c| matches!(c, Command::Place { win: 2, to, .. } if *to == stage)),
        "window 2 should stay on the focal stage at its fit"
    );
}

#[test]
fn closing_frees_the_slot() {
    let (mut e, _) = engine_with_terminal_rule();
    e.handle(Event::DeskMode(true));
    e.handle(Event::Opened(1, meta("a.exe")));
    let s1 = e.home_of(1).unwrap();
    e.handle(Event::Closed(1));
    e.handle(Event::Opened(2, meta("b.exe")));
    assert_eq!(e.home_of(2), Some(s1), "freed slot should be reused first");
}

// ---- the tab and the drag ---------------------------------------------

/// An engine in desk mode with dwell turned off: the tab is the only
/// way onto the stage. Same terminal rule as the others.
fn tab_only_engine() -> (Engine, Config) {
    let (_, mut cfg) = engine_with_terminal_rule();
    cfg.dwell_ms = 0;
    let mut e = Engine::new(cfg.clone());
    e.handle(Event::DeskMode(true));
    (e, cfg)
}

/// The animated `Place` that puts `id` at `slot`'s window rect.
fn at_home(id: WinId, slot: SlotId) -> Command {
    Command::Place { win: id, to: Target::Home(slot), animate: true }
}

/// The animated `Place` that puts `id` on the stage, whole.
fn on_stage(id: WinId) -> Command {
    Command::Place { win: id, to: Target::Stage(None), animate: true }
}

#[test]
fn with_dwell_off_a_body_click_never_promotes() {
    let (mut e, _) = tab_only_engine();
    e.handle(Event::Opened(1, meta("a.exe")));
    // The adapter should never even start the timer, but the engine
    // has the last word: a dwell report moves nothing.
    assert!(e.handle(Event::Dwelled(1)).is_empty());
    assert_eq!(e.focused(), None);
}

#[test]
fn a_tab_tap_promotes_with_dwell_off() {
    let (mut e, _) = tab_only_engine();
    e.handle(Event::Opened(1, meta("a.exe")));
    let cmds = e.handle(Event::Promoted(1));
    assert_eq!(cmds, vec![on_stage(1)]);
    assert_eq!(e.focused(), Some(1));
}

#[test]
fn dwell_still_promotes_while_left_on() {
    // The fallback: dwell left on (1200 ms) still promotes.
    let (_, mut cfg) = engine_with_terminal_rule();
    cfg.dwell_ms = 1200;
    let mut e = Engine::new(cfg);
    e.handle(Event::DeskMode(true));
    e.handle(Event::Opened(1, meta("a.exe")));
    assert!(matches!(e.handle(Event::Dwelled(1))[..], [Command::Place { win: 1, .. }]));
    assert_eq!(e.focused(), Some(1));
}

#[test]
fn desktop_click_still_clears_a_tab_promote() {
    let (mut e, _) = tab_only_engine();
    e.handle(Event::Opened(1, meta("a.exe")));
    let home = e.home_of(1).unwrap();
    e.handle(Event::Promoted(1));
    assert_eq!(e.handle(Event::ClearStage), vec![at_home(1, home)]);
    assert_eq!(e.focused(), None);
}

#[test]
fn move_to_a_free_slot_replaces_only_that_window() {
    let (mut e, _) = tab_only_engine();
    e.handle(Event::Opened(1, meta("a.exe")));
    e.handle(Event::Opened(2, meta("b.exe")));
    e.handle(Event::Opened(3, meta("c.exe")));
    let (h1, h2, h3) = (e.home_of(1).unwrap(), e.home_of(2).unwrap(), e.home_of(3).unwrap());
    let target = slot_from_name("corner-br").unwrap();
    assert_eq!(e.occupant(target), None);

    let cmds = e.handle(Event::MoveTo(2, target));
    assert_eq!(cmds, vec![at_home(2, target)], "exactly one window moves");
    assert_eq!(e.home_of(2), Some(target));
    assert_eq!(e.occupant(target), Some(2));
    assert_eq!(e.occupant(h2), None, "the old slot is free again");
    // Nobody else was touched.
    assert_eq!(e.home_of(1), Some(h1));
    assert_eq!(e.home_of(3), Some(h3));
    assert_eq!(e.focused(), None);
}

#[test]
fn move_to_the_focal_slot_is_a_promote() {
    let (mut e, _) = tab_only_engine();
    e.handle(Event::Opened(1, meta("a.exe")));
    e.handle(Event::Opened(2, meta("b.exe")));
    let (h1, h2) = (e.home_of(1).unwrap(), e.home_of(2).unwrap());
    e.handle(Event::Promoted(1));
    // Exactly what a tap on 2's tab would do: 1 goes home, 2 takes the stage.
    let cmds = e.handle(Event::MoveTo(2, SlotId(FOCAL)));
    assert_eq!(cmds, vec![at_home(1, h1), on_stage(2)]);
    assert_eq!(e.focused(), Some(2));
    assert_eq!(e.home_of(2), Some(h2), "a promote never re-homes");
}

#[test]
fn move_to_an_occupied_slot_swaps_the_two_homes() {
    let (mut e, _) = tab_only_engine();
    e.handle(Event::Opened(1, meta("a.exe")));
    e.handle(Event::Opened(2, meta("b.exe")));
    e.handle(Event::Opened(3, meta("c.exe")));
    let (h1, h2, h3) = (e.home_of(1).unwrap(), e.home_of(2).unwrap(), e.home_of(3).unwrap());

    let cmds = e.handle(Event::MoveTo(1, h2));
    assert_eq!(cmds.len(), 2, "the mover and the one it displaced");
    assert!(cmds.contains(&at_home(1, h2)));
    assert!(cmds.contains(&at_home(2, h1)));
    assert_eq!(e.home_of(1), Some(h2));
    assert_eq!(e.home_of(2), Some(h1));
    assert_eq!(e.occupant(h1), Some(2));
    assert_eq!(e.occupant(h2), Some(1));
    assert_eq!(e.home_of(3), Some(h3), "the bystander keeps its home");
}

#[test]
fn moving_the_focused_window_to_a_slot_leaves_the_stage() {
    let (mut e, _) = tab_only_engine();
    e.handle(Event::Opened(1, meta("a.exe")));
    e.handle(Event::Promoted(1));
    let target = slot_from_name("right-bottom").unwrap();
    assert_eq!(e.handle(Event::MoveTo(1, target)), vec![at_home(1, target)]);
    assert_eq!(e.focused(), None);
    assert_eq!(e.home_of(1), Some(target));
    // At home already: a drop on its own slot is nothing.
    assert!(e.handle(Event::MoveTo(1, target)).is_empty());
    // From the stage, a drop on its own home is "send it home".
    e.handle(Event::Promoted(1));
    assert_eq!(e.handle(Event::MoveTo(1, target)), vec![at_home(1, target)]);
    assert_eq!(e.focused(), None);
}

#[test]
fn a_drop_on_the_focused_windows_home_takes_it_over() {
    // 1 is on the stage, so its home slot looks empty. Dropping 2
    // there swaps homes, but only 2 moves: 1 keeps the stage and
    // lands in its new home when it is displaced.
    let (mut e, _) = tab_only_engine();
    e.handle(Event::Opened(1, meta("a.exe")));
    e.handle(Event::Opened(2, meta("b.exe")));
    let (h1, h2) = (e.home_of(1).unwrap(), e.home_of(2).unwrap());
    e.handle(Event::Promoted(1));

    assert_eq!(e.handle(Event::MoveTo(2, h1)), vec![at_home(2, h1)]);
    assert_eq!(e.focused(), Some(1));
    assert_eq!(e.home_of(1), Some(h2));
    assert_eq!(e.home_of(2), Some(h1));
    // Displacing 1 now sends it to its new home.
    let cmds = e.handle(Event::Promoted(2));
    assert!(cmds.contains(&at_home(1, h2)));
}

#[test]
fn move_to_ignores_strangers_frozen_layouts_and_bad_slots() {
    let (mut e, _) = tab_only_engine();
    e.handle(Event::Opened(1, meta("a.exe")));
    let target = slot_from_name("corner-tl").unwrap();
    assert!(e.handle(Event::MoveTo(99, target)).is_empty(), "unknown window");
    assert!(e.handle(Event::MoveTo(1, SlotId(200))).is_empty(), "no such slot");
    e.handle(Event::Suspend(true));
    assert!(e.handle(Event::MoveTo(1, target)).is_empty(), "frozen for an overlay");
    e.handle(Event::Suspend(false));
    e.handle(Event::DeskMode(false));
    assert!(e.handle(Event::MoveTo(1, target)).is_empty(), "laptop mode");
    assert_eq!(e.home_of(1), Some(SlotId(1)), "nothing above changed a home");
}

#[test]
fn placement_follows_focus_and_homes() {
    let (mut e, _) = tab_only_engine();
    e.handle(Event::Opened(1, meta("windowsterminal.exe")));
    let home = e.home_of(1).unwrap();
    assert_eq!(e.placement(1), Some(Target::Home(home)));
    e.handle(Event::Promoted(1));
    assert_eq!(e.placement(1), Some(Target::Stage(Some(fit("0.55", "1.0")))));
    assert_eq!(e.placement(7), None, "not managed");
    assert_eq!(e.managed(), vec![1]);
}

// ---- further cases ------------------------------------------------------

#[test]
fn a_fresh_engine_is_idle() {
    let e = Engine::new(Config::default());
    assert!(!e.is_active());
    assert!(!e.is_suspended());
    assert_eq!(e.focused(), None);
    assert!(e.managed().is_empty());
    assert_eq!(e.occupant(SlotId(1)), None);
}

#[test]
fn windows_fill_the_slots_center_out() {
    let (mut e, _) = tab_only_engine();
    for id in 1..=5u64 {
        e.handle(Event::Opened(id, meta("app.exe")));
    }
    let homes: Vec<u8> = (1..=5u64).map(|id| e.home_of(id).unwrap().0).collect();
    assert_eq!(homes, vec![1, 2, 3, 4, 5]);
    assert_eq!(e.occupant(SlotId(FOCAL)), None, "the stage is nobody's home");
}

#[test]
fn a_rule_picks_the_first_free_preference() {
    let mut cfg = Config::default();
    cfg.apps = vec![AppRule {
        matcher: Matcher::Process("*mail*".into()),
        slots: vec![SlotId(9), SlotId(10)],
        priority: false,
        focal_fit: None,
    }];
    let mut e = Engine::new(cfg);
    e.handle(Event::DeskMode(true));
    assert_eq!(e.handle(Event::Opened(1, meta("mail.exe"))), vec![at_home(1, SlotId(9))]);
    assert_eq!(e.handle(Event::Opened(2, meta("mail.exe"))), vec![at_home(2, SlotId(10))]);
    // Both preferences taken: center-out.
    assert_eq!(e.handle(Event::Opened(3, meta("mail.exe"))), vec![at_home(3, SlotId(1))]);
}

#[test]
fn a_priority_rule_claims_its_slot_and_rehomes_the_occupant() {
    let mut cfg = Config::default();
    cfg.apps = vec![AppRule {
        matcher: Matcher::Process("*kiosk*".into()),
        slots: vec![SlotId(1)],
        priority: true,
        focal_fit: None,
    }];
    let mut e = Engine::new(cfg);
    e.handle(Event::DeskMode(true));
    e.handle(Event::Opened(1, meta("a.exe")));
    assert_eq!(e.home_of(1), Some(SlotId(1)));
    let cmds = e.handle(Event::Opened(2, meta("kiosk.exe")));
    assert_eq!(e.home_of(2), Some(SlotId(1)));
    assert_eq!(e.home_of(1), Some(SlotId(2)));
    assert!(cmds.contains(&at_home(2, SlotId(1))));
    assert!(cmds.contains(&at_home(1, SlotId(2))));
}

#[test]
fn a_hand_placed_window_is_never_displaced() {
    let mut cfg = Config::default();
    cfg.apps = vec![AppRule {
        matcher: Matcher::Process("*kiosk*".into()),
        slots: vec![SlotId(9)],
        priority: true,
        focal_fit: None,
    }];
    let mut e = Engine::new(cfg);
    e.handle(Event::DeskMode(true));
    e.handle(Event::Opened(1, meta("a.exe")));
    e.handle(Event::MoveTo(1, SlotId(9)));
    e.handle(Event::Opened(2, meta("kiosk.exe")));
    assert_eq!(e.home_of(1), Some(SlotId(9)), "a dragged window keeps its slot");
    assert_ne!(e.home_of(2), Some(SlotId(9)));
}

#[test]
fn an_inactive_engine_homes_new_windows_without_moving_them() {
    let mut e = Engine::new(Config::default());
    assert!(e.handle(Event::Opened(4, meta("a.exe"))).is_empty());
    assert_eq!(e.home_of(4), Some(SlotId(1)));
    assert_eq!(e.handle(Event::DeskMode(true)), vec![at_home(4, SlotId(1))]);
}

#[test]
fn entering_desk_mode_flies_everyone_home() {
    let (mut e, _) = tab_only_engine();
    e.handle(Event::Opened(1, meta("a.exe")));
    e.handle(Event::Opened(2, meta("b.exe")));
    e.handle(Event::DeskMode(false));
    let cmds = e.handle(Event::DeskMode(true));
    assert_eq!(cmds, vec![at_home(1, SlotId(1)), at_home(2, SlotId(2))]);
}

#[test]
fn every_command_lands_where_placement_says() {
    let (mut e, _) = engine_with_terminal_rule();
    let script = vec![
        Event::DeskMode(true),
        Event::Opened(1, meta("a.exe")),
        Event::Opened(2, meta("windowsterminal.exe")),
        Event::Opened(3, meta("c.exe")),
        Event::Promoted(2),
        Event::MoveTo(1, SlotId(3)),
        Event::MoveTo(3, SlotId(9)),
        Event::Promoted(3),
        Event::Suspend(true),
        Event::Suspend(false),
        Event::ClearStage,
        Event::DeskMode(false),
        Event::DeskMode(true),
    ];
    for ev in script {
        for c in e.handle(ev) {
            if let Command::Place { win, to, .. } = c {
                assert_eq!(e.placement(win), Some(to));
            }
        }
    }
}

#[test]
fn a_frozen_layout_places_nothing_for_any_event() {
    let (mut e, cfg) = tab_only_engine();
    e.handle(Event::Opened(1, meta("a.exe")));
    e.handle(Event::Opened(2, meta("windowsterminal.exe")));
    e.handle(Event::Promoted(2));
    e.handle(Event::Suspend(true));
    let places = |cmds: &Vec<Command>| cmds.iter().any(|c| matches!(c, Command::Place { .. }));

    assert!(e.handle(Event::Dwelled(1)).is_empty());
    assert!(e.handle(Event::MoveTo(1, SlotId(5))).is_empty());
    assert!(e.handle(Event::Suspend(true)).is_empty());
    assert!(e.handle(Event::Reconfigured(cfg.clone())).is_empty());
    let mut screen = cfg.screen.clone();
    screen.px_w = 2560;
    assert!(e.set_screen(screen).is_empty());
    assert!(!places(&e.handle(Event::Opened(3, meta("c.exe")))));
    assert!(e.handle(Event::Closed(3)).is_empty());
    let undock = e.handle(Event::DeskMode(false));
    assert!(!places(&undock));
    assert_eq!(undock.len(), 2, "leaving desk mode still hands every window back");
    assert!(e.handle(Event::DeskMode(true)).is_empty(), "docking while frozen moves nothing");
    assert!(e.is_suspended());
    assert!(e.is_active());

    // The overlay closes: everyone is snapped home, one placement each.
    let cmds = e.handle(Event::Suspend(false));
    assert_eq!(
        cmds,
        vec![
            Command::Place { win: 1, to: Target::Home(SlotId(1)), animate: false },
            Command::Place { win: 2, to: Target::Home(SlotId(2)), animate: false },
        ]
    );
    assert_eq!(e.managed(), vec![1, 2]);
}

#[test]
fn a_repeated_open_keeps_the_home() {
    let (mut e, _) = tab_only_engine();
    e.handle(Event::Opened(1, meta("a.exe")));
    e.handle(Event::Opened(2, meta("b.exe")));
    let home = e.home_of(1);
    assert!(e.handle(Event::Opened(1, meta("a.exe"))).is_empty());
    assert_eq!(e.home_of(1), home);
    assert_eq!(e.managed(), vec![1, 2]);
}

#[test]
fn set_suspended_and_on_dwelled_directly() {
    let (mut e, _) = tab_only_engine();
    e.handle(Event::Opened(1, meta("a.exe")));
    assert!(e.set_suspended(false).is_empty(), "asking for the current state changes nothing");
    assert!(e.set_suspended(true).is_empty());
    assert!(e.is_suspended());
    assert_eq!(
        e.set_suspended(false),
        vec![Command::Place { win: 1, to: Target::Home(SlotId(1)), animate: false }]
    );
    assert!(e.on_dwelled(1).is_empty(), "dwell is off");
    assert_eq!(e.focused(), None);
}
