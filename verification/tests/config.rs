use focal_desk::config::{
    default_ignores, parse, Config, Matcher, TapStyle, WindowMeta, EXAMPLE,
};
use focal_desk::glob::glob_match;
use focal_desk::layout::{slot_from_name, slot_name};

/// A WindowMeta from just a process name and a title.
fn m(process: &str, title: &str) -> WindowMeta {
    WindowMeta { process: process.into(), title: title.into(), class: String::new() }
}

/// A stored decimal, read the way the host reads it.
fn num(s: &str) -> f32 {
    s.trim().parse::<f32>().unwrap()
}

#[test]
fn glob_basics() {
    assert!(glob_match("*chat*", "Chat — desktop"));
    assert!(glob_match("term*", "Terminal.exe"));
    assert!(glob_match("*.exe", "code.EXE"));
    assert!(!glob_match("mail*", "Terminal.exe"));
}

#[test]
fn parses_example_config() {
    let cfg = parse(EXAMPLE).expect("example config must parse");
    assert_eq!(num(&cfg.gutter_in), 1.5);
    assert_eq!(cfg.dwell_ms, 0, "the example ships tab-only");
    assert_eq!(cfg.apps.len(), 3, "the assignable-slot examples ship commented out");
    assert!(cfg.warnings.is_empty(), "{:?}", cfg.warnings);
    let term = &cfg.apps[0];
    assert_eq!(term.slots, vec![slot_from_name("left-bottom").unwrap()]);
    assert!(!term.priority);
    assert!((num(&term.focal_fit.clone().unwrap().w) - 0.55).abs() < 1e-6);
    assert!(term.matcher.matches(&m("WindowsTerminal.exe", "")));
}

#[test]
fn config_errors_point_at_the_line() {
    let err = parse("gutter_in = 1.5\nnonsense_key = 3").unwrap_err();
    assert!(err.starts_with("line 2:"), "got {err}");
    // Inside [app] a problem is a warning that names the line, and
    // the rule is skipped rather than the whole file refused.
    let cfg = parse("[app]\nhome = nowhere").unwrap();
    assert!(cfg.apps.is_empty());
    assert_eq!(cfg.warnings.len(), 1);
    assert!(cfg.warnings[0].starts_with("line 2:"), "got {}", cfg.warnings[0]);
    assert!(cfg.warnings[0].contains("unknown slot"), "got {}", cfg.warnings[0]);
}

#[test]
fn snipping_tool_is_ignored_out_of_the_box() {
    let cfg = Config::default();
    assert!(cfg.is_ignored(&m("SnippingTool.exe", "Snipping Tool")));
    assert!(!cfg.is_ignored(&m("Code.exe", "editor")));
}

#[test]
fn ignore_section_adds_to_the_defaults() {
    let cfg = parse("[ignore]\nprocess = *obs64*").unwrap();
    assert!(cfg.is_ignored(&m("obs64.exe", "")));
    // built-ins survive
    assert!(cfg.is_ignored(&m("SnippingTool.exe", "")));
}

#[test]
fn assignable_slot_rules_parse() {
    let cfg = parse(
        "[app]\nmatch = household\nslots = top\npriority = true\n\
         [app]\nprocess = *windowsterminal*\nslots = corners\n\
         [app]\nclass = Chrome_WidgetWin_1\nslots = sides\n\
         [app]\nprocess = *olk*\nslots = top, bottom\n\
         [app]\ntitle = *Chat*\nhome = right-top",
    )
    .unwrap();
    assert!(cfg.warnings.is_empty(), "{:?}", cfg.warnings);
    assert_eq!(cfg.apps.len(), 5);
    let names =
        |i: usize| -> Vec<&str> { cfg.apps[i].slots.iter().map(|&s| slot_name(s)).collect() };
    assert_eq!(names(0), vec!["top-1", "top-2"]);
    assert!(cfg.apps[0].priority);
    assert!(cfg.apps[0].matcher.matches(&m("msedge.exe", "Household — kiosk")));
    assert!(cfg.apps[0].matcher.matches(&m("household.exe", "")));
    assert!(!cfg.apps[0].matcher.matches(&m("code.exe", "editor")));
    assert_eq!(names(1), vec!["corner-tl", "corner-tr", "corner-bl", "corner-br"]);
    assert!(!cfg.apps[1].priority, "priority is off unless asked");
    assert_eq!(names(2), vec!["left-top", "left-bottom", "right-top", "right-bottom"]);
    assert!(cfg.apps[2].matcher.matches(&WindowMeta {
        process: "chrome.exe".into(),
        title: "x".into(),
        class: "Chrome_WidgetWin_1".into(),
    }));
    assert_eq!(names(3), vec!["top-1", "top-2", "bottom-1", "bottom-2"]);
    assert_eq!(names(4), vec!["right-top"], "home = X is the one-slot spelling");
}

#[test]
fn a_bad_rule_is_logged_and_skipped() {
    let cfg = parse(
        "gutter_in = 2\n\
         [app]\nprocess = *code*\nslots = left\n\
         [app]\nprocess = *mail*\nslots = attic\npriority = maybe\n\
         [app]\nprocess = *term*\nslots = corners\nfocal_fit = 0.55 x 1.0",
    )
    .unwrap();
    assert_eq!(num(&cfg.gutter_in), 2.0, "the root config still loads");
    assert_eq!(cfg.apps.len(), 2, "the broken rule is dropped, its neighbours kept");
    assert!(cfg
        .apps
        .iter()
        .all(|r| !matches!(&r.matcher, Matcher::Process(p) if p == "*mail*")));
    assert_eq!(cfg.warnings.len(), 1, "one warning per broken rule: {:?}", cfg.warnings);
    let w = &cfg.warnings[0];
    assert!(w.contains("line 7"), "the first problem names its line: {w}");
    assert!(w.contains("unknown slot \"attic\""), "{w}");
    assert!(w.contains("skipped"), "{w}");
    // An unknown key inside [app] is the same kind of problem.
    let cfg = parse("[app]\nprocess = a\nhome = focal\ncolour = red").unwrap();
    assert!(cfg.apps.is_empty());
    assert!(cfg.warnings[0].contains("unknown key \"colour\""), "{}", cfg.warnings[0]);
    // Whereas a bad root key is still a refusal: nothing to fall back to.
    assert!(parse("gutter = 3").is_err());
}

#[test]
fn wire_rules_need_both_ends() {
    assert!(parse("[wire]\na_process = a*").is_err());
    let cfg = parse("[wire]\na_process = a*\nb_title = *b").unwrap();
    assert_eq!(cfg.wires.len(), 1);
}

#[test]
fn dwell_zero_means_off() {
    let mut cfg = Config::default();
    assert!(!cfg.dwell_enabled(), "the shipped default is tab-only (2026-09-03)");
    cfg.dwell_ms = 1200;
    assert!(cfg.dwell_enabled(), "any non-zero value is the fallback");
    assert!(parse("dwell_ms = 1200").unwrap().dwell_enabled());
    assert!(!parse("dwell_ms = 0").unwrap().dwell_enabled());
}

#[test]
fn tap_target_keys_parse_and_reject_typos() {
    let cfg = parse("tap_style = border\ntab_in = 1\ntab_length_in = 3.5").unwrap();
    assert_eq!(cfg.tap_style, TapStyle::Border);
    assert!((num(&cfg.tab_in) - 1.0).abs() < 1e-6);
    assert!((num(&cfg.tab_length_in) - 3.5).abs() < 1e-6);
    assert_eq!(parse("tap_style = TAB").unwrap().tap_style, TapStyle::Tab);
    let err = parse("tap_style = ring").unwrap_err();
    assert!(err.contains("tab or border"), "got {err}");
    // The example config spells out every knob, so it must carry them.
    assert_eq!(parse(EXAMPLE).unwrap().tap_style, TapStyle::Tab);
}

#[test]
fn frame_widths_parse_and_clamp() {
    let cfg = parse("frame_in = 0.2\nstage_in = 0.5").unwrap();
    assert!((num(&cfg.frame_in) - 0.2).abs() < 1e-6);
    assert!((num(&cfg.stage_in) - 0.5).abs() < 1e-6);
    let wide = parse("frame_in = 3\nstage_in = 4").unwrap();
    assert!((num(&wide.frame_in) - 3.0).abs() < 1e-6);
    assert!((num(&wide.stage_in) - 4.0).abs() < 1e-6);
    // The example carries both knobs.
    let ex = parse(EXAMPLE).unwrap();
    assert!((num(&ex.frame_in) - 0.15).abs() < 1e-6);
    assert!((num(&ex.stage_in) - 0.35).abs() < 1e-6);
}

// ---- further cases ---------------------------------------------------------

#[test]
fn empty_text_is_the_default_config() {
    assert_eq!(parse(""), Ok(Config::default()));
    assert_eq!(parse("# only a comment\n\n   \n"), Ok(Config::default()));
}

#[test]
fn the_default_ignore_list_is_the_built_in_one() {
    let d = default_ignores();
    assert_eq!(d.len(), 10);
    assert_eq!(d[0], Matcher::Process("*snippingtool*".into()));
    assert_eq!(d[9], Matcher::Process("*magnify*".into()));
    assert_eq!(Config::default().ignore, d);
}

#[test]
fn ignore_entries_follow_the_built_ins() {
    let cfg = parse("[ignore]\nprocess = *obs64*\ntitle = *Recording*").unwrap();
    let d = default_ignores();
    assert_eq!(cfg.ignore.len(), d.len() + 2);
    assert_eq!(&cfg.ignore[..d.len()], &d[..]);
    assert_eq!(cfg.ignore[d.len()], Matcher::Process("*obs64*".into()));
    assert_eq!(cfg.ignore[d.len() + 1], Matcher::Title("*Recording*".into()));
    assert!(parse("[ignore]\nclass = x").unwrap_err().starts_with("line 2:"));
}

#[test]
fn numbers_are_checked_but_kept_as_written() {
    let cfg = parse("gutter_in = 1.25\nfocal_frac = .5\nband_frac = 2e-1").unwrap();
    assert_eq!(cfg.gutter_in, "1.25");
    assert_eq!(cfg.focal_frac, ".5");
    assert_eq!(cfg.band_frac, "2e-1");
    let err = parse("gutter_in = wide").unwrap_err();
    assert_eq!(err, "line 1: gutter_in: bad number \"wide\"");
    assert!(parse("dwell_ms = -3").is_err());
    assert!(parse("dwell_ms = 18446744073709551616").is_err());
    assert_eq!(parse("dwell_ms = 18446744073709551615").unwrap().dwell_ms, u64::MAX);
}

#[test]
fn sections_and_lines_are_checked() {
    assert_eq!(parse("[attic]").unwrap_err(), "line 1: unknown section [attic]");
    assert_eq!(
        parse("gutter_in 2").unwrap_err(),
        "line 1: expected key = value, got \"gutter_in 2\""
    );
    assert!(parse("  force_active = true   # yes").unwrap().force_active);
    assert!(!parse("force_active = yes").unwrap().force_active);
}

#[test]
fn a_wire_rule_names_both_populations() {
    let cfg = parse("[wire]\na_title = *Chat*\nb_process = *code*").unwrap();
    assert_eq!(cfg.wires[0].a, Matcher::Title("*Chat*".into()));
    assert_eq!(cfg.wires[0].b, Matcher::Process("*code*".into()));
    // The last section is finished after the last line: no line to name.
    assert_eq!(parse("[wire]\nb_title = x").unwrap_err(), "[wire] needs a_process or a_title");
    assert_eq!(
        parse("[wire]\na_title = x\n[app]").unwrap_err(),
        "line 3: [wire] needs b_process or b_title"
    );
}

#[test]
fn focal_fit_and_priority_spellings() {
    let cfg = parse("[app]\nprocess = a\nfocal_fit = 0.5x0.75\npriority = YES").unwrap();
    let fit = cfg.apps[0].focal_fit.clone().unwrap();
    assert_eq!((fit.w.as_str(), fit.h.as_str()), ("0.5", "0.75"));
    assert!(cfg.apps[0].priority);
    let bad = parse("[app]\nprocess = a\nfocal_fit = wide").unwrap();
    assert_eq!(bad.warnings, vec!["line 3: focal_fit wants WxH, e.g. 0.55 x 1.0 — [app] rule skipped".to_string()]);
    let bad = parse("[app]\nprocess = a\npriority = maybe").unwrap();
    assert!(bad.warnings[0].contains("priority wants true or false, got \"maybe\""));
}

#[test]
fn slot_lists_drop_duplicates_and_need_a_slot() {
    let cfg = parse("[app]\nprocess = a\nslots = left, left-top, corner-br, ,").unwrap();
    let names: Vec<&str> = cfg.apps[0].slots.iter().map(|&s| slot_name(s)).collect();
    assert_eq!(names, vec!["left-top", "left-bottom", "corner-br"]);
    let none = parse("[app]\nprocess = a\nslots = ,").unwrap();
    assert!(none.apps.is_empty());
    assert!(none.warnings[0].contains("slots wants at least one slot or group name"));
}

#[test]
fn tap_styles_by_name() {
    assert_eq!(TapStyle::from_name("tab"), Some(TapStyle::Tab));
    assert_eq!(TapStyle::from_name(" Border "), Some(TapStyle::Border));
    assert_eq!(TapStyle::from_name("ring"), None);
}

#[test]
fn matchers_by_kind() {
    let meta = WindowMeta {
        process: "Code.exe".into(),
        title: "main.rs - editor".into(),
        class: "Chrome_WidgetWin_1".into(),
    };
    assert!(Matcher::Process("*code*".into()).matches(&meta));
    assert!(Matcher::Title("*EDITOR".into()).matches(&meta));
    assert!(Matcher::Class("chrome_*".into()).matches(&meta));
    assert!(Matcher::Substring("widget".into()).matches(&meta));
    assert!(Matcher::Any.matches(&meta));
    assert!(!Matcher::Process("*term*".into()).matches(&meta));
    let starred = WindowMeta { process: "x.exe".into(), title: "*ab".into(), class: "K".into() };
    assert!(Matcher::Substring("b".into()).matches(&starred));
    assert!(Matcher::Title("*b".into()).matches(&starred));
}

#[test]
fn globs_are_whole_string_wildcards() {
    assert!(glob_match("*", ""));
    assert!(glob_match("", ""));
    assert!(!glob_match("", "a"));
    assert!(glob_match("a*b*c", "aXXbYYc"));
    assert!(!glob_match("a*b*c", "aXXbYY"));
    assert!(glob_match("**x", "abx"));
    assert!(glob_match("*ab", "aab"), "the star takes back what it gave");
    assert!(glob_match("WIN*", "windowsterminal.exe"));
    // A star in the text is an ordinary character to the pattern.
    assert!(glob_match("*x", "*ax"));
    assert!(glob_match("*a", "*ba"));
    assert!(glob_match("a*", "a*"));
    assert!(!glob_match("a*", "b*"));
}

#[test]
fn comments_and_trailing_blank_lines_change_nothing() {
    let text = "gutter_in = 0.25\n[app]\nprocess = *code*\nslots = left\n[ignore]\nprocess = *snip*";
    let plain = parse(text).unwrap();
    assert_eq!(parse(&format!("{text}\n# note\n\n")), Ok(plain.clone()));
    let commented = text.replace("gutter_in = 0.25", "gutter_in = 0.25 # x").replace("[app]", "[app]\t# one rule");
    assert_eq!(parse(&commented), Ok(plain.clone()));
    let with_note = "gutter_in = 0.25 # wide\n[app]\nprocess = *code*   # the editor\nslots = left";
    let without = "gutter_in = 0.25\n[app]\nprocess = *code*\nslots = left";
    assert_eq!(parse(with_note), parse(without));
    let bad = "nonsense = 1";
    assert_eq!(parse(&format!("{bad}\n# note\n\n")), parse(bad));
    assert!(parse(bad).is_err());
    assert_eq!(parse("dwell_ms = 5 # and # again").unwrap().dwell_ms, 5);
}

#[test]
fn wildcard_laws_on_examples() {
    for t in ["", "*", "anything at all", "*ab"] {
        assert!(glob_match("*", t));
    }
    assert!(glob_match("Code.EXE", "code.exe"));
    assert!(!glob_match("code.exe", "code.exe "));
    assert!(!glob_match("code", "xcode"));
    assert!(glob_match("*ode*", "XCODE.exe"));
    assert!(!glob_match("*odx*", "XCODE.exe"));
    assert!(glob_match("*b*", "*ab"));
}
