use focal_desk::wide::{fill, wide_to_string};
use focal_desk::window::{
    file_name, is_desktop, is_shell_class, manageable, WindowFacts, WS_CHILD, WS_EX_NOACTIVATE,
    WS_EX_TOOLWINDOW, WS_THICKFRAME,
};

fn ordinary() -> WindowFacts {
    WindowFacts {
        visible: true,
        iconic: false,
        style: WS_THICKFRAME | 0x00C0_0000,
        ex_style: 0x100,
        owned: false,
        cloaked: false,
        title: "editor".into(),
        class: "Chrome_WidgetWin_1".into(),
        w: 1200,
        h: 800,
    }
}

#[test]
fn an_ordinary_window_is_managed() {
    assert!(manageable(&ordinary()));
}

#[test]
fn every_rule_can_refuse() {
    let cases: Vec<(&str, WindowFacts)> = vec![
        ("hidden", WindowFacts { visible: false, ..ordinary() }),
        ("minimized", WindowFacts { iconic: true, ..ordinary() }),
        ("child", WindowFacts { style: WS_THICKFRAME | WS_CHILD, ..ordinary() }),
        ("tool window", WindowFacts { ex_style: WS_EX_TOOLWINDOW, ..ordinary() }),
        ("never activates", WindowFacts { ex_style: WS_EX_NOACTIVATE, ..ordinary() }),
        ("fixed size", WindowFacts { style: 0x00C0_0000, ..ordinary() }),
        ("owned", WindowFacts { owned: true, ..ordinary() }),
        ("cloaked", WindowFacts { cloaked: true, ..ordinary() }),
        ("untitled", WindowFacts { title: String::new(), ..ordinary() }),
        ("taskbar", WindowFacts { class: "Shell_TrayWnd".into(), ..ordinary() }),
        ("narrow", WindowFacts { w: 199, ..ordinary() }),
        ("short", WindowFacts { h: 119, ..ordinary() }),
    ];
    for (why, f) in cases {
        assert!(!manageable(&f), "{why}");
    }
    assert!(manageable(&WindowFacts { w: 200, h: 120, ..ordinary() }), "the minimum is allowed");
}

#[test]
fn shell_surfaces_and_the_desktop() {
    for c in ["Progman", "WorkerW", "Shell_TrayWnd", "Shell_SecondaryTrayWnd", "Windows.UI.Core.CoreWindow", "MultitaskingViewFrame"] {
        assert!(is_shell_class(c), "{c}");
    }
    assert!(!is_shell_class("progman"));
    assert!(is_desktop(false, "Progman"));
    assert!(is_desktop(false, "WorkerW"));
    assert!(is_desktop(true, "anything"));
    assert!(!is_desktop(false, "Shell_TrayWnd"));
}

#[test]
fn file_names_come_after_the_last_separator() {
    assert_eq!(file_name("C:\\Program Files\\WindowsApps\\WindowsTerminal.exe"), "WindowsTerminal.exe");
    assert_eq!(file_name("/usr/bin/code"), "code");
    assert_eq!(file_name("mixed/dir\\app.exe"), "app.exe");
    assert_eq!(file_name("plain.exe"), "plain.exe");
    assert_eq!(file_name("dir\\"), "");
    assert_eq!(file_name(""), "");
}

#[test]
fn wide_buffers_become_strings() {
    let mut buf = [0u16; 8];
    buf[0] = 'h' as u16;
    buf[1] = 'i' as u16;
    assert_eq!(wide_to_string(&buf, 2), "hi");
    assert_eq!(wide_to_string(&buf, 0), "");
    assert_eq!(wide_to_string(&buf, 99).chars().count(), 8, "clamped to the buffer");
    let pair = [0xD83D, 0xDE00, 0x41];
    assert_eq!(wide_to_string(&pair, 3), "\u{1F600}A");
    let broken = [0xD83D, 0x41, 0xDE00];
    assert_eq!(wide_to_string(&broken, 3), "\u{FFFD}A\u{FFFD}");
}

#[test]
fn fill_truncates_and_terminates() {
    let mut dst = vec![7u16; 4];
    fill(&mut dst, "hello");
    assert_eq!(dst, vec!['h' as u16, 'e' as u16, 'l' as u16, 0]);
    let mut dst = vec![7u16; 6];
    fill(&mut dst, "ok");
    assert_eq!(dst, vec!['o' as u16, 'k' as u16, 0, 7, 7, 7]);
    let mut dst = vec![7u16; 4];
    fill(&mut dst, "\u{1F600}");
    assert_eq!(dst, vec![0xD83D, 0xDE00, 0, 7]);
    let mut one = vec![9u16; 1];
    fill(&mut one, "x");
    assert_eq!(one, vec![0]);
}
