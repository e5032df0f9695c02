//! Which top-level windows the service takes charge of, decided from what
//! the host reads about each one.
use vstd::prelude::*;

use crate::text::{chars_of, seq_eq, slice, string_of};

verus! {

broadcast use vstd::string::group_string_axioms;

/// `WS_CHILD`: a child window, not top-level.
pub const WS_CHILD: u32 = 0x4000_0000;

/// `WS_THICKFRAME`: the window has a resize border.
pub const WS_THICKFRAME: u32 = 0x0004_0000;

/// `WS_EX_TOOLWINDOW`: a floating palette, no taskbar button.
pub const WS_EX_TOOLWINDOW: u32 = 0x0000_0080;

/// `WS_EX_NOACTIVATE`: never takes the foreground.
pub const WS_EX_NOACTIVATE: u32 = 0x0800_0000;

/// Smallest width a window must have to be worth a slot, in pixels.
pub const MIN_W: i64 = 200;

/// Smallest height a window must have to be worth a slot, in pixels.
pub const MIN_H: i64 = 120;

/// What the host reads about a top-level window.
#[derive(Clone, Debug, PartialEq)]
pub struct WindowFacts {
    pub visible: bool,
    /// Minimized.
    pub iconic: bool,
    pub style: u32,
    pub ex_style: u32,
    /// Has an owner window: a dialog or a palette.
    pub owned: bool,
    /// DWM reports it cloaked (a suspended UWP app).
    pub cloaked: bool,
    pub title: String,
    pub class: String,
    /// The window rectangle's size, in pixels.
    pub w: i64,
    pub h: i64,
}

/// [`WindowFacts`] with its strings as characters.
pub struct WindowFactsView {
    pub visible: bool,
    pub iconic: bool,
    pub style: u32,
    pub ex_style: u32,
    pub owned: bool,
    pub cloaked: bool,
    pub title: Seq<char>,
    pub class: Seq<char>,
    pub w: i64,
    pub h: i64,
}

impl View for WindowFacts {
    type V = WindowFactsView;

    open spec fn view(&self) -> WindowFactsView {
        WindowFactsView {
            visible: self.visible,
            iconic: self.iconic,
            style: self.style,
            ex_style: self.ex_style,
            owned: self.owned,
            cloaked: self.cloaked,
            title: self.title@,
            class: self.class@,
            w: self.w,
            h: self.h,
        }
    }
}

/// Shell surfaces that look like ordinary windows but must be left alone.
pub open spec fn shell_class(c: Seq<char>) -> bool {
    ||| c == "Progman"@
    ||| c == "WorkerW"@
    ||| c == "Shell_TrayWnd"@
    ||| c == "Shell_SecondaryTrayWnd"@
    ||| c == "Windows.UI.Core.CoreWindow"@
    ||| c == "MultitaskingViewFrame"@
}

/// The conservative rule: visible and not minimized, top-level, not a
/// tool window or a never-activating one, resizable, unowned, not
/// cloaked, titled, not a shell surface, and at least 200 × 120.
pub open spec fn spec_manageable(f: WindowFactsView) -> bool {
    &&& f.visible && !f.iconic
    &&& f.style & WS_CHILD == 0
    &&& f.ex_style & (WS_EX_TOOLWINDOW | WS_EX_NOACTIVATE) == 0
    &&& f.style & WS_THICKFRAME != 0
    &&& !f.owned
    &&& !f.cloaked && f.title.len() > 0
    &&& !shell_class(f.class)
    &&& f.w >= MIN_W && f.h >= MIN_H
}

/// True when `a` spells the literal `lit`.
fn is_lit(a: &Vec<char>, lit: &str) -> (b: bool)
    ensures
        b == (a@ == lit@),
{
    seq_eq(&chars_of(lit), a)
}

/// True when the class names a shell surface.
pub fn is_shell_class(class: &str) -> (b: bool)
    ensures
        b == shell_class(class@),
{
    let c = chars_of(class);
    is_lit(&c, "Progman") || is_lit(&c, "WorkerW") || is_lit(&c, "Shell_TrayWnd") || is_lit(
        &c,
        "Shell_SecondaryTrayWnd",
    ) || is_lit(&c, "Windows.UI.Core.CoreWindow") || is_lit(&c, "MultitaskingViewFrame")
}

/// Decide whether the service should own this window's geometry.
/// Anything rejected keeps Windows' normal behavior.
pub fn manageable(f: &WindowFacts) -> (b: bool)
    ensures
        b == spec_manageable(f@),
{
    if !f.visible || f.iconic {
        return false;
    }
    if f.style & WS_CHILD != 0 {
        return false;
    }
    if f.ex_style & (WS_EX_TOOLWINDOW | WS_EX_NOACTIVATE) != 0 {
        return false;
    }
    // No resize border means the window cannot be tiled: it keeps its
    // own size wherever it is put, so a slot only ever holds it wrong.
    if f.style & WS_THICKFRAME == 0 {
        return false;
    }
    // Owned windows are dialogs and palettes; they follow their owner.
    if f.owned {
        return false;
    }
    if f.cloaked || chars_of(f.title.as_str()).len() == 0 {
        return false;
    }
    if is_shell_class(f.class.as_str()) {
        return false;
    }
    f.w >= MIN_W && f.h >= MIN_H
}

/// The desktop itself: the shell window, or one of the two classes the
/// desktop is drawn in. Clicking it clears the stage.
pub fn is_desktop(is_shell_window: bool, class: &str) -> (b: bool)
    ensures
        b == (is_shell_window || class@ == "Progman"@ || class@ == "WorkerW"@),
{
    let c = chars_of(class);
    is_shell_window || is_lit(&c, "Progman") || is_lit(&c, "WorkerW")
}

/// Where the last path component of `s[..j]` starts: just past the last
/// `\` or `/`, or at 0.
pub open spec fn base_start(s: Seq<char>, j: int) -> int
    decreases j,
{
    if j <= 0 {
        0
    } else if s[j - 1] == '\\' || s[j - 1] == '/' {
        j
    } else {
        base_start(s, j - 1)
    }
}

/// `base_start` lies within the text looked at.
proof fn lemma_base_start(s: Seq<char>, j: int)
    requires
        0 <= j <= s.len(),
    ensures
        0 <= base_start(s, j) <= j,
    decreases j,
{
    if j > 0 {
        lemma_base_start(s, j - 1);
    }
}

/// The file name at the end of a path: what follows the last `\` or `/`
/// (the whole text when there is none; empty when it ends in one).
pub fn file_name(path: &str) -> (name: String)
    ensures
        name@ == path@.subrange(base_start(path@, path@.len() as int), path@.len() as int),
{
    let p = chars_of(path);
    let mut j: usize = p.len();
    while j > 0 && p[j - 1] != '\\' && p[j - 1] != '/'
        invariant
            p@ == path@,
            j <= p@.len(),
            base_start(p@, p@.len() as int) == base_start(p@, j as int),
        decreases j,
    {
        j = j - 1;
    }
    proof {
        lemma_base_start(p@, p@.len() as int);
    }
    string_of(&slice(&p, j, p.len()))
}

} // verus!
