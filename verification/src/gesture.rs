//! What a press on a window's frame becomes: a tap (promote the window)
//! or, once the pointer has travelled past the slop, a drag that ends in
//! a drop (move the window to the slot under the pointer).
//!
//! The host records the button-down on a frame and then, once per tick,
//! hands [`poll`] the live button state and pointer position; the
//! decision is made here.
use crate::engine::WinId;
use vstd::prelude::*;

verus! {

/// How far the pointer must travel before a press becomes a drag, in
/// pixels, on either axis.
pub const SLOP_PX: i32 = 28;

/// A button press on a frame and what it has become so far.
#[derive(Clone, Copy, Debug, PartialEq, Eq)]
pub struct Press {
    /// The managed window whose frame was pressed.
    pub win: WinId,
    /// Where the button went down, virtual-desktop pixels.
    pub start: (i32, i32),
    /// Set once the pointer has travelled past the slop; never unset,
    /// so a drag that wanders back over its start is still a drag.
    pub dragging: bool,
}

/// What a press turns into when the button comes up.
#[derive(Clone, Copy, Debug, PartialEq, Eq)]
pub enum Gesture {
    /// Down and up without travelling: promote the window.
    Tap(WinId),
    /// Dragged and released here: move the window to the slot under
    /// the pointer.
    Drop(WinId, (i32, i32)),
}

/// Notifications that reach the host's main loop from its callbacks.
#[derive(Clone, Copy, Debug, PartialEq, Eq)]
pub enum Note {
    /// A window became the foreground window.
    Foreground(u64),
    /// A window was minimized.
    Minimized(u64),
    /// A window came back from the taskbar.
    Restored(u64),
    /// The display topology changed; desk mode may have flipped.
    DisplaysChanged,
    /// A registered hotkey fired.
    Hotkey(i32),
    /// The user picked something from the tray menu.
    Menu(u32),
    /// A window's frame was tapped.
    Tap(WinId),
    /// A window's frame is being dragged; the pointer is here.
    Drag(WinId, i32, i32),
    /// A window's frame was dragged and released here.
    Drop(WinId, i32, i32),
}

/// The distance between two coordinates, as a mathematical integer.
pub open spec fn dist(a: i32, b: i32) -> int {
    if a >= b {
        a - b
    } else {
        b - a
    }
}

/// True when `at` lies past `slop` from `start` on either axis.
pub open spec fn past_slop(start: (i32, i32), at: (i32, i32), slop: i32) -> bool {
    dist(at.0, start.0) > slop || dist(at.1, start.1) > slop
}

/// The press after the pointer moves to `at`.
pub open spec fn after_move(p: Press, at: (i32, i32), slop: i32) -> Press {
    Press { dragging: p.dragging || past_slop(p.start, at, slop), ..p }
}

/// The press after the pointer visits each of `ats` in turn.
pub open spec fn after_moves(p: Press, ats: Seq<(i32, i32)>, slop: i32) -> Press
    decreases ats.len(),
{
    if ats.len() == 0 {
        p
    } else {
        after_move(after_moves(p, ats.drop_last(), slop), ats.last(), slop)
    }
}

/// What releasing a press at `at` amounts to.
pub open spec fn gesture_of(p: Press, at: (i32, i32)) -> Gesture {
    if p.dragging {
        Gesture::Drop(p.win, at)
    } else {
        Gesture::Tap(p.win)
    }
}

/// A press is a tap unless the pointer travelled past the slop at some
/// point while the button was down; from that moment on it is a drag,
/// wherever the pointer goes after, and it is released as a drop.
pub proof fn law_drag_stays_a_drag(p: Press, ats: Seq<(i32, i32)>, slop: i32, at: (i32, i32))
    requires
        !p.dragging,
    ensures
        after_moves(p, ats, slop).dragging <==> exists|i: int|
            0 <= i < ats.len() && past_slop(p.start, #[trigger] ats[i], slop),
        after_moves(p, ats, slop).win == p.win,
        after_moves(p, ats, slop).start == p.start,
        gesture_of(after_moves(p, ats, slop), at) == (if after_moves(p, ats, slop).dragging {
            Gesture::Drop(p.win, at)
        } else {
            Gesture::Tap(p.win)
        }),
    decreases ats.len(),
{
    if ats.len() > 0 {
        let rest = ats.drop_last();
        law_drag_stays_a_drag(p, rest, slop, at);
        if after_moves(p, ats, slop).dragging {
            if !after_moves(p, rest, slop).dragging {
                assert(past_slop(p.start, ats[ats.len() - 1], slop));
            } else {
                let i = choose|i: int| 0 <= i < rest.len() && past_slop(p.start, #[trigger] rest[i], slop);
                assert(ats[i] == rest[i]);
            }
        } else {
            assert forall|i: int| 0 <= i < ats.len() implies !past_slop(p.start, #[trigger] ats[i], slop) by {
                if i < rest.len() {
                    assert(ats[i] == rest[i]);
                }
            }
        }
    }
}

impl Press {
    /// A fresh press at `at`.
    pub fn new(win: WinId, at: (i32, i32)) -> (p: Self)
        ensures
            p == (Press { win, start: at, dragging: false }),
    {
        Press { win, start: at, dragging: false }
    }

    /// The pointer moved to `at`. Returns the position while dragging —
    /// past `slop` pixels from the start, and from then on — so the
    /// caller can show the drop target; `None` while it is still a tap.
    pub fn moved(&mut self, at: (i32, i32), slop: i32) -> (r: Option<(i32, i32)>)
        ensures
            *final(self) == after_move(*old(self), at, slop),
            r == (if final(self).dragging { Some(at) } else { None::<(i32, i32)> }),
    {
        if !self.dragging {
            let dx: i64 = at.0 as i64 - self.start.0 as i64;
            let dy: i64 = at.1 as i64 - self.start.1 as i64;
            let ax: i64 = if dx >= 0 { dx } else { -dx };
            let ay: i64 = if dy >= 0 { dy } else { -dy };
            if ax > slop as i64 || ay > slop as i64 {
                self.dragging = true;
            }
        }
        if self.dragging {
            Some(at)
        } else {
            None
        }
    }

    /// The button came up at `at`.
    pub fn released(self, at: (i32, i32)) -> (g: Gesture)
        ensures
            g == gesture_of(self, at),
    {
        if self.dragging {
            Gesture::Drop(self.win, at)
        } else {
            Gesture::Tap(self.win)
        }
    }
}

/// Advance the press in progress from the live mouse state, once per
/// tick: `Drag` while the button is down past the slop, `Tap` or `Drop`
/// when it comes up (which ends the press), nothing otherwise.
pub fn poll(press: &mut Option<Press>, button_down: bool, at: (i32, i32)) -> (n: Option<Note>)
    ensures
        match *old(press) {
            None => *final(press) == None::<Press> && n == None::<Note>,
            Some(p) => if button_down {
                let dragging = p.dragging || past_slop(p.start, at, SLOP_PX);
                &&& *final(press) == Some(Press { dragging, ..p })
                &&& n == (if dragging { Some(Note::Drag(p.win, at.0, at.1)) } else { None::<Note> })
            } else {
                &&& *final(press) == None::<Press>
                &&& n == Some(if p.dragging { Note::Drop(p.win, at.0, at.1) } else { Note::Tap(p.win) })
            },
        },
{
    match press {
        None => None,
        Some(p) => {
            if button_down {
                let win = p.win;
                match p.moved(at, SLOP_PX) {
                    Some(pos) => Some(Note::Drag(win, pos.0, pos.1)),
                    None => None,
                }
            } else {
                let done = *p;
                *press = None;
                match done.released(at) {
                    Gesture::Tap(win) => Some(Note::Tap(win)),
                    Gesture::Drop(win, pos) => Some(Note::Drop(win, pos.0, pos.1)),
                }
            }
        },
    }
}

} // verus!
