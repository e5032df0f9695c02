//! The service's own decisions, between the host's callbacks and the
//! engine: what a foreground change, a finished dwell, a rescan of the
//! window list or a notification from a callback calls for.
//!
//! The host reads the clock, asks the OS and performs each step; the
//! rules are here.
use vstd::prelude::*;

use crate::engine::{spec_home_of, wf, Engine, EngineView, WinId};
use crate::gesture::Note;

verus! {

/// Hotkey id: clear the focal stage (Ctrl+Alt+Space).
pub const HOTKEY_CLEAR: i32 = 1;

/// Hotkey id: force desk mode on or off (Ctrl+Alt+D), for testing away
/// from the desk panel.
pub const HOTKEY_TOGGLE: i32 = 2;

/// Tray menu command: clear the stage.
pub const CMD_CLEAR: u32 = 1;

/// Tray menu command: open the log file.
pub const CMD_LOG: u32 = 2;

/// Tray menu command: quit.
pub const CMD_QUIT: u32 = 3;

/// The dwell timer: the window holding the foreground and since when
/// (milliseconds on the host's monotonic clock), and whether it has been
/// promoted for this activation already.
#[derive(Clone, Copy, Debug, PartialEq, Eq)]
pub struct Watch {
    pub pending: Option<(WinId, u64)>,
    pub promoted: bool,
}

/// What a foreground change asks of the host, in order.
#[derive(Clone, Copy, Debug, PartialEq, Eq)]
pub enum Step {
    /// Finish every flight where it is headed, at once.
    SettleFlights,
    /// Freeze the layout: `Event::Suspend(true)`.
    Freeze,
    /// Unfreeze it: `Event::Suspend(false)`.
    Thaw,
    /// Send the focused window home: `Event::ClearStage`.
    ClearStage,
}

/// A dwell timer with nothing pending.
pub open spec fn idle() -> Watch {
    Watch { pending: None, promoted: false }
}

/// What the foreground moving to `id` at `now` does to the timer and asks
/// of the host: an ignored overlay clears the timer and freezes the
/// layout (settling the flights first, so a capture sees a still screen);
/// anything else thaws a frozen layout; the desktop then clears the
/// stage; the focused window changes nothing more; any other window
/// starts the timer, when dwell is on.
pub open spec fn spec_on_foreground(
    w: Watch,
    id: WinId,
    now: u64,
    dwell_on: bool,
    ignored: bool,
    desktop: bool,
    suspended: bool,
    focused: Option<WinId>,
) -> (Watch, Seq<Step>) {
    if ignored {
        (idle(), if suspended {
            Seq::empty()
        } else {
            seq![Step::SettleFlights, Step::Freeze]
        })
    } else {
        let thaw = if suspended {
            seq![Step::Thaw]
        } else {
            Seq::empty()
        };
        if desktop {
            (idle(), thaw.push(Step::ClearStage))
        } else if focused == Some(id) {
            (w, thaw)
        } else if dwell_on {
            (Watch { pending: Some((id, now)), promoted: false }, thaw)
        } else {
            (idle(), thaw)
        }
    }
}

/// Handle a foreground change to window `id` at `now`. `ignored` and
/// `desktop` say what the window is, `suspended` and `focused` what the
/// engine is doing, `dwell_on` whether holding the foreground promotes.
pub fn on_foreground(
    w: &mut Watch,
    id: WinId,
    now: u64,
    dwell_on: bool,
    ignored: bool,
    desktop: bool,
    suspended: bool,
    focused: Option<WinId>,
) -> (steps: Vec<Step>)
    ensures
        (*final(w), steps@) == spec_on_foreground(
            *old(w),
            id,
            now,
            dwell_on,
            ignored,
            desktop,
            suspended,
            focused,
        ),
{
    let mut steps: Vec<Step> = Vec::new();
    if ignored {
        *w = Watch { pending: None, promoted: false };
        if !suspended {
            steps.push(Step::SettleFlights);
            steps.push(Step::Freeze);
        }
        proof {
            if !suspended {
                assert(steps@ =~= seq![Step::SettleFlights, Step::Freeze]);
            }
        }
        return steps;
    }
    if suspended {
        steps.push(Step::Thaw);
    }
    proof {
        if suspended {
            assert(steps@ =~= seq![Step::Thaw]);
        }
    }
    if desktop {
        *w = Watch { pending: None, promoted: false };
        steps.push(Step::ClearStage);
        return steps;
    }
    if focused == Some(id) {
        return steps;
    }
    if dwell_on {
        *w = Watch { pending: Some((id, now)), promoted: false };
    } else {
        *w = Watch { pending: None, promoted: false };
    }
    steps
}

/// Milliseconds from `since` to `now`, never negative.
pub open spec fn elapsed(since: u64, now: u64) -> int {
    if now >= since {
        now - since
    } else {
        0
    }
}

/// What a tick does to the timer: the pending window is promoted once it
/// has held the foreground for `dwell_ms` and still holds it; the timer
/// is dropped if another window holds it by then.
pub open spec fn spec_check_dwell(w: Watch, now: u64, dwell_ms: u64, foreground: WinId) -> (
    Watch,
    Option<WinId>,
) {
    match w.pending {
        None => (w, None),
        Some((id, since)) => if w.promoted || elapsed(since, now) < dwell_ms {
            (w, None)
        } else if foreground != id {
            (Watch { pending: None, ..w }, None)
        } else {
            (Watch { promoted: true, ..w }, Some(id))
        },
    }
}

/// Once per tick: the window to report as `Event::Dwelled`, if any.
/// `foreground` is the window holding the foreground now.
pub fn check_dwell(w: &mut Watch, now: u64, dwell_ms: u64, foreground: WinId) -> (r: Option<WinId>)
    ensures
        (*final(w), r) == spec_check_dwell(*old(w), now, dwell_ms, foreground),
{
    match w.pending {
        None => None,
        Some((id, since)) => {
            let gone: u64 = if now >= since {
                now - since
            } else {
                0
            };
            if w.promoted || gone < dwell_ms {
                None
            } else if foreground != id {
                w.pending = None;
                None
            } else {
                w.promoted = true;
                Some(id)
            }
        },
    }
}

/// The period of the housekeeping pass (config check, rescan, frame
/// sync, tray), in milliseconds.
pub const HOUSEKEEPING_MS: u64 = 400;

/// What a tick at `now` does about housekeeping, the last pass having
/// run at `last`: whether a pass is due (a full period has gone by), and
/// whether that pass rescans the window list (only in desk mode).
pub fn housekeeping(now: u64, last: u64, active: bool) -> (r: (bool, bool))
    ensures
        r.0 == (elapsed(last, now) >= HOUSEKEEPING_MS),
        r.1 == (r.0 && active),
{
    let gone: u64 = if now >= last {
        now - last
    } else {
        0
    };
    let due = gone >= HOUSEKEEPING_MS;
    (due, due && active)
}

/// Whether desk mode is to flip: the desk panel is present or desk mode
/// is forced, against whether the engine is active now.
pub fn desk_mode_change(is_desk: bool, forced: bool, active: bool) -> (r: Option<bool>)
    ensures
        r == (if (is_desk || forced) != active {
            Some(is_desk || forced)
        } else {
            None::<bool>
        }),
{
    let want = is_desk || forced;
    if want != active {
        Some(want)
    } else {
        None
    }
}

/// The ids of `live[..n]` that are neither in `known` nor earlier in
/// `live`, in the order they first appear.
pub open spec fn fresh(known: Seq<WinId>, live: Seq<WinId>, n: int) -> Seq<WinId>
    decreases n,
{
    if n <= 0 {
        Seq::empty()
    } else {
        let f = fresh(known, live, n - 1);
        let id = live[n - 1];
        if known.contains(id) || f.contains(id) {
            f
        } else {
            f.push(id)
        }
    }
}

/// The entries of `s[..n]` that are (`keep`) or are not (`!keep`) in
/// `live`, in order.
pub open spec fn sift(s: Seq<WinId>, live: Seq<WinId>, n: int, keep: bool) -> Seq<WinId>
    decreases n,
{
    if n <= 0 {
        Seq::empty()
    } else {
        let f = sift(s, live, n - 1, keep);
        if live.contains(s[n - 1]) == keep {
            f.push(s[n - 1])
        } else {
            f
        }
    }
}

/// No id occurs twice.
pub open spec fn distinct(s: Seq<WinId>) -> bool {
    forall|i: int, j: int| 0 <= i < j < s.len() ==> s[i] != s[j]
}

/// True when `v` holds `id`.
fn holds_id(v: &Vec<WinId>, id: WinId) -> (b: bool)
    ensures
        b == v@.contains(id),
{
    let mut i: usize = 0;
    while i < v.len()
        invariant
            i <= v.len(),
            forall|j: int| 0 <= j < i ==> v@[j] != id,
        decreases v.len() - i,
    {
        if v[i] == id {
            return true;
        }
        i = i + 1;
    }
    false
}

/// What [`fresh`] gives: ids of `live`, none in `known`, none twice.
proof fn lemma_fresh(known: Seq<WinId>, live: Seq<WinId>, n: int)
    requires
        0 <= n <= live.len(),
    ensures
        distinct(fresh(known, live, n)),
        forall|x: WinId| #[trigger] fresh(known, live, n).contains(x) ==> !known.contains(x),
        forall|x: WinId|
            #[trigger] fresh(known, live, n).contains(x) <==> (!known.contains(x) && exists|i: int|
                0 <= i < n && live[i] == x),
    decreases n,
{
    if n > 0 {
        lemma_fresh(known, live, n - 1);
        let f = fresh(known, live, n - 1);
        let id = live[n - 1];
        assert forall|x: WinId| #[trigger] fresh(known, live, n).contains(x) <==> (!known.contains(x)
            && exists|i: int| 0 <= i < n && live[i] == x) by {
            if fresh(known, live, n).contains(x) {
                if f.contains(x) {
                    let i = choose|i: int| 0 <= i < n - 1 && live[i] == x;
                    assert(0 <= i < n && live[i] == x);
                } else {
                    assert(fresh(known, live, n) == f.push(id));
                    let k = choose|k: int| 0 <= k < f.len() + 1 && f.push(id)[k] == x;
                    assert(x == id);
                    assert(live[n - 1] == x);
                }
            }
            if !known.contains(x) && exists|i: int| 0 <= i < n && live[i] == x {
                let i = choose|i: int| 0 <= i < n && live[i] == x;
                if i < n - 1 {
                    assert(f.contains(x));
                    if !(known.contains(id) || f.contains(id)) {
                        let k = choose|k: int| 0 <= k < f.len() && f[k] == x;
                        assert(f.push(id)[k] == x);
                    }
                } else {
                    if !(known.contains(id) || f.contains(id)) {
                        assert(f.push(id)[f.len() as int] == x);
                    }
                }
            }
        }
    }
}

/// What [`sift`] gives: the entries of `s[..n]` whose membership in
/// `live` is `keep`, each still where `s` had it relative to the others.
proof fn lemma_sift(s: Seq<WinId>, live: Seq<WinId>, n: int, keep: bool)
    requires
        0 <= n <= s.len(),
        distinct(s),
    ensures
        distinct(sift(s, live, n, keep)),
        forall|x: WinId|
            #[trigger] sift(s, live, n, keep).contains(x) <==> (live.contains(x) == keep && exists|i: int|
                0 <= i < n && s[i] == x),
    decreases n,
{
    if n > 0 {
        lemma_sift(s, live, n - 1, keep);
        let f = sift(s, live, n - 1, keep);
        let id = s[n - 1];
        assert forall|x: WinId| #[trigger] sift(s, live, n, keep).contains(x) <==> (live.contains(x) == keep
            && exists|i: int| 0 <= i < n && s[i] == x) by {
            if sift(s, live, n, keep).contains(x) {
                if f.contains(x) {
                    let i = choose|i: int| 0 <= i < n - 1 && s[i] == x;
                    assert(0 <= i < n && s[i] == x);
                } else {
                    let k = choose|k: int| 0 <= k < f.len() + 1 && f.push(id)[k] == x;
                    assert(x == id);
                    assert(s[n - 1] == x);
                }
            }
            if live.contains(x) == keep && exists|i: int| 0 <= i < n && s[i] == x {
                let i = choose|i: int| 0 <= i < n && s[i] == x;
                if i < n - 1 {
                    assert(f.contains(x));
                    if live.contains(id) == keep {
                        let k = choose|k: int| 0 <= k < f.len() && f[k] == x;
                        assert(f.push(id)[k] == x);
                    }
                } else {
                    assert(f.push(id)[f.len() as int] == x);
                }
            }
        }
        if live.contains(id) == keep {
            assert(!f.contains(id));
            let g = f.push(id);
            assert forall|i: int, j: int| 0 <= i < j < g.len() implies g[i] != g[j] by {
                if j == f.len() {
                    assert(f.contains(g[i]));
                }
            }
        }
    }
}

/// Compare the live window list against the windows already known.
/// Returns the ids to announce as opened (each once, in list order) and
/// the ids to announce as closed (in the order they were known); `known`
/// becomes the live ids, the ones it held first, then the new ones.
pub fn rescan(known: &mut Vec<WinId>, live: &Vec<WinId>) -> (r: (Vec<WinId>, Vec<WinId>))
    requires
        distinct(old(known)@),
    ensures
        r.0@ == fresh(old(known)@, live@, live@.len() as int),
        r.1@ == sift(old(known)@, live@, old(known)@.len() as int, false),
        final(known)@ == sift(old(known)@, live@, old(known)@.len() as int, true) + r.0@,
        distinct(final(known)@),
        forall|id: WinId| #[trigger] final(known)@.contains(id) <==> live@.contains(id),
{
    let ghost k0 = known@;
    let mut opened: Vec<WinId> = Vec::new();
    let mut i: usize = 0;
    while i < live.len()
        invariant
            k0 == old(known)@,
            known@ == k0,
            i <= live@.len(),
            opened@ == fresh(k0, live@, i as int),
        decreases live@.len() - i,
    {
        let id = live[i];
        if !holds_id(known, id) && !holds_id(&opened, id) {
            opened.push(id);
        }
        i = i + 1;
    }
    let mut kept: Vec<WinId> = Vec::new();
    let mut closed: Vec<WinId> = Vec::new();
    let mut j: usize = 0;
    while j < known.len()
        invariant
            known@ == k0,
            j <= k0.len(),
            kept@ == sift(k0, live@, j as int, true),
            closed@ == sift(k0, live@, j as int, false),
        decreases k0.len() - j,
    {
        let id = known[j];
        if holds_id(live, id) {
            kept.push(id);
        } else {
            closed.push(id);
        }
        j = j + 1;
    }
    let mut m: usize = 0;
    let ghost kept0 = kept@;
    while m < opened.len()
        invariant
            m <= opened@.len(),
            kept@ == kept0 + opened@.subrange(0, m as int),
        decreases opened@.len() - m,
    {
        kept.push(opened[m]);
        m = m + 1;
        proof {
            assert(kept@ =~= kept0 + opened@.subrange(0, m as int));
        }
    }
    proof {
        assert(opened@.subrange(0, opened@.len() as int) =~= opened@);
        lemma_fresh(k0, live@, live@.len() as int);
        lemma_sift(k0, live@, k0.len() as int, true);
        let a = kept0;
        let b = opened@;
        assert forall|x: WinId| #[trigger] kept@.contains(x) <==> live@.contains(x) by {
            if kept@.contains(x) {
                let k = choose|k: int| 0 <= k < kept@.len() && kept@[k] == x;
                if k < a.len() {
                    assert(a.contains(x));
                } else {
                    assert(b[k - a.len()] == x);
                    assert(b.contains(x));
                    let i = choose|i: int| 0 <= i < live@.len() && live@[i] == x;
                    assert(live@[i] == x);
                }
            }
            if live@.contains(x) {
                let i = choose|i: int| 0 <= i < live@.len() && live@[i] == x;
                if k0.contains(x) {
                    let q = choose|q: int| 0 <= q < k0.len() && k0[q] == x;
                    assert(a.contains(x));
                    let k = choose|k: int| 0 <= k < a.len() && a[k] == x;
                    assert(kept@[k] == x);
                } else {
                    assert(b.contains(x));
                    let k = choose|k: int| 0 <= k < b.len() && b[k] == x;
                    assert(kept@[a.len() + k] == x);
                }
            }
        }
        assert forall|p: int, q: int| 0 <= p < q < kept@.len() implies kept@[p] != kept@[q] by {
            if q >= a.len() && p < a.len() {
                assert(a.contains(kept@[p]));
                assert(b.contains(kept@[q])) by {
                    assert(b[q - a.len()] == kept@[q]);
                }
                assert(k0.contains(kept@[p])) by {
                    let i = choose|i: int| 0 <= i < k0.len() && k0[i] == kept@[p];
                    assert(k0[i] == kept@[p]);
                }
            } else if p >= a.len() {
                assert(kept@[p] == b[p - a.len()]);
                assert(kept@[q] == b[q - a.len()]);
            }
        }
    }
    *known = kept;
    (opened, closed)
}

/// Nothing is fresh against a list that already holds every live id.
proof fn lemma_fresh_none(known: Seq<WinId>, live: Seq<WinId>, n: int)
    requires
        0 <= n <= live.len(),
        forall|id: WinId| live.contains(id) ==> #[trigger] known.contains(id),
    ensures
        fresh(known, live, n) == Seq::<WinId>::empty(),
    decreases n,
{
    if n > 0 {
        lemma_fresh_none(known, live, n - 1);
        assert(live.contains(live[n - 1]));
    }
}

/// Nothing is sifted out of a list whose entries are all live.
proof fn lemma_sift_none(s: Seq<WinId>, live: Seq<WinId>, n: int)
    requires
        0 <= n <= s.len(),
        forall|id: WinId| s.contains(id) ==> #[trigger] live.contains(id),
    ensures
        sift(s, live, n, false) == Seq::<WinId>::empty(),
    decreases n,
{
    if n > 0 {
        lemma_sift_none(s, live, n - 1);
        assert(s.contains(s[n - 1]));
    }
}

/// A window is announced once: once a rescan has taken in the live list,
/// rescanning the same list announces nothing opened and nothing closed.
pub proof fn law_rescan_announces_once(known: Seq<WinId>, live: Seq<WinId>)
    requires
        forall|id: WinId| #[trigger] known.contains(id) <==> live.contains(id),
    ensures
        fresh(known, live, live.len() as int).len() == 0,
        sift(known, live, known.len() as int, false).len() == 0,
{
    lemma_fresh_none(known, live, live.len() as int);
    lemma_sift_none(known, live, known.len() as int);
}

/// One promotion per activation: after the timer fires, it stays quiet
/// until the foreground moves again.
pub proof fn law_dwell_fires_once(w: Watch, now: u64, later: u64, dwell_ms: u64, fg: WinId, fg2: WinId)
    requires
        spec_check_dwell(w, now, dwell_ms, fg).1 is Some,
    ensures
        spec_check_dwell(spec_check_dwell(w, now, dwell_ms, fg).0, later, dwell_ms, fg2).1 is None,
        spec_check_dwell(w, now, dwell_ms, fg).1 == Some(fg),
{
}

/// How many of `known[..n]` the engine gives a home.
pub open spec fn count_homed(e: EngineView, known: Seq<WinId>, n: int) -> nat
    decreases n,
{
    if n <= 0 {
        0
    } else {
        count_homed(e, known, n - 1) + if spec_home_of(e, known[n - 1]) is Some {
            1nat
        } else {
            0nat
        }
    }
}

/// How many known windows the engine has actually given a home slot;
/// the rest are open windows it declined.
pub fn managed_count(engine: &Engine, known: &Vec<WinId>) -> (n: usize)
    requires
        wf(engine@),
    ensures
        n == count_homed(engine@, known@, known@.len() as int),
{
    let mut n: usize = 0;
    let mut i: usize = 0;
    while i < known.len()
        invariant
            wf(engine@),
            i <= known@.len(),
            n == count_homed(engine@, known@, i as int),
            n <= i,
        decreases known@.len() - i,
    {
        if engine.home_of(known[i]).is_some() {
            n = n + 1;
        }
        i = i + 1;
    }
    n
}

/// What the main loop does with a notification from a callback.
#[derive(Clone, Copy, Debug, PartialEq, Eq)]
pub enum Order {
    /// A window took the foreground: [`on_foreground`].
    Foreground(WinId),
    /// Re-read the displays: desk mode may flip, the screen may change.
    Displays,
    /// Flip forced desk mode, then re-read the displays.
    ToggleForced,
    /// Send the focused window home.
    ClearStage,
    /// Open the log file.
    OpenLog,
    /// Leave the main loop.
    Quit,
    /// Promote this window: its frame was tapped.
    Promote(WinId),
    /// Light the slot under the pointer while a frame is dragged.
    Hover(i32, i32),
    /// Move this window to the slot under the pointer.
    DropAt(WinId, i32, i32),
    /// A window was minimized or restored: its frame shows or hides.
    Frames,
    /// Nothing to do.
    Nothing,
}

/// The order for a notification.
pub open spec fn spec_order_for(note: Note) -> Order {
    match note {
        Note::Foreground(id) => Order::Foreground(id),
        Note::Minimized(_) => Order::Frames,
        Note::Restored(_) => Order::Frames,
        Note::DisplaysChanged => Order::Displays,
        Note::Hotkey(k) => if k == HOTKEY_CLEAR {
            Order::ClearStage
        } else if k == HOTKEY_TOGGLE {
            Order::ToggleForced
        } else {
            Order::Nothing
        },
        Note::Menu(c) => if c == CMD_CLEAR {
            Order::ClearStage
        } else if c == CMD_LOG {
            Order::OpenLog
        } else if c == CMD_QUIT {
            Order::Quit
        } else {
            Order::Nothing
        },
        Note::Tap(id) => Order::Promote(id),
        Note::Drag(_, x, y) => Order::Hover(x, y),
        Note::Drop(id, x, y) => Order::DropAt(id, x, y),
    }
}

/// What the main loop is to do with `note`.
pub fn order_for(note: Note) -> (o: Order)
    ensures
        o == spec_order_for(note),
{
    match note {
        Note::Foreground(id) => Order::Foreground(id),
        Note::Minimized(_) => Order::Frames,
        Note::Restored(_) => Order::Frames,
        Note::DisplaysChanged => Order::Displays,
        Note::Hotkey(k) => if k == HOTKEY_CLEAR {
            Order::ClearStage
        } else if k == HOTKEY_TOGGLE {
            Order::ToggleForced
        } else {
            Order::Nothing
        },
        Note::Menu(c) => if c == CMD_CLEAR {
            Order::ClearStage
        } else if c == CMD_LOG {
            Order::OpenLog
        } else if c == CMD_QUIT {
            Order::Quit
        } else {
            Order::Nothing
        },
        Note::Tap(id) => Order::Promote(id),
        Note::Drag(_, x, y) => Order::Hover(x, y),
        Note::Drop(id, x, y) => Order::DropAt(id, x, y),
    }
}

} // verus!
