//! The promotion state machine. One event in, zero or more commands
//! out; no OS types anywhere. This is the file to read to understand
//! what the service *does*.
//!
//! The engine decides *where* each window belongs — its home slot, or
//! the focal stage at its app's fit — and says so with a [`Target`]; the
//! host turns a target into pixels under the current configuration.
use vstd::prelude::*;

use crate::config::{
    copy_opt_fit, fit_view, spec_is_ignored, spec_matches, AppRule, Config, ConfigView, Fit,
    FitView, Screen, WindowMeta, WindowMetaView,
};
use crate::layout::{home_priority, spec_home_priority, SlotId, SLOT_COUNT};

verus! {

/// Opaque window identity. On Windows this carries the HWND value.
pub type WinId = u64;

/// Where a window is to be put.
#[derive(Clone, Debug, PartialEq)]
pub enum Target {
    /// The window rectangle of this home slot.
    Home(SlotId),
    /// The focal stage, shrunk to this fit (the whole stage for `None`)
    /// and centered.
    Stage(Option<Fit>),
}

/// A [`Target`] by its characters.
pub enum TargetView {
    Home(SlotId),
    Stage(Option<FitView>),
}

impl View for Target {
    type V = TargetView;

    open spec fn view(&self) -> TargetView {
        match self {
            Target::Home(s) => TargetView::Home(*s),
            Target::Stage(f) => TargetView::Stage(fit_view(*f)),
        }
    }
}

/// Everything the host can tell the engine.
#[derive(Clone, Debug)]
pub enum Event {
    /// A manageable top-level window appeared. A window the engine
    /// already manages keeps its home: a repeated `Opened` changes and
    /// commands nothing.
    Opened(WinId, WindowMeta),
    /// The user explicitly asked for this window on the stage: a tap on
    /// its frame, a hotkey. Always promotes.
    Promoted(WinId),
    /// A window held the foreground for the dwell period. Promotes only
    /// while `dwell_ms > 0`.
    Dwelled(WinId),
    /// The user dragged a window's frame onto a slot: re-home it there.
    /// The focal slot means "promote".
    MoveTo(WinId, SlotId),
    Closed(WinId),
    /// The user asked for an empty stage: send the focused window home.
    ClearStage,
    /// Desk mode toggled: the desk panel attached or removed.
    DeskMode(bool),
    /// Freeze or unfreeze the layout, while an ignored overlay holds the
    /// foreground.
    Suspend(bool),
    /// The config file changed on disk and reparsed cleanly.
    Reconfigured(Config),
}

/// Everything the engine can ask the host to do.
#[derive(Clone, Debug, PartialEq)]
pub enum Command {
    /// Put `win` at `to`, flying there or snapping.
    Place { win: WinId, to: Target, animate: bool },
    /// Stop managing a window: restore normal user control.
    Release(WinId),
}

/// A [`Command`] by its characters.
pub enum CommandView {
    Place { win: WinId, to: TargetView, animate: bool },
    Release(WinId),
}

impl View for Command {
    type V = CommandView;

    open spec fn view(&self) -> CommandView {
        match self {
            Command::Place { win, to, animate } => CommandView::Place {
                win: *win,
                to: to@,
                animate: *animate,
            },
            Command::Release(w) => CommandView::Release(*w),
        }
    }
}

/// The views of a sequence of commands.
pub open spec fn cmd_views(c: Seq<Command>) -> Seq<CommandView> {
    c.map_values(|x: Command| x@)
}

/// A managed window, as the slot that is its home holds it.
struct Resident {
    id: WinId,
    /// How it sits on the stage, from its rule when it opened.
    fit: Option<Fit>,
    /// Its rule's slot preferences when it opened.
    prefs: Vec<SlotId>,
    /// Placed by hand: no rule may displace it.
    pinned: bool,
}

/// A managed window, as the engine's view holds it.
pub struct ResidentView {
    pub id: WinId,
    pub fit: Option<FitView>,
    pub prefs: Seq<SlotId>,
    pub pinned: bool,
}

impl View for Resident {
    type V = ResidentView;

    closed spec fn view(&self) -> ResidentView {
        ResidentView { id: self.id, fit: fit_view(self.fit), prefs: self.prefs@, pinned: self.pinned }
    }
}

/// The engine's state: one entry per slot (the stage's, slot 0, always
/// empty) holding the window whose home it is.
pub struct EngineView {
    /// The configuration it runs under.
    pub cfg: ConfigView,
    /// Desk mode: the engine is issuing commands.
    pub active: bool,
    /// Frozen for an overlay.
    pub suspended: bool,
    /// The window on the focal stage.
    pub focused: Option<WinId>,
    pub slots: Seq<Option<ResidentView>>,
}

/// The promotion state machine.
pub struct Engine {
    cfg: Config,
    active: bool,
    slots: Vec<Option<Resident>>,
    focused: Option<WinId>,
    suspended: bool,
}

/// An optional resident by its view.
spec fn opt_view(o: Option<Resident>) -> Option<ResidentView> {
    match o {
        Some(r) => Some(r@),
        None => None,
    }
}

impl View for Engine {
    type V = EngineView;

    closed spec fn view(&self) -> EngineView {
        EngineView {
            cfg: self.cfg@,
            active: self.active,
            suspended: self.suspended,
            focused: self.focused,
            slots: self.slots@.map_values(|o: Option<Resident>| opt_view(o)),
        }
    }
}

// ---- the model ---------------------------------------------------------

/// Slot `i` is the home of `id`.
pub open spec fn holds(v: EngineView, i: int, id: WinId) -> bool {
    &&& 0 <= i < v.slots.len()
    &&& v.slots[i] is Some
    &&& v.slots[i]->Some_0.id == id
}

/// `id` has a home.
pub open spec fn managed(v: EngineView, id: WinId) -> bool {
    exists|i: int| holds(v, i, id)
}

/// The index of `id`'s home slot.
pub open spec fn home_index(v: EngineView, id: WinId) -> int {
    choose|i: int| holds(v, i, id)
}

/// The home slot of `id`, if it has one.
pub open spec fn spec_home_of(v: EngineView, id: WinId) -> Option<SlotId> {
    if managed(v, id) {
        Some(SlotId(home_index(v, id) as u8))
    } else {
        None
    }
}

/// The record of a managed window.
pub open spec fn resident(v: EngineView, id: WinId) -> ResidentView {
    v.slots[home_index(v, id)]->Some_0
}

/// Every home map from windows to slots: what `home_of` answers.
pub open spec fn homes(v: EngineView) -> Map<WinId, SlotId> {
    Map::new(|id: WinId| managed(v, id), |id: WinId| SlotId(home_index(v, id) as u8))
}

/// The engine's invariant: thirteen slots, the stage is nobody's home, no
/// window has two homes, the focused window is managed, and nothing is
/// focused outside desk mode.
pub open spec fn wf(v: EngineView) -> bool {
    &&& v.slots.len() == SLOT_COUNT
    &&& v.slots[0] is None
    &&& forall|i: int, j: int|
        #![trigger v.slots[i], v.slots[j]]
        0 <= i < v.slots.len() && 0 <= j < v.slots.len() && v.slots[i] is Some && v.slots[j] is Some
            && v.slots[i]->Some_0.id == v.slots[j]->Some_0.id ==> i == j
    &&& (v.focused matches Some(f) ==> managed(v, f))
    &&& (!v.active ==> v.focused is None)
}

/// The animated placement of `id` at home slot `s`.
pub open spec fn fly_home(id: WinId, s: SlotId) -> CommandView {
    CommandView::Place { win: id, to: TargetView::Home(s), animate: true }
}

/// The animated placement of `id` on the stage at `fit`.
pub open spec fn fly_stage(id: WinId, fit: Option<FitView>) -> CommandView {
    CommandView::Place { win: id, to: TargetView::Stage(fit), animate: true }
}

/// Where the window in slot `i` belongs right now, snapped: the stage at
/// its fit while focused, else its home.
pub open spec fn snap_to(v: EngineView, i: int, r: ResidentView) -> CommandView {
    CommandView::Place {
        win: r.id,
        to: if v.focused == Some(r.id) {
            TargetView::Stage(r.fit)
        } else {
            TargetView::Home(SlotId(i as u8))
        },
        animate: false,
    }
}

/// One command per managed window among the first `n` slots, in slot order.
pub open spec fn each_upto(v: EngineView, n: int, kind: int) -> Seq<CommandView>
    decreases n,
{
    if n <= 0 {
        Seq::empty()
    } else {
        each_upto(v, n - 1, kind) + match v.slots[n - 1] {
            Some(r) => seq![
                if kind == 0 {
                    snap_to(v, n - 1, r)
                } else if kind == 1 {
                    fly_home(r.id, SlotId((n - 1) as u8))
                } else {
                    CommandView::Release(r.id)
                },
            ],
            None => Seq::empty(),
        }
    }
}

/// A snapped placement for every managed window at the position it
/// should hold now, in slot order.
pub open spec fn reassert(v: EngineView) -> Seq<CommandView> {
    each_upto(v, v.slots.len() as int, 0)
}

/// Every managed window flying to its home, in slot order.
pub open spec fn fly_all_home(v: EngineView) -> Seq<CommandView> {
    each_upto(v, v.slots.len() as int, 1)
}

/// Every managed window released, in slot order.
pub open spec fn release_all(v: EngineView) -> Seq<CommandView> {
    each_upto(v, v.slots.len() as int, 2)
}

/// `s` is a home slot nobody holds.
pub open spec fn free(v: EngineView, s: SlotId) -> bool {
    1 <= s.0 < SLOT_COUNT && v.slots[s.0 as int] is None
}

/// The first free slot among `prefs`, in order.
pub open spec fn first_free(v: EngineView, prefs: Seq<SlotId>) -> Option<SlotId>
    decreases prefs.len(),
{
    if prefs.len() == 0 {
        None
    } else if free(v, prefs[0]) {
        Some(prefs[0])
    } else {
        first_free(v, prefs.drop_first())
    }
}

/// A preferred free slot, else the first free slot center-out.
pub open spec fn pick_home(v: EngineView, prefs: Seq<SlotId>) -> Option<SlotId> {
    match first_free(v, prefs) {
        Some(s) => Some(s),
        None => first_free(v, spec_home_priority()),
    }
}

/// The first rule that matches the window, by index.
pub open spec fn first_rule(cfg: ConfigView, meta: WindowMetaView) -> Option<int> {
    if exists|k: int| 0 <= k < cfg.apps.len() && spec_matches(cfg.apps[k].matcher, meta) {
        Some(
            choose|k: int|
                0 <= k < cfg.apps.len() && spec_matches(cfg.apps[k].matcher, meta) && forall|
                    j: int,
                |
                    0 <= j < k ==> !spec_matches(#[trigger] cfg.apps[j].matcher, meta),
        )
    } else {
        None
    }
}

/// A priority claim: the first preference is held by a window not placed
/// by hand, and that window has somewhere to go. Gives the claimed slot,
/// the displaced window's slot index, and where it goes.
pub open spec fn claim(v: EngineView, prefs: Seq<SlotId>, priority: bool) -> Option<(SlotId, SlotId)> {
    if priority && prefs.len() > 0 && 1 <= prefs[0].0 < SLOT_COUNT && v.slots[prefs[0].0 as int] is Some
        && !v.slots[prefs[0].0 as int]->Some_0.pinned {
        match pick_home(v, v.slots[prefs[0].0 as int]->Some_0.prefs) {
            Some(to) => Some((prefs[0], to)),
            None => None,
        }
    } else {
        None
    }
}

/// What `Opened(id, meta)` does: an ignored window is released; a window
/// already managed is left where it is, with no command; any other is
/// given a home (claiming its rule's first slot from a window not placed
/// by hand when its rule has priority) and flown there, or released
/// when every home slot is held.
pub open spec fn spec_opened(cfg: ConfigView, v: EngineView, id: WinId, meta: WindowMetaView) -> (
    EngineView,
    Seq<CommandView>,
) {
    if spec_is_ignored(cfg, meta) {
        (v, seq![CommandView::Release(id)])
    } else if managed(v, id) {
        (v, Seq::empty())
    } else {
        let (fit, prefs, priority) = match first_rule(cfg, meta) {
            Some(k) => (cfg.apps[k].focal_fit, cfg.apps[k].slots, cfg.apps[k].priority),
            None => (None, Seq::empty(), false),
        };
        let me = ResidentView { id, fit, prefs, pinned: false };
        let moving = v.active && !v.suspended;
        match claim(v, prefs, priority) {
            Some((p, to)) => {
                let other = v.slots[p.0 as int]->Some_0;
                let v2 = EngineView {
                    slots: v.slots.update(to.0 as int, Some(other)).update(p.0 as int, Some(me)),
                    ..v
                };
                let first = if moving && v.focused != Some(other.id) {
                    seq![fly_home(other.id, to)]
                } else {
                    Seq::empty()
                };
                (v2, first + if moving {
                    seq![fly_home(id, p)]
                } else {
                    Seq::empty()
                })
            },
            None => match pick_home(v, prefs) {
                None => (v, seq![CommandView::Release(id)]),
                Some(s) => (
                    EngineView { slots: v.slots.update(s.0 as int, Some(me)), ..v },
                    if moving {
                        seq![fly_home(id, s)]
                    } else {
                        Seq::empty()
                    },
                ),
            },
        }
    }
}

/// What `Promoted(id)` does: the stage for `id` at its fit, the window it
/// displaces back to its own home.
pub open spec fn spec_promoted(v: EngineView, id: WinId) -> (EngineView, Seq<CommandView>) {
    if !v.active || v.suspended || !managed(v, id) || v.focused == Some(id) {
        (v, Seq::empty())
    } else {
        let back = match v.focused {
            Some(prev) => seq![fly_home(prev, SlotId(home_index(v, prev) as u8))],
            None => Seq::empty(),
        };
        (EngineView { focused: Some(id), ..v }, back.push(fly_stage(id, resident(v, id).fit)))
    }
}

/// What `Dwelled(id)` does under a dwell period of `dwell_ms`: with
/// dwell on, exactly what a promotion does; with it off, nothing.
pub open spec fn spec_dwelled(dwell_ms: u64, v: EngineView, id: WinId) -> (EngineView, Seq<CommandView>) {
    if dwell_ms > 0 {
        spec_promoted(v, id)
    } else {
        (v, Seq::empty())
    }
}

/// What `MoveTo(id, slot)` does.
pub open spec fn spec_move_to(v: EngineView, id: WinId, slot: SlotId) -> (EngineView, Seq<CommandView>) {
    if !v.active || v.suspended || slot.0 >= SLOT_COUNT || !managed(v, id) {
        (v, Seq::empty())
    } else if slot.0 == 0 {
        spec_promoted(v, id)
    } else {
        let old = home_index(v, id);
        let was_focused = v.focused == Some(id);
        let me = ResidentView { pinned: true, ..resident(v, id) };
        let focused = if was_focused {
            None
        } else {
            v.focused
        };
        if slot.0 == old {
            if !was_focused {
                (v, Seq::empty())
            } else {
                (EngineView { focused: None, ..v }, seq![fly_home(id, slot)])
            }
        } else {
            match v.slots[slot.0 as int] {
                Some(other) => (
                    EngineView {
                        slots: v.slots.update(old, Some(other)).update(slot.0 as int, Some(me)),
                        focused,
                        ..v
                    },
                    (if v.focused != Some(other.id) {
                        seq![fly_home(other.id, SlotId(old as u8))]
                    } else {
                        Seq::empty()
                    }).push(fly_home(id, slot)),
                ),
                None => (
                    EngineView {
                        slots: v.slots.update(old, None).update(slot.0 as int, Some(me)),
                        focused,
                        ..v
                    },
                    seq![fly_home(id, slot)],
                ),
            }
        }
    }
}

/// What `ClearStage` does.
pub open spec fn spec_clear_stage(v: EngineView) -> (EngineView, Seq<CommandView>) {
    if v.suspended {
        (v, Seq::empty())
    } else {
        match v.focused {
            None => (v, Seq::empty()),
            Some(f) => (
                EngineView { focused: None, ..v },
                seq![fly_home(f, SlotId(home_index(v, f) as u8))],
            ),
        }
    }
}

/// What `Closed(id)` does: the home is freed, the stage emptied if it
/// held the window; nothing moves.
pub open spec fn spec_closed(v: EngineView, id: WinId) -> EngineView {
    let slots = if managed(v, id) {
        v.slots.update(home_index(v, id), None)
    } else {
        v.slots
    };
    EngineView {
        slots,
        focused: if v.focused == Some(id) {
            None
        } else {
            v.focused
        },
        ..v
    }
}

/// What `Suspend(on)` does.
pub open spec fn spec_suspend(v: EngineView, on: bool) -> (EngineView, Seq<CommandView>) {
    if on == v.suspended {
        (v, Seq::empty())
    } else {
        let v2 = EngineView { suspended: on, ..v };
        (v2, if on || !v.active {
            Seq::empty()
        } else {
            reassert(v2)
        })
    }
}

/// What `DeskMode(on)` does: entering, every window flies home and the
/// stage empties (while frozen for an overlay nothing moves: resuming
/// snaps everyone to where they belong); leaving, every window is
/// released.
pub open spec fn spec_desk_mode(v: EngineView, on: bool) -> (EngineView, Seq<CommandView>) {
    (EngineView { active: on, focused: None, ..v }, if !on {
        release_all(v)
    } else if v.suspended {
        Seq::empty()
    } else {
        fly_all_home(v)
    })
}

/// The placements a config or screen change brings: everyone re-snapped
/// while active and not frozen for an overlay.
pub open spec fn replace_all(v: EngineView) -> Seq<CommandView> {
    if v.active && !v.suspended {
        reassert(v)
    } else {
        Seq::empty()
    }
}

/// The windows with a home among the first `n` slots, in slot order.
pub open spec fn managed_upto(v: EngineView, n: int) -> Seq<WinId>
    decreases n,
{
    if n <= 0 {
        Seq::empty()
    } else {
        managed_upto(v, n - 1) + match v.slots[n - 1] {
            Some(r) => seq![r.id],
            None => Seq::empty(),
        }
    }
}

/// Where the engine intends a managed window right now: the stage at its
/// fit while focused, else its home.
pub open spec fn spec_placement(v: EngineView, id: WinId) -> Option<TargetView> {
    if !managed(v, id) {
        None
    } else if v.focused == Some(id) {
        Some(TargetView::Stage(resident(v, id).fit))
    } else {
        Some(TargetView::Home(SlotId(home_index(v, id) as u8)))
    }
}

/// Slot `i` holding `id` makes it `id`'s one home.
pub proof fn lemma_home_unique(v: EngineView, i: int, id: WinId)
    requires
        wf(v),
        holds(v, i, id),
    ensures
        managed(v, id),
        home_index(v, id) == i,
{
    let j = home_index(v, id);
    assert(holds(v, j, id));
    assert(v.slots[i] is Some && v.slots[j] is Some);
}

/// The empty slot vector of a fresh engine.
pub open spec fn empty_slots() -> Seq<Option<ResidentView>> {
    Seq::new(SLOT_COUNT as nat, |i: int| None::<ResidentView>)
}

/// A copy of a list of slots.
fn copy_slots(v: &Vec<SlotId>) -> (r: Vec<SlotId>)
    ensures
        r@ == v@,
{
    let mut r: Vec<SlotId> = Vec::new();
    let mut i: usize = 0;
    while i < v.len()
        invariant
            i <= v.len(),
            r@ == v@.subrange(0, i as int),
        decreases v.len() - i,
    {
        r.push(v[i]);
        proof {
            assert(v@.subrange(0, i + 1) =~= v@.subrange(0, i as int).push(v@[i as int]));
        }
        i = i + 1;
    }
    assert(v@.subrange(0, v@.len() as int) =~= v@);
    r
}

impl Engine {
    /// The configuration the engine runs under.
    pub closed spec fn spec_config(&self) -> Config {
        self.cfg
    }

    /// A fresh engine: inactive (laptop mode), managing nothing.
    pub fn new(cfg: Config) -> (e: Self)
        ensures
            wf(e@),
            e@ == (EngineView { cfg: cfg@, active: false, suspended: false, focused: None, slots: empty_slots() }),
            e.spec_config() == cfg,
    {
        let mut slots: Vec<Option<Resident>> = Vec::new();
        let mut i: usize = 0;
        while i < SLOT_COUNT
            invariant
                i <= SLOT_COUNT,
                slots@.len() == i,
                forall|j: int| 0 <= j < i ==> slots@[j] is None,
            decreases SLOT_COUNT - i,
        {
            slots.push(None);
            i = i + 1;
        }
        let e = Engine { cfg, active: false, slots, focused: None, suspended: false };
        proof {
            assert(e@.slots =~= empty_slots());
        }
        e
    }

    /// The home slot index of `id`, if it is managed.
    fn find_win(&self, id: WinId) -> (r: Option<usize>)
        requires
            wf(self@),
        ensures
            match r {
                Some(i) => holds(self@, i as int, id) && home_index(self@, id) == i && managed(
                    self@,
                    id,
                ),
                None => !managed(self@, id),
            },
    {
        let mut i: usize = 0;
        while i < self.slots.len()
            invariant
                wf(self@),
                i <= self.slots.len(),
                forall|j: int| 0 <= j < i ==> !holds(self@, j, id),
            decreases self.slots.len() - i,
        {
            match &self.slots[i] {
                Some(r) => {
                    if r.id == id {
                        proof {
                            assert(self@.slots[i as int] == opt_view(self.slots@[i as int]));
                            lemma_home_unique(self@, i as int, id);
                        }
                        return Some(i);
                    }
                },
                None => {},
            }
            proof {
                assert(self@.slots[i as int] == opt_view(self.slots@[i as int]));
            }
            i = i + 1;
        }
        None
    }

    /// The first free slot among `prefs`.
    fn first_free(&self, prefs: &[SlotId]) -> (r: Option<SlotId>)
        requires
            wf(self@),
        ensures
            r == first_free(self@, prefs@),
    {
        let mut j: usize = 0;
        assert(prefs@.subrange(0, prefs@.len() as int) =~= prefs@);
        while j < prefs.len()
            invariant
                wf(self@),
                j <= prefs.len(),
                first_free(self@, prefs@.subrange(j as int, prefs@.len() as int)) == first_free(
                    self@,
                    prefs@,
                ),
            decreases prefs.len() - j,
        {
            let s = prefs[j];
            let ghost rest = prefs@.subrange(j as int, prefs@.len() as int);
            proof {
                assert(rest[0] == s);
                assert(rest.drop_first() =~= prefs@.subrange(j + 1, prefs@.len() as int));
            }
            if 1 <= s.0 && (s.0 as usize) < SLOT_COUNT {
                let is_free = self.slots[s.0 as usize].is_none();
                proof {
                    assert(self@.slots[s.0 as int] == opt_view(self.slots@[s.0 as int]));
                }
                if is_free {
                    return Some(s);
                }
            }
            j = j + 1;
        }
        None
    }

    /// A preferred free slot, else the first free slot center-out.
    fn pick_home(&self, prefs: &Vec<SlotId>) -> (r: Option<SlotId>)
        requires
            wf(self@),
        ensures
            r == pick_home(self@, prefs@),
    {
        match self.first_free(prefs.as_slice()) {
            Some(s) => Some(s),
            None => {
                let order = home_priority();
                self.first_free(order.as_slice())
            },
        }
    }

    /// The index of the first rule that matches the window.
    fn first_rule(&self, meta: &WindowMeta) -> (r: Option<usize>)
        ensures
            match r {
                Some(k) => first_rule(self.cfg@, meta@) == Some(k as int) && k < self.cfg.apps.len(),
                None => first_rule(self.cfg@, meta@) is None,
            },
    {
        let mut k: usize = 0;
        while k < self.cfg.apps.len()
            invariant
                k <= self.cfg.apps.len(),
                forall|j: int| 0 <= j < k ==> !spec_matches(#[trigger] self.cfg@.apps[j].matcher, meta@),
            decreases self.cfg.apps.len() - k,
        {
            let hit = self.cfg.apps[k].matcher.matches(meta);
            proof {
                assert(self.cfg@.apps[k as int] == self.cfg.apps@[k as int]@);
            }
            if hit {
                proof {
                    let c = choose|c: int|
                        0 <= c < self.cfg@.apps.len() && spec_matches(self.cfg@.apps[c].matcher, meta@)
                            && forall|j: int|
                            0 <= j < c ==> !spec_matches(#[trigger] self.cfg@.apps[j].matcher, meta@);
                    assert(0 <= k < self.cfg@.apps.len() && spec_matches(self.cfg@.apps[k as int].matcher, meta@)
                        && forall|j: int|
                        0 <= j < k ==> !spec_matches(#[trigger] self.cfg@.apps[j].matcher, meta@));
                    if c < k {
                        assert(!spec_matches(self.cfg@.apps[c].matcher, meta@));
                    }
                    if c > k {
                        assert(!spec_matches(self.cfg@.apps[k as int].matcher, meta@));
                    }
                }
                return Some(k);
            }
            k = k + 1;
        }
        None
    }

    /// A priority claim on the first preference, if one stands.
    fn claim(&self, prefs: &Vec<SlotId>, priority: bool) -> (r: Option<(SlotId, SlotId)>)
        requires
            wf(self@),
        ensures
            r == claim(self@, prefs@, priority),
    {
        if priority && prefs.len() > 0 && 1 <= prefs[0].0 && (prefs[0].0 as usize) < SLOT_COUNT {
            let p = prefs[0];
            proof {
                assert(self@.slots[p.0 as int] == opt_view(self.slots@[p.0 as int]));
            }
            match &self.slots[p.0 as usize] {
                Some(r) => {
                    if r.pinned {
                        None
                    } else {
                        match self.pick_home(&r.prefs) {
                            Some(to) => Some((p, to)),
                            None => None,
                        }
                    }
                },
                None => None,
            }
        } else {
            None
        }
    }

    /// One command per managed window, in slot order: a snap to where it
    /// belongs (`kind` 0), a flight home (1) or a release (2).
    fn each(&self, kind: u8) -> (cmds: Vec<Command>)
        requires
            wf(self@),
        ensures
            cmd_views(cmds@) == each_upto(self@, SLOT_COUNT as int, kind as int),
    {
        let mut cmds: Vec<Command> = Vec::new();
        let mut i: usize = 0;
        while i < SLOT_COUNT
            invariant
                wf(self@),
                i <= SLOT_COUNT,
                cmd_views(cmds@) == each_upto(self@, i as int, kind as int),
            decreases SLOT_COUNT - i,
        {
            let ghost before = cmds@;
            proof {
                assert(self@.slots[i as int] == opt_view(self.slots@[i as int]));
            }
            match &self.slots[i] {
                Some(r) => {
                    let c = if kind == 0 {
                        let to = match self.focused {
                            Some(f) => {
                                if f == r.id {
                                    Target::Stage(copy_opt_fit(&r.fit))
                                } else {
                                    Target::Home(SlotId(i as u8))
                                }
                            },
                            None => Target::Home(SlotId(i as u8)),
                        };
                        Command::Place { win: r.id, to, animate: false }
                    } else if kind == 1 {
                        Command::Place { win: r.id, to: Target::Home(SlotId(i as u8)), animate: true }
                    } else {
                        Command::Release(r.id)
                    };
                    cmds.push(c);
                    proof {
                        assert(cmd_views(cmds@) =~= cmd_views(before).push(c@));
                    }
                },
                None => {
                    proof {
                        assert(each_upto(self@, i + 1, kind as int) =~= each_upto(self@, i as int, kind as int));
                    }
                },
            }
            i = i + 1;
        }
        cmds
    }

    /// The window currently on the focal stage, if any.
    pub fn focused(&self) -> (f: Option<WinId>)
        ensures
            f == self@.focused,
    {
        self.focused
    }

    /// The home slot assigned to a managed window.
    pub fn home_of(&self, id: WinId) -> (s: Option<SlotId>)
        requires
            wf(self@),
        ensures
            s == spec_home_of(self@, id),
    {
        match self.find_win(id) {
            Some(i) => Some(SlotId(i as u8)),
            None => None,
        }
    }

    /// True while the layout is frozen for an overlay.
    pub fn is_suspended(&self) -> (b: bool)
        ensures
            b == self@.suspended,
    {
        self.suspended
    }

    /// True in desk mode, i.e. the engine is issuing commands.
    pub fn is_active(&self) -> (b: bool)
        ensures
            b == self@.active,
    {
        self.active
    }

    /// Read-only view of the active configuration.
    pub fn config(&self) -> (c: &Config)
        ensures
            *c == self.spec_config(),
            c@ == self@.cfg,
    {
        &self.cfg
    }

    /// Where the engine intends a managed window right now: the stage (at
    /// its fit) while it is focused, else its home. This is where the host
    /// hangs the window's frame.
    pub fn placement(&self, id: WinId) -> (t: Option<Target>)
        requires
            wf(self@),
        ensures
            match t {
                Some(x) => spec_placement(self@, id) == Some(x@),
                None => spec_placement(self@, id) is None,
            },
    {
        match self.find_win(id) {
            None => None,
            Some(i) => {
                proof {
                    assert(self@.slots[i as int] == opt_view(self.slots@[i as int]));
                }
                match &self.slots[i] {
                    Some(r) => {
                        let on_stage = match self.focused {
                            Some(f) => f == id,
                            None => false,
                        };
                        if on_stage {
                            Some(Target::Stage(copy_opt_fit(&r.fit)))
                        } else {
                            Some(Target::Home(SlotId(i as u8)))
                        }
                    },
                    None => None,
                }
            },
        }
    }

    /// Every window the engine has given a home, in slot order.
    pub fn managed(&self) -> (ids: Vec<WinId>)
        requires
            wf(self@),
        ensures
            ids@ == managed_upto(self@, SLOT_COUNT as int),
    {
        let mut ids: Vec<WinId> = Vec::new();
        let mut i: usize = 0;
        while i < SLOT_COUNT
            invariant
                wf(self@),
                i <= SLOT_COUNT,
                ids@ == managed_upto(self@, i as int),
            decreases SLOT_COUNT - i,
        {
            proof {
                assert(self@.slots[i as int] == opt_view(self.slots@[i as int]));
            }
            match &self.slots[i] {
                Some(r) => {
                    ids.push(r.id);
                    proof {
                        assert(managed_upto(self@, i + 1) =~= managed_upto(self@, i as int).push(r.id));
                    }
                },
                None => {
                    proof {
                        assert(managed_upto(self@, i + 1) =~= managed_upto(self@, i as int));
                    }
                },
            }
            i = i + 1;
        }
        ids
    }

    /// The window whose home is `slot`, if any (it may be on the stage).
    pub fn occupant(&self, slot: SlotId) -> (w: Option<WinId>)
        requires
            wf(self@),
        ensures
            w == (if slot.0 < SLOT_COUNT && self@.slots[slot.0 as int] is Some {
                Some(self@.slots[slot.0 as int]->Some_0.id)
            } else {
                None
            }),
    {
        if (slot.0 as usize) < SLOT_COUNT {
            proof {
                assert(self@.slots[slot.0 as int] == opt_view(self.slots@[slot.0 as int]));
            }
            match &self.slots[slot.0 as usize] {
                Some(r) => Some(r.id),
                None => None,
            }
        } else {
            None
        }
    }
}

/// The invariant survives any change that keeps the slots and either
/// keeps the focus or clears it.
pub proof fn lemma_wf_frame(a: EngineView, b: EngineView)
    requires
        wf(a),
        b.slots == a.slots,
        b.focused == a.focused || b.focused is None,
        !b.active ==> b.focused is None,
    ensures
        wf(b),
{
    if let Some(f) = b.focused {
        let k = home_index(a, f);
        assert(holds(a, k, f));
        assert(holds(b, k, f));
    }
}

/// The slot `first_free` finds is free.
pub proof fn lemma_first_free(v: EngineView, prefs: Seq<SlotId>)
    ensures
        first_free(v, prefs) matches Some(s) ==> free(v, s),
    decreases prefs.len(),
{
    if prefs.len() > 0 && !free(v, prefs[0]) {
        lemma_first_free(v, prefs.drop_first());
    }
}

/// The slot `pick_home` finds is free.
pub proof fn lemma_pick_home(v: EngineView, prefs: Seq<SlotId>)
    ensures
        pick_home(v, prefs) matches Some(s) ==> free(v, s),
{
    lemma_first_free(v, prefs);
    lemma_first_free(v, spec_home_priority());
}

impl Engine {
    /// Freeze or resume. Resuming re-asserts every window's position in
    /// one pass, so anything that drifted while frozen is put right.
    pub fn set_suspended(&mut self, on: bool) -> (cmds: Vec<Command>)
        requires
            wf(old(self)@),
        ensures
            wf(final(self)@),
            final(self).spec_config() == old(self).spec_config(),
            final(self)@ == spec_suspend(old(self)@, on).0,
            cmd_views(cmds@) == spec_suspend(old(self)@, on).1,
    {
        if on == self.suspended {
            return Vec::new();
        }
        self.suspended = on;
        proof {
            lemma_wf_frame(old(self)@, self@);
        }
        if on || !self.active {
            return Vec::new();
        }
        self.each(0)
    }

    /// Desk-mode transition. Entering: every managed window flies to its
    /// home, focus cleared; frozen for an overlay, nothing moves yet.
    /// Leaving: every window is released.
    fn set_active(&mut self, on: bool) -> (cmds: Vec<Command>)
        requires
            wf(old(self)@),
        ensures
            wf(final(self)@),
            final(self).cfg == old(self).cfg,
            final(self)@ == spec_desk_mode(old(self)@, on).0,
            cmd_views(cmds@) == spec_desk_mode(old(self)@, on).1,
    {
        let cmds = if !on {
            self.each(2)
        } else if self.suspended {
            Vec::new()
        } else {
            self.each(1)
        };
        self.active = on;
        self.focused = None;
        proof {
            lemma_wf_frame(old(self)@, self@);
        }
        cmds
    }

    /// Adopt a new configuration and re-place everyone under it. Home
    /// assignments, fits and focus survive: retuning the gutter must not
    /// shuffle which app lives where. Frozen for an overlay, nothing
    /// moves: resuming snaps everyone into place.
    fn on_reconfigured(&mut self, cfg: Config) -> (cmds: Vec<Command>)
        requires
            wf(old(self)@),
        ensures
            wf(final(self)@),
            final(self).cfg == cfg,
            final(self)@ == (EngineView { cfg: cfg@, ..old(self)@ }),
            cmd_views(cmds@) == replace_all(old(self)@),
    {
        let cmds = if self.active && !self.suspended {
            self.each(0)
        } else {
            Vec::new()
        };
        self.cfg = cfg;
        proof {
            lemma_wf_frame(old(self)@, self@);
        }
        cmds
    }

    /// Adopt a new screen (resolution learned at runtime, or changed by
    /// docking) and re-place every managed window to match. Frozen for an
    /// overlay, nothing moves: resuming snaps everyone into place.
    pub fn set_screen(&mut self, screen: Screen) -> (cmds: Vec<Command>)
        requires
            wf(old(self)@),
        ensures
            wf(final(self)@),
            final(self).spec_config() == (Config { screen, ..old(self).spec_config() }),
            final(self)@ == (EngineView { cfg: ConfigView { screen: screen@, ..old(self)@.cfg }, ..old(self)@ }),
            cmd_views(cmds@) == replace_all(old(self)@),
    {
        let cmds = if self.active && !self.suspended {
            self.each(0)
        } else {
            Vec::new()
        };
        self.cfg.screen = screen;
        proof {
            lemma_wf_frame(old(self)@, self@);
        }
        cmds
    }

    /// Put a window on the focal stage (shrunk to its fit) and send the
    /// previously focused window back to its own home.
    fn on_promoted(&mut self, id: WinId) -> (cmds: Vec<Command>)
        requires
            wf(old(self)@),
        ensures
            wf(final(self)@),
            final(self).cfg == old(self).cfg,
            final(self)@ == spec_promoted(old(self)@, id).0,
            cmd_views(cmds@) == spec_promoted(old(self)@, id).1,
    {
        let already = match self.focused {
            Some(f) => f == id,
            None => false,
        };
        if !self.active || self.suspended || already {
            return Vec::new();
        }
        let i = match self.find_win(id) {
            Some(i) => i,
            None => {
                return Vec::new();
            },
        };
        let mut cmds: Vec<Command> = Vec::new();
        match self.focused {
            Some(prev) => {
                match self.find_win(prev) {
                    Some(j) => {
                        cmds.push(
                            Command::Place { win: prev, to: Target::Home(SlotId(j as u8)), animate: true },
                        );
                    },
                    None => {},
                }
            },
            None => {},
        }
        let ghost before = cmds@;
        proof {
            assert(self@.slots[i as int] == opt_view(self.slots@[i as int]));
        }
        let fit = match &self.slots[i] {
            Some(r) => copy_opt_fit(&r.fit),
            None => None,
        };
        let c = Command::Place { win: id, to: Target::Stage(fit), animate: true };
        cmds.push(c);
        self.focused = Some(id);
        proof {
            assert(holds(self@, i as int, id));
            assert(cmd_views(cmds@) =~= cmd_views(before).push(c@));
            assert(cmd_views(before) =~= match old(self)@.focused {
                Some(prev) => seq![fly_home(prev, SlotId(home_index(old(self)@, prev) as u8))],
                None => Seq::<CommandView>::empty(),
            });
        }
        cmds
    }

    /// The dwell timer fired for a window the user is merely *in*: a
    /// promotion while dwell is on, nothing at all while it is off.
    pub fn on_dwelled(&mut self, id: WinId) -> (cmds: Vec<Command>)
        requires
            wf(old(self)@),
        ensures
            wf(final(self)@),
            final(self).spec_config() == old(self).spec_config(),
            final(self)@ == spec_dwelled(old(self).spec_config().dwell_ms, old(self)@, id).0,
            cmd_views(cmds@) == spec_dwelled(old(self).spec_config().dwell_ms, old(self)@, id).1,
    {
        if !self.cfg.dwell_enabled() {
            return Vec::new();
        }
        self.on_promoted(id)
    }

    /// Empty the stage: the focused window flies home; nothing focused.
    fn on_clear_stage(&mut self) -> (cmds: Vec<Command>)
        requires
            wf(old(self)@),
        ensures
            wf(final(self)@),
            final(self).cfg == old(self).cfg,
            final(self)@ == spec_clear_stage(old(self)@).0,
            cmd_views(cmds@) == spec_clear_stage(old(self)@).1,
    {
        if self.suspended {
            return Vec::new();
        }
        match self.focused {
            None => Vec::new(),
            Some(f) => {
                let j = match self.find_win(f) {
                    Some(j) => j,
                    None => {
                        return Vec::new();
                    },
                };
                self.focused = None;
                proof {
                    lemma_wf_frame(old(self)@, self@);
                }
                let c = Command::Place { win: f, to: Target::Home(SlotId(j as u8)), animate: true };
                let mut cmds: Vec<Command> = Vec::new();
                cmds.push(c);
                proof {
                    assert(cmd_views(cmds@) =~= seq![c@]);
                }
                cmds
            },
        }
    }

    /// Forget a closed window and free its slot for reuse.
    fn on_closed(&mut self, id: WinId) -> (cmds: Vec<Command>)
        requires
            wf(old(self)@),
        ensures
            wf(final(self)@),
            final(self).cfg == old(self).cfg,
            final(self)@ == spec_closed(old(self)@, id),
            cmds@.len() == 0,
    {
        match self.find_win(id) {
            Some(i) => {
                self.slots.set(i, None);
                proof {
                    assert(self@.slots =~= old(self)@.slots.update(i as int, None));
                }
            },
            None => {},
        }
        let was = match self.focused {
            Some(f) => f == id,
            None => false,
        };
        if was {
            self.focused = None;
        }
        proof {
            let v = self@;
            assert forall|i: int, j: int|
                0 <= i < v.slots.len() && 0 <= j < v.slots.len() && v.slots[i] is Some
                    && v.slots[j] is Some && v.slots[i]->Some_0.id == v.slots[j]->Some_0.id implies i
                == j by {
                assert(old(self)@.slots[i] is Some && old(self)@.slots[j] is Some);
            }
            match v.focused {
                Some(f) => {
                    let k = home_index(old(self)@, f);
                    assert(holds(old(self)@, k, f));
                    assert(holds(v, k, f));
                },
                None => {},
            }
        }
        Vec::new()
    }
}

impl Engine {
    /// Adopt a new window: home = the first free slot among its rule's
    /// preferences, else the first free slot center-out; with `priority`
    /// the first preference is claimed even when held, and its holder
    /// moves to its own next free preference (or the fallback), unless it
    /// was placed by hand. With no free slot the window floats. A window
    /// already managed keeps its home, and nothing is commanded.
    fn on_opened(&mut self, id: WinId, meta: WindowMeta) -> (cmds: Vec<Command>)
        requires
            wf(old(self)@),
        ensures
            wf(final(self)@),
            final(self).cfg == old(self).cfg,
            final(self)@ == spec_opened(old(self).cfg@, old(self)@, id, meta@).0,
            cmd_views(cmds@) == spec_opened(old(self).cfg@, old(self)@, id, meta@).1,
    {
        let mut cmds: Vec<Command> = Vec::new();
        if self.cfg.is_ignored(&meta) {
            let c = Command::Release(id);
            cmds.push(c);
            proof {
                assert(cmd_views(cmds@) =~= seq![c@]);
            }
            return cmds;
        }
        if self.find_win(id).is_some() {
            return cmds;
        }
        let ghost v = self@;
        let ghost rule = first_rule(self.cfg@, meta@);
        let (fit, prefs, priority) = match self.first_rule(&meta) {
            Some(k) => {
                proof {
                    assert(self.cfg@.apps[k as int] == self.cfg.apps@[k as int]@);
                }
                (
                    copy_opt_fit(&self.cfg.apps[k].focal_fit),
                    copy_slots(&self.cfg.apps[k].slots),
                    self.cfg.apps[k].priority,
                )
            },
            None => (None, Vec::new(), false),
        };
        let ghost me = ResidentView { id, fit: fit_view(fit), prefs: prefs@, pinned: false };
        proof {
            match rule {
                Some(k) => {
                    assert(me == ResidentView {
                        id,
                        fit: self.cfg@.apps[k].focal_fit,
                        prefs: self.cfg@.apps[k].slots,
                        pinned: false,
                    });
                },
                None => {
                    assert(me == ResidentView { id, fit: None, prefs: Seq::empty(), pinned: false });
                },
            }
        }
        let moving = self.active && !self.suspended;
        match self.claim(&prefs, priority) {
            Some((p, to)) => {
                proof {
                    lemma_pick_home(v, v.slots[p.0 as int]->Some_0.prefs);
                    assert(v.slots[p.0 as int] == opt_view(self.slots@[p.0 as int]));
                }
                let mut taken: Option<Resident> = None;
                self.slots.set_and_swap(p.0 as usize, &mut taken);
                let other_id = match &taken {
                    Some(r) => r.id,
                    None => 0,
                };
                let ghost other = opt_view(taken)->Some_0;
                self.slots.set(to.0 as usize, taken);
                let mine = Resident { id, fit, prefs, pinned: false };
                self.slots.set(p.0 as usize, Some(mine));
                proof {
                    assert(self@.slots =~= v.slots.update(to.0 as int, Some(other)).update(
                        p.0 as int,
                        Some(me),
                    ));
                    Self::lemma_opened_wf(self@, v, id, p.0 as int, to.0 as int);
                }
                let other_focused = match self.focused {
                    Some(f) => f == other_id,
                    None => false,
                };
                if moving && !other_focused {
                    let c = Command::Place { win: other_id, to: Target::Home(to), animate: true };
                    cmds.push(c);
                    proof {
                        assert(cmd_views(cmds@) =~= seq![c@]);
                    }
                }
                let ghost first = cmds@;
                if moving {
                    let c = Command::Place { win: id, to: Target::Home(p), animate: true };
                    cmds.push(c);
                    proof {
                        assert(cmd_views(cmds@) =~= cmd_views(first) + seq![c@]);
                    }
                } else {
                    proof {
                        assert(cmd_views(cmds@) =~= cmd_views(first) + Seq::<CommandView>::empty());
                    }
                }
            },
            None => {
                match self.pick_home(&prefs) {
                    None => {
                        let c = Command::Release(id);
                        cmds.push(c);
                        proof {
                            assert(cmd_views(cmds@) =~= seq![c@]);
                        }
                    },
                    Some(s) => {
                        proof {
                            lemma_pick_home(v, prefs@);
                        }
                        let mine = Resident { id, fit, prefs, pinned: false };
                        self.slots.set(s.0 as usize, Some(mine));
                        proof {
                            assert(self@.slots =~= v.slots.update(s.0 as int, Some(me)));
                            Self::lemma_placed_wf(self@, v, id, s.0 as int);
                        }
                        if moving {
                            let c = Command::Place { win: id, to: Target::Home(s), animate: true };
                            cmds.push(c);
                            proof {
                                assert(cmd_views(cmds@) =~= seq![c@]);
                            }
                        }
                    },
                }
            },
        }
        cmds
    }

    /// Putting a new window into a free home slot keeps the invariant.
    proof fn lemma_placed_wf(w: EngineView, v: EngineView, id: WinId, s: int)
        requires
            wf(v),
            !managed(v, id),
            1 <= s < SLOT_COUNT,
            v.slots[s] is None,
            w.slots == v.slots.update(s, w.slots[s]),
            w.slots[s] is Some,
            w.slots[s]->Some_0.id == id,
            w.focused == v.focused,
            w.active == v.active,
        ensures
            wf(w),
    {
        assert forall|i: int, j: int|
            0 <= i < w.slots.len() && 0 <= j < w.slots.len() && w.slots[i] is Some && w.slots[j] is Some
                && w.slots[i]->Some_0.id == w.slots[j]->Some_0.id implies i == j by {
            if i != s && j != s {
                assert(v.slots[i] is Some && v.slots[j] is Some);
            } else if i == s && j != s {
                assert(holds(v, j, id));
            } else if j == s && i != s {
                assert(holds(v, i, id));
            }
        }
        if let Some(f) = w.focused {
            let k = home_index(v, f);
            assert(holds(v, k, f));
            assert(holds(w, k, f));
        }
    }

    /// A priority claim keeps the invariant: the holder of `p` moves to
    /// the free slot `to`, and the new window takes `p`.
    proof fn lemma_opened_wf(w: EngineView, v: EngineView, id: WinId, p: int, to: int)
        requires
            wf(v),
            !managed(v, id),
            1 <= p < SLOT_COUNT,
            1 <= to < SLOT_COUNT,
            v.slots[p] is Some,
            v.slots[to] is None,
            w.slots == v.slots.update(to, v.slots[p]).update(p, w.slots[p]),
            w.slots[p] is Some,
            w.slots[p]->Some_0.id == id,
            w.focused == v.focused,
            w.active == v.active,
        ensures
            wf(w),
    {
        let other = v.slots[p]->Some_0.id;
        assert(p != to);
        assert forall|i: int, j: int|
            0 <= i < w.slots.len() && 0 <= j < w.slots.len() && w.slots[i] is Some && w.slots[j] is Some
                && w.slots[i]->Some_0.id == w.slots[j]->Some_0.id implies i == j by {
            let vi = if i == to {
                p
            } else {
                i
            };
            let vj = if j == to {
                p
            } else {
                j
            };
            if i != p && j != p {
                assert(v.slots[vi] is Some && v.slots[vj] is Some);
            } else if i == p && j != p {
                assert(holds(v, vj, id));
            } else if j == p && i != p {
                assert(holds(v, vi, id));
            }
        }
        if let Some(f) = w.focused {
            let k = home_index(v, f);
            assert(holds(v, k, f));
            if k == p {
                assert(holds(w, to, f));
            } else {
                assert(holds(w, k, f));
            }
        }
    }

    /// Manual placement: the user dragged a window's frame onto `slot`.
    /// The focal slot is a promote. Any other slot becomes the window's
    /// new home, and the window is pinned there against every rule; a slot
    /// that belongs to another window swaps the two homes, the bystander
    /// flying to the mover's old slot (unless it is on the stage).
    fn on_move_to(&mut self, id: WinId, slot: SlotId) -> (cmds: Vec<Command>)
        requires
            wf(old(self)@),
        ensures
            wf(final(self)@),
            final(self).cfg == old(self).cfg,
            final(self)@ == spec_move_to(old(self)@, id, slot).0,
            cmd_views(cmds@) == spec_move_to(old(self)@, id, slot).1,
    {
        let mut cmds: Vec<Command> = Vec::new();
        if !self.active || self.suspended || slot.0 as usize >= SLOT_COUNT {
            return cmds;
        }
        let old = match self.find_win(id) {
            Some(i) => i,
            None => {
                return cmds;
            },
        };
        if slot.0 == 0 {
            return self.on_promoted(id);
        }
        let ghost v = self@;
        let was_focused = match self.focused {
            Some(f) => f == id,
            None => false,
        };
        if slot.0 as usize == old {
            if !was_focused {
                return cmds;
            }
            self.focused = None;
            proof {
                lemma_wf_frame(v, self@);
            }
            let c = Command::Place { win: id, to: Target::Home(slot), animate: true };
            cmds.push(c);
            proof {
                assert(cmd_views(cmds@) =~= seq![c@]);
            }
            return cmds;
        }
        proof {
            assert(v.slots[old as int] == opt_view(self.slots@[old as int]));
            assert(v.slots[slot.0 as int] == opt_view(self.slots@[slot.0 as int]));
        }
        let mut mine: Option<Resident> = None;
        self.slots.set_and_swap(old, &mut mine);
        let mut other: Option<Resident> = None;
        self.slots.set_and_swap(slot.0 as usize, &mut other);
        let ghost other_v = opt_view(other);
        let other_id = match &other {
            Some(r) => Some(r.id),
            None => None,
        };
        self.slots.set(old, other);
        let moved = match mine {
            Some(r) => Resident { pinned: true, ..r },
            None => Resident { id, fit: None, prefs: Vec::new(), pinned: true },
        };
        let ghost me = moved@;
        self.slots.set(slot.0 as usize, Some(moved));
        if was_focused {
            self.focused = None;
        }
        proof {
            assert(me == ResidentView { pinned: true, ..resident(v, id) });
            assert(self@.slots =~= v.slots.update(old as int, other_v).update(slot.0 as int, Some(me)));
            Self::lemma_moved_wf(self@, v, id, old as int, slot.0 as int);
        }
        match other_id {
            Some(o) => {
                let bystander_focused = match self.focused {
                    Some(f) => f == o,
                    None => false,
                };
                if !bystander_focused {
                    let c = Command::Place { win: o, to: Target::Home(SlotId(old as u8)), animate: true };
                    cmds.push(c);
                    proof {
                        assert(cmd_views(cmds@) =~= seq![c@]);
                    }
                }
            },
            None => {},
        }
        let ghost first = cmds@;
        let c = Command::Place { win: id, to: Target::Home(slot), animate: true };
        cmds.push(c);
        proof {
            assert(cmd_views(cmds@) =~= cmd_views(first).push(c@));
        }
        cmds
    }

    /// Re-homing a window (and swapping a bystander into its old slot)
    /// keeps the invariant.
    proof fn lemma_moved_wf(w: EngineView, v: EngineView, id: WinId, old: int, s: int)
        requires
            wf(v),
            holds(v, old, id),
            1 <= s < SLOT_COUNT,
            old != s,
            w.slots == v.slots.update(old, v.slots[s]).update(s, w.slots[s]),
            w.slots[s] is Some,
            w.slots[s]->Some_0.id == id,
            w.focused == v.focused || w.focused is None,
            w.focused == Some(id) ==> false,
            v.focused != Some(id) ==> w.focused == v.focused,
            w.active == v.active,
        ensures
            wf(w),
    {
        assert(old != 0);
        assert forall|i: int, j: int|
            0 <= i < w.slots.len() && 0 <= j < w.slots.len() && w.slots[i] is Some && w.slots[j] is Some
                && w.slots[i]->Some_0.id == w.slots[j]->Some_0.id implies i == j by {
            let vi = if i == old {
                s
            } else if i == s {
                old
            } else {
                i
            };
            let vj = if j == old {
                s
            } else if j == s {
                old
            } else {
                j
            };
            assert(v.slots[vi] is Some && v.slots[vj] is Some);
        }
        if let Some(f) = w.focused {
            let k = home_index(v, f);
            assert(holds(v, k, f));
            if k == s {
                assert(holds(w, old, f));
            } else {
                assert(k != old);
                assert(holds(w, k, f));
            }
        }
    }

    /// The single entry point: one event in, the commands it calls for out.
    pub fn handle(&mut self, ev: Event) -> (cmds: Vec<Command>)
        requires
            wf(old(self)@),
        ensures
            wf(final(self)@),
            match ev {
                Event::Opened(id, meta) => {
                    &&& final(self).spec_config() == old(self).spec_config()
                    &&& final(self)@ == spec_opened(old(self).spec_config()@, old(self)@, id, meta@).0
                    &&& cmd_views(cmds@) == spec_opened(old(self).spec_config()@, old(self)@, id, meta@).1
                },
                Event::Promoted(id) => {
                    &&& final(self).spec_config() == old(self).spec_config()
                    &&& final(self)@ == spec_promoted(old(self)@, id).0
                    &&& cmd_views(cmds@) == spec_promoted(old(self)@, id).1
                },
                Event::Dwelled(id) => {
                    &&& final(self).spec_config() == old(self).spec_config()
                    &&& final(self)@ == spec_dwelled(old(self).spec_config().dwell_ms, old(self)@, id).0
                    &&& cmd_views(cmds@) == spec_dwelled(old(self).spec_config().dwell_ms, old(self)@, id).1
                },
                Event::MoveTo(id, slot) => {
                    &&& final(self).spec_config() == old(self).spec_config()
                    &&& final(self)@ == spec_move_to(old(self)@, id, slot).0
                    &&& cmd_views(cmds@) == spec_move_to(old(self)@, id, slot).1
                },
                Event::Closed(id) => {
                    &&& final(self).spec_config() == old(self).spec_config()
                    &&& final(self)@ == spec_closed(old(self)@, id)
                    &&& cmds@.len() == 0
                },
                Event::ClearStage => {
                    &&& final(self).spec_config() == old(self).spec_config()
                    &&& final(self)@ == spec_clear_stage(old(self)@).0
                    &&& cmd_views(cmds@) == spec_clear_stage(old(self)@).1
                },
                Event::DeskMode(on) => {
                    &&& final(self).spec_config() == old(self).spec_config()
                    &&& final(self)@ == spec_desk_mode(old(self)@, on).0
                    &&& cmd_views(cmds@) == spec_desk_mode(old(self)@, on).1
                },
                Event::Suspend(on) => {
                    &&& final(self).spec_config() == old(self).spec_config()
                    &&& final(self)@ == spec_suspend(old(self)@, on).0
                    &&& cmd_views(cmds@) == spec_suspend(old(self)@, on).1
                },
                Event::Reconfigured(cfg) => {
                    &&& final(self).spec_config() == cfg
                    &&& final(self)@ == (EngineView { cfg: cfg@, ..old(self)@ })
                    &&& cmd_views(cmds@) == replace_all(old(self)@)
                },
            },
    {
        match ev {
            Event::DeskMode(on) => self.set_active(on),
            Event::Opened(id, meta) => self.on_opened(id, meta),
            Event::Promoted(id) => self.on_promoted(id),
            Event::Dwelled(id) => self.on_dwelled(id),
            Event::MoveTo(id, slot) => self.on_move_to(id, slot),
            Event::Closed(id) => self.on_closed(id),
            Event::ClearStage => self.on_clear_stage(),
            Event::Suspend(on) => self.set_suspended(on),
            Event::Reconfigured(cfg) => self.on_reconfigured(cfg),
        }
    }
}

// ---- laws ----------------------------------------------------------------

/// No command in the list places a window.
pub open spec fn no_place(c: Seq<CommandView>) -> bool {
    forall|i: int| 0 <= i < c.len() ==> !(c[i] is Place)
}

/// With every home slot held, no list of preferences finds a free slot.
proof fn lemma_full_has_no_free(v: EngineView, prefs: Seq<SlotId>)
    requires
        v.slots.len() == SLOT_COUNT,
        forall|i: int| 1 <= i < SLOT_COUNT ==> v.slots[i] is Some,
    ensures
        first_free(v, prefs) is None,
        pick_home(v, prefs) is None,
    decreases prefs.len(),
{
    if prefs.len() > 0 {
        lemma_full_has_no_free(v, prefs.drop_first());
    }
    lemma_full_has_no_free_order(v, spec_home_priority());
}

/// With every home slot held, the center-out order finds no free slot.
proof fn lemma_full_has_no_free_order(v: EngineView, prefs: Seq<SlotId>)
    requires
        v.slots.len() == SLOT_COUNT,
        forall|i: int| 1 <= i < SLOT_COUNT ==> v.slots[i] is Some,
    ensures
        first_free(v, prefs) is None,
    decreases prefs.len(),
{
    if prefs.len() > 0 {
        lemma_full_has_no_free_order(v, prefs.drop_first());
    }
}

/// Promotion and clearing the stage never re-home anything: every
/// window keeps its home slot, and a displaced window is sent back to its
/// own home — never to someone else's slot (the muscle-memory promise).
pub proof fn law_promotion_keeps_homes(v: EngineView, id: WinId)
    requires
        wf(v),
    ensures
        spec_promoted(v, id).0.slots == v.slots,
        spec_clear_stage(v).0.slots == v.slots,
        v.active && !v.suspended && managed(v, id) && v.focused != Some(id) ==> {
            &&& spec_promoted(v, id).0.focused == Some(id)
            &&& spec_promoted(v, id).1.last() == fly_stage(id, resident(v, id).fit)
            &&& (v.focused matches Some(prev) ==> spec_promoted(v, id).1 == seq![
                fly_home(prev, spec_home_of(v, prev)->Some_0),
                fly_stage(id, resident(v, id).fit),
            ])
        },
{
}

/// Asking for the window that is already on the stage moves nothing.
pub proof fn law_refocus_is_noop(v: EngineView, id: WinId)
    requires
        v.focused == Some(id),
    ensures
        spec_promoted(v, id) == (v, Seq::<CommandView>::empty()),
{
}

/// Outside desk mode, and while frozen for an overlay, neither a
/// promotion nor a drag does anything.
pub proof fn law_inactive_or_frozen_ignores_gestures(v: EngineView, id: WinId, s: SlotId)
    requires
        !v.active || v.suspended,
    ensures
        spec_promoted(v, id) == (v, Seq::<CommandView>::empty()),
        spec_move_to(v, id, s) == (v, Seq::<CommandView>::empty()),
{
}

/// While the layout is frozen for an overlay, nothing is placed for any
/// event but the unfreeze itself, and the layout stays frozen: a new
/// window is adopted silently, a promotion, a dwell, a drag or a stage
/// clear does nothing, closing a window only forgets it, entering desk
/// mode and a config or screen change place nothing, leaving desk mode
/// only releases, and freezing again is a no-op.
pub proof fn law_frozen_means_still(
    cfg: ConfigView,
    v: EngineView,
    id: WinId,
    meta: WindowMetaView,
    s: SlotId,
    on: bool,
    dwell_ms: u64,
)
    requires
        v.suspended,
    ensures
        no_place(spec_opened(cfg, v, id, meta).1),
        spec_opened(cfg, v, id, meta).0.suspended,
        spec_promoted(v, id) == (v, Seq::<CommandView>::empty()),
        spec_dwelled(dwell_ms, v, id) == (v, Seq::<CommandView>::empty()),
        spec_move_to(v, id, s) == (v, Seq::<CommandView>::empty()),
        spec_closed(v, id).suspended,
        spec_clear_stage(v) == (v, Seq::<CommandView>::empty()),
        no_place(spec_desk_mode(v, on).1),
        spec_desk_mode(v, on).0.suspended,
        spec_suspend(v, true) == (v, Seq::<CommandView>::empty()),
        replace_all(v).len() == 0,
{
    let c = spec_desk_mode(v, on).1;
    if !on {
        assert forall|k: int| 0 <= k < c.len() implies !(c[k] is Place) by {
            lemma_each_upto_from(v, v.slots.len() as int, 2, k);
        }
    }
}

/// A dwell is a promotion while dwell is on, and nothing at all while it
/// is off.
pub proof fn law_dwell_promotes_only_with_dwell(v: EngineView, id: WinId, dwell_ms: u64)
    ensures
        dwell_ms == 0 ==> spec_dwelled(dwell_ms, v, id) == (v, Seq::<CommandView>::empty()),
        dwell_ms > 0 ==> spec_dwelled(dwell_ms, v, id) == spec_promoted(v, id),
{
}

/// The slot preferences of the rule a window opens under: those of the
/// first matching rule, none without one.
pub open spec fn rule_slots(cfg: ConfigView, meta: WindowMetaView) -> Seq<SlotId> {
    match first_rule(cfg, meta) {
        Some(k) => cfg.apps[k].slots,
        None => Seq::empty(),
    }
}

/// The stage fit of the rule a window opens under.
pub open spec fn rule_fit(cfg: ConfigView, meta: WindowMetaView) -> Option<FitView> {
    match first_rule(cfg, meta) {
        Some(k) => cfg.apps[k].focal_fit,
        None => None,
    }
}

/// A new window remembers the rule it opened under: wherever it is given
/// a home, its record holds that rule's slot preferences (which decide
/// where it goes if a priority rule ever claims its slot) and stage fit,
/// and it counts as placed by a rule, not by hand.
pub proof fn law_opened_remembers_its_rule(cfg: ConfigView, v: EngineView, id: WinId, meta: WindowMetaView, s: int)
    requires
        wf(v),
        !managed(v, id),
        holds(spec_opened(cfg, v, id, meta).0, s, id),
    ensures
        spec_opened(cfg, v, id, meta).0.slots[s]->Some_0 == (ResidentView {
            id,
            fit: rule_fit(cfg, meta),
            prefs: rule_slots(cfg, meta),
            pinned: false,
        }),
{
    let n = spec_opened(cfg, v, id, meta).0;
    if spec_is_ignored(cfg, meta) {
        assert(holds(v, s, id));
        assert(managed(v, id));
    } else {
        let prefs = rule_slots(cfg, meta);
        let priority = match first_rule(cfg, meta) {
            Some(k) => cfg.apps[k].priority,
            None => false,
        };
        match claim(v, prefs, priority) {
            Some((p, to)) => {
                lemma_pick_home(v, v.slots[p.0 as int]->Some_0.prefs);
                let me = ResidentView { id, fit: rule_fit(cfg, meta), prefs, pinned: false };
                let other = v.slots[p.0 as int]->Some_0;
                assert(n.slots == v.slots.update(to.0 as int, Some(other)).update(p.0 as int, Some(me)));
                if s != p.0 {
                    if s == to.0 {
                        assert(holds(v, p.0 as int, id));
                    } else {
                        assert(holds(v, s, id));
                    }
                    assert(managed(v, id));
                }
            },
            None => match pick_home(v, prefs) {
                None => {
                    assert(n == v);
                    assert(holds(v, s, id));
                    assert(managed(v, id));
                },
                Some(h) => {
                    lemma_pick_home(v, prefs);
                    let me = ResidentView { id, fit: rule_fit(cfg, meta), prefs, pinned: false };
                    assert(n.slots == v.slots.update(h.0 as int, Some(me)));
                    if s != h.0 {
                        assert(n.slots[s] == v.slots[s]);
                        assert(holds(v, s, id));
                        assert(managed(v, id));
                    }
                },
            },
        }
    }
}

/// A priority rule claims its first preferred slot from a window not
/// placed by hand: the new window takes that slot, and the window it
/// displaces moves to the first free slot among its own rule's
/// preferences, else the first free slot center-out; every other slot
/// keeps its window.
pub proof fn law_priority_claim_rehomes_by_preference(
    cfg: ConfigView,
    v: EngineView,
    id: WinId,
    meta: WindowMetaView,
)
    requires
        wf(v),
        !managed(v, id),
        !spec_is_ignored(cfg, meta),
        first_rule(cfg, meta) matches Some(k) && cfg.apps[k].priority,
        rule_slots(cfg, meta).len() > 0,
        1 <= rule_slots(cfg, meta)[0].0 < SLOT_COUNT,
        v.slots[rule_slots(cfg, meta)[0].0 as int] matches Some(x) && !x.pinned,
        pick_home(v, v.slots[rule_slots(cfg, meta)[0].0 as int]->Some_0.prefs) is Some,
    ensures
        ({
            let p = rule_slots(cfg, meta)[0].0 as int;
            let x = v.slots[p]->Some_0;
            let to = pick_home(v, x.prefs)->Some_0.0 as int;
            let n = spec_opened(cfg, v, id, meta).0;
            &&& holds(n, p, id)
            &&& n.slots[to] == Some(x)
            &&& to == (match first_free(v, x.prefs) {
                Some(f) => f.0 as int,
                None => first_free(v, spec_home_priority())->Some_0.0 as int,
            })
            &&& forall|j: int| 0 <= j < SLOT_COUNT && j != p && j != to ==> n.slots[j] == v.slots[j]
        }),
{
    let p = rule_slots(cfg, meta)[0].0 as int;
    let x = v.slots[p]->Some_0;
    lemma_pick_home(v, x.prefs);
    let to = pick_home(v, x.prefs)->Some_0.0 as int;
    assert(to != p);
}

/// A window the engine already manages keeps its home when it is
/// reported again: a home changes only by a drag or a priority claim, and
/// a slot is held by the window whose home it is and by nothing else.
pub proof fn law_reopen_keeps_home(cfg: ConfigView, v: EngineView, id: WinId, meta: WindowMetaView)
    requires
        managed(v, id),
        !spec_is_ignored(cfg, meta),
    ensures
        spec_opened(cfg, v, id, meta) == (v, Seq::<CommandView>::empty()),
{
}

/// A thirteenth window floats: with every home slot held, a new window
/// is released and nothing else changes — nothing is displaced, even by
/// a priority rule.
pub proof fn law_thirteenth_window_floats(cfg: ConfigView, v: EngineView, id: WinId, meta: WindowMetaView)
    requires
        wf(v),
        forall|i: int| 1 <= i < SLOT_COUNT ==> v.slots[i] is Some,
        !managed(v, id),
        !spec_is_ignored(cfg, meta),
    ensures
        spec_opened(cfg, v, id, meta) == (v, seq![CommandView::Release(id)]),
{
    let prefs = match first_rule(cfg, meta) {
        Some(k) => cfg.apps[k].slots,
        None => Seq::empty(),
    };
    lemma_full_has_no_free(v, prefs);
    if prefs.len() > 0 && 1 <= prefs[0].0 < SLOT_COUNT && v.slots[prefs[0].0 as int] is Some {
        lemma_full_has_no_free(v, v.slots[prefs[0].0 as int]->Some_0.prefs);
    }
}

/// Ignored windows (capture overlays, shell surfaces) are never adopted:
/// they are released and the engine does not change, so they can never
/// take the stage either.
pub proof fn law_ignored_never_adopted(cfg: ConfigView, v: EngineView, id: WinId, meta: WindowMetaView)
    requires
        spec_is_ignored(cfg, meta),
    ensures
        spec_opened(cfg, v, id, meta) == (v, seq![CommandView::Release(id)]),
{
}

/// A window placed by hand keeps its home against every rule: opening
/// another window never moves it.
pub proof fn law_pinned_window_stays(cfg: ConfigView, v: EngineView, id: WinId, meta: WindowMetaView, i: int)
    requires
        wf(v),
        0 <= i < SLOT_COUNT,
        v.slots[i] is Some,
        v.slots[i]->Some_0.pinned,
    ensures
        spec_opened(cfg, v, id, meta).0.slots[i] == v.slots[i],
{
    let prefs = match first_rule(cfg, meta) {
        Some(k) => cfg.apps[k].slots,
        None => Seq::empty(),
    };
    lemma_pick_home(v, prefs);
    if prefs.len() > 0 && 1 <= prefs[0].0 < SLOT_COUNT && v.slots[prefs[0].0 as int] is Some {
        lemma_pick_home(v, v.slots[prefs[0].0 as int]->Some_0.prefs);
    }
}

/// Dragging a window onto another window's home swaps exactly those two
/// homes and pins the mover there; every other window keeps its home.
pub proof fn law_drag_swaps_two_homes(v: EngineView, id: WinId, s: SlotId)
    requires
        wf(v),
        v.active,
        !v.suspended,
        managed(v, id),
        1 <= s.0 < SLOT_COUNT,
        s.0 != home_index(v, id),
        v.slots[s.0 as int] is Some,
    ensures
        ({
            let n = spec_move_to(v, id, s).0;
            let old = home_index(v, id);
            &&& holds(n, s.0 as int, id)
            &&& n.slots[s.0 as int]->Some_0.pinned
            &&& n.slots[old] == v.slots[s.0 as int]
            &&& forall|k: int| 0 <= k < SLOT_COUNT && k != old && k != s.0 ==> n.slots[k] == v.slots[k]
        }),
{
    assert(holds(v, home_index(v, id), id));
}

/// Closing a window forgets it and frees its home for the next window.
pub proof fn law_closing_frees_the_slot(v: EngineView, id: WinId)
    requires
        wf(v),
        managed(v, id),
    ensures
        !managed(spec_closed(v, id), id),
        spec_closed(v, id).slots[home_index(v, id)] is None,
        spec_closed(v, id).focused != Some(id),
{
    let k = home_index(v, id);
    assert(holds(v, k, id));
    let n = spec_closed(v, id);
    if managed(n, id) {
        let j = choose|j: int| holds(n, j, id);
        assert(j != k);
        assert(holds(v, j, id));
        assert(v.slots[j] is Some && v.slots[k] is Some);
    }
}

/// The command `each_upto` issues for the window in slot `i`.
pub open spec fn each_cmd(v: EngineView, i: int, r: ResidentView, kind: int) -> CommandView {
    if kind == 0 {
        snap_to(v, i, r)
    } else if kind == 1 {
        fly_home(r.id, SlotId(i as u8))
    } else {
        CommandView::Release(r.id)
    }
}

/// `each_upto` issues one command for every window among its slots.
proof fn lemma_each_upto_covers(v: EngineView, n: int, kind: int, i: int)
    requires
        0 <= i < n <= v.slots.len(),
        v.slots[i] is Some,
    ensures
        each_upto(v, n, kind).contains(each_cmd(v, i, v.slots[i]->Some_0, kind)),
    decreases n,
{
    let c = each_cmd(v, i, v.slots[i]->Some_0, kind);
    if i == n - 1 {
        let prev = each_upto(v, n - 1, kind);
        assert(each_upto(v, n, kind) == prev + seq![c]);
        assert(each_upto(v, n, kind)[prev.len() as int] == c);
    } else {
        lemma_each_upto_covers(v, n - 1, kind, i);
        let prev = each_upto(v, n - 1, kind);
        let k = choose|k: int| 0 <= k < prev.len() && prev[k] == c;
        assert(each_upto(v, n, kind)[k] == c);
    }
}

/// The re-assert pass of `each_upto` issues only snapped placements.
proof fn lemma_each_upto_snaps(v: EngineView, n: int)
    requires
        0 <= n <= v.slots.len(),
    ensures
        forall|k: int|
            0 <= k < each_upto(v, n, 0).len() ==> (#[trigger] each_upto(v, n, 0)[k] matches CommandView::Place {
                animate,
                ..
            } && !animate),
    decreases n,
{
    if n > 0 {
        lemma_each_upto_snaps(v, n - 1);
        let prev = each_upto(v, n - 1, 0);
        assert forall|k: int| 0 <= k < each_upto(v, n, 0).len() implies (#[trigger] each_upto(
            v,
            n,
            0,
        )[k] matches CommandView::Place { animate, .. } && !animate) by {
            if k < prev.len() {
                assert(each_upto(v, n, 0)[k] == prev[k]);
            }
        }
    }
}

/// Leaving desk mode hands every managed window back (one release
/// each) and empties the stage; entering it, unless frozen for an
/// overlay, flies every window home.
pub proof fn law_undock_releases_everything(v: EngineView, id: WinId)
    requires
        wf(v),
        managed(v, id),
    ensures
        spec_desk_mode(v, false).1.contains(CommandView::Release(id)),
        spec_desk_mode(v, false).0.focused is None,
        spec_desk_mode(v, false).0.slots == v.slots,
        !v.suspended ==> spec_desk_mode(v, true).1.contains(fly_home(id, spec_home_of(v, id)->Some_0)),
{
    let k = home_index(v, id);
    assert(holds(v, k, id));
    lemma_each_upto_covers(v, SLOT_COUNT as int, 2, k);
    lemma_each_upto_covers(v, SLOT_COUNT as int, 1, k);
}

/// When the overlay closes, every managed window is put back where it
/// belongs in one pass — the focused one on the stage at its fit, the
/// rest at home — and nothing is animated.
pub proof fn law_resume_reasserts_everyone(v: EngineView, id: WinId)
    requires
        wf(v),
        v.active,
        v.suspended,
        managed(v, id),
    ensures
        ({
            let (n, c) = spec_suspend(v, false);
            &&& !n.suspended
            &&& n.slots == v.slots
            &&& c.contains(
                CommandView::Place {
                    win: id,
                    to: if v.focused == Some(id) {
                        TargetView::Stage(resident(v, id).fit)
                    } else {
                        TargetView::Home(spec_home_of(v, id)->Some_0)
                    },
                    animate: false,
                },
            )
            &&& forall|k: int| 0 <= k < c.len() ==> (#[trigger] c[k] matches CommandView::Place {
                animate,
                ..
            } && !animate)
        }),
{
    let k = home_index(v, id);
    assert(holds(v, k, id));
    let n = spec_suspend(v, false).0;
    assert(n.slots == v.slots);
    lemma_each_upto_covers(n, SLOT_COUNT as int, 0, k);
    lemma_each_upto_snaps(n, SLOT_COUNT as int);
}

/// The snapped placement of each window of `ids`, in order, where `v`
/// says it belongs.
pub open spec fn snaps_of(v: EngineView, ids: Seq<WinId>) -> Seq<CommandView> {
    ids.map_values(|x: WinId| CommandView::Place { win: x, to: spec_placement(v, x)->Some_0, animate: false })
}

/// Two states with the same slots list the same windows.
proof fn lemma_managed_upto_slots(a: EngineView, b: EngineView, n: int)
    requires
        a.slots == b.slots,
    ensures
        managed_upto(a, n) == managed_upto(b, n),
    decreases n,
{
    if n > 0 {
        lemma_managed_upto_slots(a, b, n - 1);
    }
}

/// The re-assert pass over the first `n` slots is one snapped placement
/// per window listed there, in slot order.
proof fn lemma_each_upto_is_snaps(w: EngineView, n: int)
    requires
        wf(w),
        0 <= n <= w.slots.len(),
    ensures
        each_upto(w, n, 0) == snaps_of(w, managed_upto(w, n)),
    decreases n,
{
    if n > 0 {
        lemma_each_upto_is_snaps(w, n - 1);
        let m = managed_upto(w, n - 1);
        match w.slots[n - 1] {
            Some(r) => {
                assert(holds(w, n - 1, r.id));
                lemma_placement_at(w, n - 1, r.id);
                assert(managed_upto(w, n) =~= m.push(r.id));
                assert(snaps_of(w, m.push(r.id)) =~= snaps_of(w, m) + seq![snap_to(w, n - 1, r)]);
            },
            None => {
                assert(managed_upto(w, n) =~= m);
                assert(each_upto(w, n, 0) =~= each_upto(w, n - 1, 0));
            },
        }
    }
}

/// The windows listed among the first `n` slots are those with a home
/// there, each once.
proof fn lemma_managed_upto_members(v: EngineView, n: int)
    requires
        wf(v),
        0 <= n <= v.slots.len(),
    ensures
        forall|x: WinId| #[trigger] managed_upto(v, n).contains(x) <==> exists|i: int| 0 <= i < n && holds(v, i, x),
        managed_upto(v, n).no_duplicates(),
    decreases n,
{
    if n > 0 {
        lemma_managed_upto_members(v, n - 1);
        let m = managed_upto(v, n - 1);
        match v.slots[n - 1] {
            Some(r) => {
                assert(managed_upto(v, n) =~= m.push(r.id));
                assert(holds(v, n - 1, r.id));
                if m.contains(r.id) {
                    let i = choose|i: int| 0 <= i < n - 1 && holds(v, i, r.id);
                    assert(v.slots[i] is Some && v.slots[n - 1] is Some);
                }
                assert forall|x: WinId| #[trigger] managed_upto(v, n).contains(x) <==> exists|i: int|
                    0 <= i < n && holds(v, i, x) by {
                    if managed_upto(v, n).contains(x) {
                        if x != r.id {
                            let k = choose|k: int| 0 <= k < m.push(r.id).len() && m.push(r.id)[k] == x;
                            assert(m[k] == x);
                            assert(m.contains(x));
                        }
                    }
                    if exists|i: int| 0 <= i < n && holds(v, i, x) {
                        let i = choose|i: int| 0 <= i < n && holds(v, i, x);
                        if i < n - 1 {
                            assert(m.contains(x));
                            let k = choose|k: int| 0 <= k < m.len() && m[k] == x;
                            assert(m.push(r.id)[k] == x);
                        } else {
                            assert(m.push(r.id)[m.len() as int] == x);
                        }
                    }
                }
            },
            None => {
                assert(managed_upto(v, n) =~= m);
                assert forall|x: WinId| #[trigger] managed_upto(v, n).contains(x) <==> exists|i: int|
                    0 <= i < n && holds(v, i, x) by {
                    if exists|i: int| 0 <= i < n && holds(v, i, x) {
                        let i = choose|i: int| 0 <= i < n && holds(v, i, x);
                        assert(i < n - 1);
                    }
                }
            },
        }
    }
}

/// `managed` lists every window with a home, each once.
pub proof fn law_managed_lists_each_window_once(v: EngineView)
    requires
        wf(v),
    ensures
        forall|x: WinId| #[trigger] managed_upto(v, SLOT_COUNT as int).contains(x) <==> managed(v, x),
        managed_upto(v, SLOT_COUNT as int).no_duplicates(),
{
    lemma_managed_upto_members(v, SLOT_COUNT as int);
}

/// Freezing and unfreezing: asking for the current state changes and
/// commands nothing; freezing only sets the flag; unfreezing clears it
/// and, in desk mode, snaps every managed window, one placement each in
/// the order `managed` lists them, to where `placement` says it belongs.
pub proof fn law_suspend_transitions(v: EngineView)
    requires
        wf(v),
    ensures
        spec_suspend(v, v.suspended) == (v, Seq::<CommandView>::empty()),
        !v.suspended ==> spec_suspend(v, true) == (EngineView { suspended: true, ..v }, Seq::<CommandView>::empty()),
        v.suspended ==> spec_suspend(v, false).0 == (EngineView { suspended: false, ..v }),
        v.suspended && v.active ==> spec_suspend(v, false).1 == snaps_of(
            spec_suspend(v, false).0,
            managed_upto(v, SLOT_COUNT as int),
        ),
        v.suspended && !v.active ==> spec_suspend(v, false).1.len() == 0,
{
    if v.suspended && v.active {
        let w = spec_suspend(v, false).0;
        lemma_wf_frame(v, w);
        lemma_each_upto_is_snaps(w, SLOT_COUNT as int);
        lemma_managed_upto_slots(v, w, SLOT_COUNT as int);
    }
}

/// A config reload or a screen change never re-homes anything: while
/// active and not frozen, every managed window is snapped exactly where
/// `placement` says it belongs, and no command moves anything while the
/// service is idle or frozen.
pub proof fn law_retune_keeps_homes(v: EngineView, id: WinId)
    requires
        wf(v),
        managed(v, id),
    ensures
        v.active && !v.suspended ==> replace_all(v).contains(
            CommandView::Place { win: id, to: spec_placement(v, id)->Some_0, animate: false },
        ),
        !v.active || v.suspended ==> replace_all(v).len() == 0,
        forall|k: int|
            0 <= k < replace_all(v).len() ==> (#[trigger] replace_all(v)[k] matches CommandView::Place {
                animate,
                ..
            } && !animate),
{
    let k = home_index(v, id);
    assert(holds(v, k, id));
    lemma_each_upto_snaps(v, SLOT_COUNT as int);
    if v.active && !v.suspended {
        lemma_each_upto_covers(v, SLOT_COUNT as int, 0, k);
    }
}


/// Every command of `each_upto` is the one for some managed slot.
proof fn lemma_each_upto_from(v: EngineView, n: int, kind: int, k: int)
    requires
        0 <= n <= v.slots.len(),
        0 <= k < each_upto(v, n, kind).len(),
    ensures
        exists|i: int|
            0 <= i < n && v.slots[i] is Some && each_upto(v, n, kind)[k] == each_cmd(
                v,
                i,
                v.slots[i]->Some_0,
                kind,
            ),
    decreases n,
{
    let prev = each_upto(v, n - 1, kind);
    if k < prev.len() {
        lemma_each_upto_from(v, n - 1, kind, k);
        let i = choose|i: int|
            0 <= i < n - 1 && v.slots[i] is Some && prev[k] == each_cmd(v, i, v.slots[i]->Some_0, kind);
        assert(each_upto(v, n, kind)[k] == prev[k]);
    } else {
        let i = n - 1;
        assert(v.slots[i] is Some);
        assert(each_upto(v, n, kind)[k] == each_cmd(v, i, v.slots[i]->Some_0, kind));
    }
}

/// Every placement command in `c` sends its window where `after` says
/// that window belongs.
pub open spec fn agrees(after: EngineView, c: Seq<CommandView>) -> bool {
    forall|k: int|
        0 <= k < c.len() ==> match #[trigger] c[k] {
            CommandView::Place { win, to, .. } => spec_placement(after, win) == Some(to),
            CommandView::Release(_) => true,
        }
}

/// Where a window holding slot `i` belongs in a sound state.
proof fn lemma_placement_at(w: EngineView, i: int, x: WinId)
    requires
        wf(w),
        holds(w, i, x),
    ensures
        spec_placement(w, x) == Some(
            if w.focused == Some(x) {
                TargetView::Stage(w.slots[i]->Some_0.fit)
            } else {
                TargetView::Home(SlotId(i as u8))
            },
        ),
{
    lemma_home_unique(w, i, x);
}

/// The re-assert pass snaps every window where the state says it belongs.
proof fn lemma_reassert_agrees(w: EngineView)
    requires
        wf(w),
    ensures
        agrees(w, reassert(w)),
{
    let c = reassert(w);
    assert forall|k: int| 0 <= k < c.len() implies match #[trigger] c[k] {
        CommandView::Place { win, to, .. } => spec_placement(w, win) == Some(to),
        CommandView::Release(_) => true,
    } by {
        lemma_each_upto_from(w, SLOT_COUNT as int, 0, k);
        let i = choose|i: int|
            0 <= i < SLOT_COUNT && w.slots[i] is Some && c[k] == each_cmd(w, i, w.slots[i]->Some_0, 0);
        lemma_placement_at(w, i, w.slots[i]->Some_0.id);
    }
}

/// The command lists of promotion, clearing the stage, desk mode and
/// freezing agree with the placements they leave.
proof fn lemma_simple_events_agree(v: EngineView, id: WinId, on: bool)
    requires
        wf(v),
    ensures
        agrees(spec_promoted(v, id).0, spec_promoted(v, id).1),
        agrees(spec_clear_stage(v).0, spec_clear_stage(v).1),
        agrees(spec_desk_mode(v, on).0, spec_desk_mode(v, on).1),
        agrees(spec_suspend(v, on).0, spec_suspend(v, on).1),
        agrees(v, replace_all(v)),
{
    let (a, c) = spec_promoted(v, id);
    if v.active && !v.suspended && managed(v, id) && v.focused != Some(id) {
        let hi = home_index(v, id);
        assert(holds(v, hi, id));
        assert(holds(a, hi, id));
        assert(wf(a));
        lemma_placement_at(a, hi, id);
        if let Some(prev) = v.focused {
            let hp = home_index(v, prev);
            assert(holds(v, hp, prev));
            assert(holds(a, hp, prev));
            lemma_placement_at(a, hp, prev);
            lemma_home_unique(v, hi, id);
        }
    }
    let (b, d) = spec_clear_stage(v);
    if !v.suspended {
        if let Some(f) = v.focused {
            let hf = home_index(v, f);
            assert(holds(v, hf, f));
            lemma_wf_frame(v, b);
            lemma_placement_at(b, hf, f);
        }
    }
    let (e, g) = spec_desk_mode(v, on);
    assert(wf(e));
    if on && !v.suspended {
        assert forall|k: int| 0 <= k < g.len() implies match #[trigger] g[k] {
            CommandView::Place { win, to, .. } => spec_placement(e, win) == Some(to),
            CommandView::Release(_) => true,
        } by {
            lemma_each_upto_from(v, SLOT_COUNT as int, 1, k);
            let i = choose|i: int|
                0 <= i < SLOT_COUNT && v.slots[i] is Some && g[k] == each_cmd(v, i, v.slots[i]->Some_0, 1);
            lemma_placement_at(e, i, v.slots[i]->Some_0.id);
        }
    } else if !on {
        assert forall|k: int| 0 <= k < g.len() implies match #[trigger] g[k] {
            CommandView::Place { win, to, .. } => spec_placement(e, win) == Some(to),
            CommandView::Release(_) => true,
        } by {
            lemma_each_upto_from(v, SLOT_COUNT as int, 2, k);
        }
    }
    let (f, h) = spec_suspend(v, on);
    if on != v.suspended && !on && v.active {
        if let Some(x) = v.focused {
            let kx = home_index(v, x);
            assert(holds(v, kx, x));
            assert(holds(f, kx, x));
        }
        assert(wf(f));
        lemma_reassert_agrees(f);
    }
    if v.active && !v.suspended {
        lemma_reassert_agrees(v);
    }
}

/// Opening a window commands placements that agree with the state it
/// leaves.
proof fn lemma_opened_agrees(cfg: ConfigView, v: EngineView, id: WinId, meta: WindowMetaView)
    requires
        wf(v),
    ensures
        agrees(spec_opened(cfg, v, id, meta).0, spec_opened(cfg, v, id, meta).1),
{
    let (a, c) = spec_opened(cfg, v, id, meta);
    if !spec_is_ignored(cfg, meta) && !managed(v, id) {
        let (fit, prefs, priority) = match first_rule(cfg, meta) {
            Some(k) => (cfg.apps[k].focal_fit, cfg.apps[k].slots, cfg.apps[k].priority),
            None => (None, Seq::empty(), false),
        };
        if let Some(f) = v.focused {
            assert(managed(v, f));
            assert(f != id);
        }
        match claim(v, prefs, priority) {
            Some((p, to)) => {
                let other = v.slots[p.0 as int]->Some_0;
                lemma_pick_home(v, other.prefs);
                Engine::lemma_opened_wf(a, v, id, p.0 as int, to.0 as int);
                assert(holds(a, to.0 as int, other.id));
                assert(holds(a, p.0 as int, id));
                lemma_placement_at(a, to.0 as int, other.id);
                lemma_placement_at(a, p.0 as int, id);
            },
            None => {
                lemma_pick_home(v, prefs);
                if let Some(sl) = pick_home(v, prefs) {
                    Engine::lemma_placed_wf(a, v, id, sl.0 as int);
                    assert(holds(a, sl.0 as int, id));
                    lemma_placement_at(a, sl.0 as int, id);
                }
            },
        }
    }
}

/// A drag commands placements that agree with the state it leaves.
proof fn lemma_move_agrees(v: EngineView, id: WinId, slot: SlotId)
    requires
        wf(v),
    ensures
        agrees(spec_move_to(v, id, slot).0, spec_move_to(v, id, slot).1),
{
    if v.active && !v.suspended && slot.0 < SLOT_COUNT && managed(v, id) {
        if slot.0 == 0 {
            lemma_simple_events_agree(v, id, true);
        } else {
            let (a, c) = spec_move_to(v, id, slot);
            let old = home_index(v, id);
            assert(holds(v, old, id));
            let s = slot.0 as int;
            if s == old {
                if v.focused == Some(id) {
                    lemma_wf_frame(v, a);
                    lemma_placement_at(a, old, id);
                }
            } else {
                Engine::lemma_moved_wf(a, v, id, old, s);
                assert(holds(a, s, id));
                lemma_placement_at(a, s, id);
                if let Some(other) = v.slots[s] {
                    assert(holds(a, old, other.id));
                    lemma_placement_at(a, old, other.id);
                }
            }
        }
    }
}

/// What the engine commands is what it then intends: after any event,
/// every window it places is where `placement` says that window belongs,
/// so the host can hang frames and aim wires from `placement` alone.
pub proof fn law_commands_match_placement(cfg: ConfigView, v: EngineView, id: WinId, meta: WindowMetaView, slot: SlotId, on: bool)
    requires
        wf(v),
    ensures
        agrees(spec_opened(cfg, v, id, meta).0, spec_opened(cfg, v, id, meta).1),
        agrees(spec_promoted(v, id).0, spec_promoted(v, id).1),
        agrees(spec_move_to(v, id, slot).0, spec_move_to(v, id, slot).1),
        agrees(spec_clear_stage(v).0, spec_clear_stage(v).1),
        agrees(spec_desk_mode(v, on).0, spec_desk_mode(v, on).1),
        agrees(spec_suspend(v, on).0, spec_suspend(v, on).1),
        agrees(v, replace_all(v)),
{
    lemma_simple_events_agree(v, id, on);
    lemma_opened_agrees(cfg, v, id, meta);
    lemma_move_agrees(v, id, slot);
}

} // verus!
