//! Configuration model and the config-file parser.
//!
//! Lengths (inches) and fractions are kept as the decimal text that was
//! written — checked to be a number `f32` accepts — because all geometry
//! happens in the host, which reads them as floating point. Everything
//! else (slots, rules, matchers, milliseconds, switches) is held here as
//! plain values.
use vstd::prelude::*;

use crate::glob::{glob_match, spec_glob_match};
use crate::layout::{spec_slot_group, SlotId};
use crate::number::{is_float, is_float_text, parse_u64, spec_parse_u64};
use crate::text::{
    chars_of, concat, decimal, find, find_char, lemma_find, lemma_find_concat, lemma_find_none,
    lemma_split_append, lemma_split_replace, lemma_split_shift, lemma_trim_bare, lemma_trim_padded,
    lemma_trim_twice, lit_then, lowercase_chars, quoted,
    seq_eq, slice, spec_debug_text, spec_decimal, spec_is_whitespace, spec_lowercase,
    spec_split_once, spec_trim, split_all, split_from, split_once, string_of, trim, views,
};

verus! {

broadcast use vstd::string::group_string_axioms;

/// The display the layout is computed for.
#[derive(Clone, Debug, PartialEq)]
pub struct Screen {
    pub px_w: u32,
    pub px_h: u32,
    /// Physical width of the panel in inches, as decimal text. Lets the
    /// config talk in inches and stay meaningful across resolutions.
    pub inches_w: String,
}

/// The characters of a [`Screen`].
pub struct ScreenView {
    pub px_w: u32,
    pub px_h: u32,
    pub inches_w: Seq<char>,
}

impl View for Screen {
    type V = ScreenView;

    open spec fn view(&self) -> ScreenView {
        ScreenView { px_w: self.px_w, px_h: self.px_h, inches_w: self.inches_w@ }
    }
}

impl Screen {
    /// The target display: 65" 16:9 at 8K (7680 × 4320, 56.65" wide).
    pub fn desk_65_8k() -> (s: Self)
        ensures
            s@ == (ScreenView { px_w: 7680, px_h: 4320, inches_w: "56.65"@ }),
    {
        Screen { px_w: 7680, px_h: 4320, inches_w: "56.65".to_string() }
    }
}

/// How a window occupies the focal stage, as fractions of the stage's
/// width and height (decimal text). `1.0 x 1.0` fills it.
#[derive(Clone, Debug, PartialEq)]
pub struct Fit {
    pub w: String,
    pub h: String,
}

/// The characters of a [`Fit`].
pub struct FitView {
    pub w: Seq<char>,
    pub h: Seq<char>,
}

impl View for Fit {
    type V = FitView;

    open spec fn view(&self) -> FitView {
        FitView { w: self.w@, h: self.h@ }
    }
}

/// An optional fit, by its characters.
pub open spec fn fit_view(f: Option<Fit>) -> Option<FitView> {
    match f {
        Some(x) => Some(x@),
        None => None,
    }
}

/// A copy of a fit.
pub fn copy_fit(f: &Fit) -> (r: Fit)
    ensures
        r@ == f@,
{
    Fit { w: f.w.clone(), h: f.h.clone() }
}

/// A copy of an optional fit.
pub fn copy_opt_fit(f: &Option<Fit>) -> (r: Option<Fit>)
    ensures
        fit_view(r) == fit_view(*f),
{
    match f {
        Some(x) => Some(copy_fit(x)),
        None => None,
    }
}

impl Default for Fit {
    /// The default fit fills the stage exactly.
    fn default() -> (f: Self)
        ensures
            f@ == (FitView { w: "1.0"@, h: "1.0"@ }),
    {
        Fit { w: "1.0".to_string(), h: "1.0".to_string() }
    }
}

/// The shape of the tap target beside every managed window.
#[derive(Clone, Copy, Debug, PartialEq, Eq, Structural)]
pub enum TapStyle {
    /// One tab on the edge that faces the screen center.
    Tab,
    /// A ring around the whole window.
    Border,
}

/// The tap style a config spelling names: `tab` or `border`, ignoring
/// surrounding whitespace and case.
pub open spec fn spec_tap_style(name: Seq<char>) -> Option<TapStyle> {
    let l = spec_lowercase(spec_trim(name));
    if l == "tab"@ {
        Some(TapStyle::Tab)
    } else if l == "border"@ {
        Some(TapStyle::Border)
    } else {
        None
    }
}

impl TapStyle {
    /// Parse the config spelling: `tab` or `border`, case-insensitive.
    pub fn from_name(name: &str) -> (r: Option<Self>)
        ensures
            r == spec_tap_style(name@),
    {
        let l = lowercase_chars(&trim(&chars_of(name)));
        if seq_eq(&l, &chars_of("tab")) {
            Some(TapStyle::Tab)
        } else if seq_eq(&l, &chars_of("border")) {
            Some(TapStyle::Border)
        } else {
            None
        }
    }
}

/// What the host reports about a window when it appears.
#[derive(Clone, Debug, Default, PartialEq)]
pub struct WindowMeta {
    pub process: String,
    pub title: String,
    /// The window class name (`Chrome_WidgetWin_1`, …).
    pub class: String,
}

/// The characters of a [`WindowMeta`].
pub struct WindowMetaView {
    pub process: Seq<char>,
    pub title: Seq<char>,
    pub class: Seq<char>,
}

impl View for WindowMeta {
    type V = WindowMetaView;

    open spec fn view(&self) -> WindowMetaView {
        WindowMetaView { process: self.process@, title: self.title@, class: self.class@ }
    }
}

/// Matches windows to rules. Globs are case-insensitive, `*` wildcard.
#[derive(Clone, Debug, PartialEq)]
pub enum Matcher {
    Process(String),
    Title(String),
    /// The window class name, as a glob.
    Class(String),
    /// A case-insensitive substring of the exe name, the class or the title.
    Substring(String),
    Any,
}

/// The characters of a [`Matcher`].
pub enum MatcherView {
    Process(Seq<char>),
    Title(Seq<char>),
    Class(Seq<char>),
    Substring(Seq<char>),
    Any,
}

impl View for Matcher {
    type V = MatcherView;

    open spec fn view(&self) -> MatcherView {
        match self {
            Matcher::Process(g) => MatcherView::Process(g@),
            Matcher::Title(g) => MatcherView::Title(g@),
            Matcher::Class(g) => MatcherView::Class(g@),
            Matcher::Substring(s) => MatcherView::Substring(s@),
            Matcher::Any => MatcherView::Any,
        }
    }
}

/// The glob a substring search uses: the substring between two stars.
pub open spec fn substring_glob(s: Seq<char>) -> Seq<char> {
    seq!['*'] + s + seq!['*']
}

/// Whether a matcher accepts a window: its glob against the field it
/// names, or — for a substring — against any of the three fields.
pub open spec fn spec_matches(m: MatcherView, meta: WindowMetaView) -> bool {
    match m {
        MatcherView::Process(g) => spec_glob_match(g, meta.process),
        MatcherView::Title(g) => spec_glob_match(g, meta.title),
        MatcherView::Class(g) => spec_glob_match(g, meta.class),
        MatcherView::Substring(s) => {
            let g = substring_glob(s);
            spec_glob_match(g, meta.process) || spec_glob_match(g, meta.class) || spec_glob_match(
                g,
                meta.title,
            )
        },
        MatcherView::Any => true,
    }
}

/// Each field matcher reads its own field and nothing else: a process
/// glob decides by the process name whatever the title and class, a
/// title glob by the title, a class glob by the class; each is its glob
/// against that field. A substring looks at all three, and `Any`
/// accepts every window.
pub proof fn law_matcher_reads_its_field(g: Seq<char>, m1: WindowMetaView, m2: WindowMetaView)
    ensures
        m1.process == m2.process ==> spec_matches(MatcherView::Process(g), m1) == spec_matches(
            MatcherView::Process(g),
            m2,
        ),
        m1.title == m2.title ==> spec_matches(MatcherView::Title(g), m1) == spec_matches(MatcherView::Title(g), m2),
        m1.class == m2.class ==> spec_matches(MatcherView::Class(g), m1) == spec_matches(MatcherView::Class(g), m2),
        spec_matches(MatcherView::Process(g), m1) == spec_glob_match(g, m1.process),
        spec_matches(MatcherView::Title(g), m1) == spec_glob_match(g, m1.title),
        spec_matches(MatcherView::Class(g), m1) == spec_glob_match(g, m1.class),
        spec_matches(MatcherView::Substring(g), m1) <==> exists|f: Seq<char>|
            (f == m1.process || f == m1.class || f == m1.title) && #[trigger] spec_glob_match(substring_glob(g), f),
        spec_matches(MatcherView::Any, m1),
{
    if spec_matches(MatcherView::Substring(g), m1) {
        let sg = substring_glob(g);
        if spec_glob_match(sg, m1.process) {
            assert(spec_glob_match(sg, m1.process));
        } else if spec_glob_match(sg, m1.class) {
            assert(spec_glob_match(sg, m1.class));
        } else {
            assert(spec_glob_match(sg, m1.title));
        }
    }
}

impl Matcher {
    /// True when this matcher's glob matches the relevant window field
    /// (any of the three, for a substring).
    pub fn matches(&self, meta: &WindowMeta) -> (r: bool)
        ensures
            r == spec_matches(self@, meta@),
    {
        match self {
            Matcher::Process(g) => glob_match(g.as_str(), meta.process.as_str()),
            Matcher::Title(g) => glob_match(g.as_str(), meta.title.as_str()),
            Matcher::Class(g) => glob_match(g.as_str(), meta.class.as_str()),
            Matcher::Substring(s) => {
                let star = chars_of("*");
                proof {
                    reveal_strlit("*");
                    assert(star@ =~= seq!['*']);
                }
                let g = string_of(&concat(&concat(&star, &chars_of(s.as_str())), &star));
                glob_match(g.as_str(), meta.process.as_str()) || glob_match(
                    g.as_str(),
                    meta.class.as_str(),
                ) || glob_match(g.as_str(), meta.title.as_str())
            },
            Matcher::Any => true,
        }
    }
}

/// Per-app placement rule. First matching rule wins.
#[derive(Clone, Debug, PartialEq)]
pub struct AppRule {
    pub matcher: Matcher,
    /// Home slots in order of preference: the first free one is taken.
    /// Empty means "first free, center-out".
    pub slots: Vec<SlotId>,
    /// Claim the first preference even if it is occupied; the occupant
    /// moves to its own next free preference (or the fallback). A window
    /// the user placed by hand is never displaced.
    pub priority: bool,
    /// How this app sits on the focal stage when promoted.
    pub focal_fit: Option<Fit>,
}

/// The characters of an [`AppRule`].
pub struct AppRuleView {
    pub matcher: MatcherView,
    pub slots: Seq<SlotId>,
    pub priority: bool,
    pub focal_fit: Option<FitView>,
}

impl View for AppRule {
    type V = AppRuleView;

    open spec fn view(&self) -> AppRuleView {
        AppRuleView {
            matcher: self.matcher@,
            slots: self.slots@,
            priority: self.priority,
            focal_fit: fit_view(self.focal_fit),
        }
    }
}

/// A hard (auto-detected) wire between two window populations.
#[derive(Clone, Debug, PartialEq)]
pub struct WireRule {
    pub a: Matcher,
    pub b: Matcher,
}

/// The characters of a [`WireRule`].
pub struct WireRuleView {
    pub a: MatcherView,
    pub b: MatcherView,
}

impl View for WireRule {
    type V = WireRuleView;

    open spec fn view(&self) -> WireRuleView {
        WireRuleView { a: self.a@, b: self.b@ }
    }
}

/// The whole configuration.
#[derive(Clone, Debug, PartialEq)]
pub struct Config {
    pub screen: Screen,
    /// The structural gutter, in inches.
    pub gutter_in: String,
    /// Width of the focal column as a fraction of the screen.
    pub focal_frac: String,
    /// Height of the top and bottom bands as a fraction of the screen.
    pub band_frac: String,
    /// How long a window must hold the foreground before promotion, in
    /// milliseconds. `0` turns dwell off: then only an explicit gesture
    /// promotes.
    pub dwell_ms: u64,
    /// Tab on the center-facing edge, or a border all the way around.
    pub tap_style: TapStyle,
    /// Depth of the tab (or width of the border), in inches.
    pub tab_in: String,
    /// Length of the tab along its edge, in inches.
    pub tab_length_in: String,
    /// Width of the slim sides of a window's frame, in inches.
    pub frame_in: String,
    /// Width of the stage's frame, in inches.
    pub stage_in: String,
    /// Physical diagonal of the desk panel, in inches.
    pub screen_diagonal_in: String,
    /// Manage windows even when the desk display isn't detected.
    pub force_active: bool,
    pub apps: Vec<AppRule>,
    pub wires: Vec<WireRule>,
    /// Windows never to touch; while one holds the foreground the layout
    /// freezes.
    pub ignore: Vec<Matcher>,
    /// Problems the parser stepped over: one line per `[app]` rule it
    /// skipped, naming the line and the reason.
    pub warnings: Vec<String>,
}

/// The characters of a [`Config`].
pub struct ConfigView {
    pub screen: ScreenView,
    pub gutter_in: Seq<char>,
    pub focal_frac: Seq<char>,
    pub band_frac: Seq<char>,
    pub dwell_ms: u64,
    pub tap_style: TapStyle,
    pub tab_in: Seq<char>,
    pub tab_length_in: Seq<char>,
    pub frame_in: Seq<char>,
    pub stage_in: Seq<char>,
    pub screen_diagonal_in: Seq<char>,
    pub force_active: bool,
    pub apps: Seq<AppRuleView>,
    pub wires: Seq<WireRuleView>,
    pub ignore: Seq<MatcherView>,
    pub warnings: Seq<Seq<char>>,
}

/// The views of a sequence of rules.
pub open spec fn app_views(v: Seq<AppRule>) -> Seq<AppRuleView> {
    v.map_values(|r: AppRule| r@)
}

/// The views of a sequence of wire rules.
pub open spec fn wire_views(v: Seq<WireRule>) -> Seq<WireRuleView> {
    v.map_values(|r: WireRule| r@)
}

/// The views of a sequence of matchers.
pub open spec fn matcher_views(v: Seq<Matcher>) -> Seq<MatcherView> {
    v.map_values(|m: Matcher| m@)
}

/// The views of a sequence of strings.
pub open spec fn string_views(v: Seq<String>) -> Seq<Seq<char>> {
    v.map_values(|s: String| s@)
}

impl View for Config {
    type V = ConfigView;

    open spec fn view(&self) -> ConfigView {
        ConfigView {
            screen: self.screen@,
            gutter_in: self.gutter_in@,
            focal_frac: self.focal_frac@,
            band_frac: self.band_frac@,
            dwell_ms: self.dwell_ms,
            tap_style: self.tap_style,
            tab_in: self.tab_in@,
            tab_length_in: self.tab_length_in@,
            frame_in: self.frame_in@,
            stage_in: self.stage_in@,
            screen_diagonal_in: self.screen_diagonal_in@,
            force_active: self.force_active,
            apps: app_views(self.apps@),
            wires: wire_views(self.wires@),
            ignore: matcher_views(self.ignore@),
            warnings: string_views(self.warnings@),
        }
    }
}

/// The built-in ignore globs: shell surfaces and capture overlays.
pub open spec fn spec_default_ignores() -> Seq<MatcherView> {
    seq![
        MatcherView::Process("*snippingtool*"@),
        MatcherView::Process("*screenclippinghost*"@),
        MatcherView::Process("*screensketch*"@),
        MatcherView::Process("*textinputhost*"@),
        MatcherView::Process("*searchhost*"@),
        MatcherView::Process("*startmenuexperiencehost*"@),
        MatcherView::Process("*shellexperiencehost*"@),
        MatcherView::Process("*peopleexperiencehost*"@),
        MatcherView::Process("*lockapp*"@),
        MatcherView::Process("*magnify*"@),
    ]
}

/// Shell surfaces and capture overlays that are never managed, and that
/// freeze the layout while they are in front.
pub fn default_ignores() -> (v: Vec<Matcher>)
    ensures
        matcher_views(v@) == spec_default_ignores(),
{
    let mut v: Vec<Matcher> = Vec::new();
    v.push(Matcher::Process("*snippingtool*".to_string()));
    v.push(Matcher::Process("*screenclippinghost*".to_string()));
    v.push(Matcher::Process("*screensketch*".to_string()));
    v.push(Matcher::Process("*textinputhost*".to_string()));
    v.push(Matcher::Process("*searchhost*".to_string()));
    v.push(Matcher::Process("*startmenuexperiencehost*".to_string()));
    v.push(Matcher::Process("*shellexperiencehost*".to_string()));
    v.push(Matcher::Process("*peopleexperiencehost*".to_string()));
    v.push(Matcher::Process("*lockapp*".to_string()));
    v.push(Matcher::Process("*magnify*".to_string()));
    proof {
        assert(matcher_views(v@) =~= spec_default_ignores());
    }
    v
}

/// The shipped configuration: 65" 8K, 1.5" gutter, 56% focal column,
/// 22% bands, dwell off (tab only), a 0.75" × 5" tab, 0.15" slim frame
/// sides and a 0.35" stage ring; no rules, the built-in ignore list.
pub open spec fn spec_default_config() -> ConfigView {
    ConfigView {
        screen: ScreenView { px_w: 7680, px_h: 4320, inches_w: "56.65"@ },
        gutter_in: "1.5"@,
        focal_frac: "0.56"@,
        band_frac: "0.22"@,
        dwell_ms: 0,
        tap_style: TapStyle::Tab,
        tab_in: "0.75"@,
        tab_length_in: "5.0"@,
        frame_in: "0.15"@,
        stage_in: "0.35"@,
        screen_diagonal_in: "65.0"@,
        force_active: false,
        apps: Seq::empty(),
        wires: Seq::empty(),
        ignore: spec_default_ignores(),
        warnings: Seq::empty(),
    }
}

impl Default for Config {
    /// The setup this project is built around.
    fn default() -> (c: Self)
        ensures
            c@ == spec_default_config(),
    {
        let c = Config {
            screen: Screen::desk_65_8k(),
            gutter_in: "1.5".to_string(),
            focal_frac: "0.56".to_string(),
            band_frac: "0.22".to_string(),
            dwell_ms: 0,
            tap_style: TapStyle::Tab,
            tab_in: "0.75".to_string(),
            tab_length_in: "5.0".to_string(),
            frame_in: "0.15".to_string(),
            stage_in: "0.35".to_string(),
            screen_diagonal_in: "65.0".to_string(),
            force_active: false,
            apps: Vec::new(),
            wires: Vec::new(),
            ignore: default_ignores(),
            warnings: Vec::new(),
        };
        proof {
            assert(app_views(c.apps@) =~= Seq::empty());
            assert(wire_views(c.wires@) =~= Seq::empty());
            assert(string_views(c.warnings@) =~= Seq::empty());
        }
        c
    }
}

/// True when some ignore matcher accepts the window.
pub open spec fn spec_is_ignored(cfg: ConfigView, meta: WindowMetaView) -> bool {
    exists|i: int| 0 <= i < cfg.ignore.len() && spec_matches(cfg.ignore[i], meta)
}

impl Config {
    /// True when this window must be left alone entirely.
    pub fn is_ignored(&self, meta: &WindowMeta) -> (r: bool)
        ensures
            r == spec_is_ignored(self@, meta@),
    {
        let mut i: usize = 0;
        while i < self.ignore.len()
            invariant
                i <= self.ignore.len(),
                forall|j: int| 0 <= j < i ==> !spec_matches(self@.ignore[j], meta@),
            decreases self.ignore.len() - i,
        {
            if self.ignore[i].matches(meta) {
                assert(self@.ignore[i as int] == self.ignore@[i as int]@);
                return true;
            }
            i = i + 1;
        }
        false
    }

    /// True when holding the foreground still promotes (`dwell_ms > 0`).
    pub fn dwell_enabled(&self) -> (r: bool)
        ensures
            r == (self.dwell_ms > 0),
    {
        self.dwell_ms > 0
    }
}

/// A parse error or warning prefixed with the line it concerns.
pub open spec fn at_line(n: nat, e: Seq<char>) -> Seq<char> {
    "line "@ + spec_decimal(n) + ": "@ + e
}

/// The section of the config file the parser is in.
pub enum SecView {
    Root,
    /// An `[app]` in progress, and the first problem found in it.
    App(AppRuleView, Option<Seq<char>>),
    Wire(Option<MatcherView>, Option<MatcherView>),
    Ignore,
}

/// The rule an `[app]` header starts: matches anything, no preferences.
pub open spec fn fresh_rule() -> AppRuleView {
    AppRuleView { matcher: MatcherView::Any, slots: Seq::empty(), priority: false, focal_fit: None }
}

/// Finish the section in progress: a complete `[app]` rule joins the
/// rules, a broken one becomes a warning, a `[wire]` needs both ends.
pub open spec fn spec_flush(cfg: ConfigView, sec: SecView) -> Result<ConfigView, Seq<char>> {
    match sec {
        SecView::Root => Ok(cfg),
        SecView::Ignore => Ok(cfg),
        SecView::App(rule, None) => Ok(ConfigView { apps: cfg.apps.push(rule), ..cfg }),
        SecView::App(_, Some(problem)) => Ok(
            ConfigView {
                warnings: cfg.warnings.push(problem + " — [app] rule skipped"@),
                ..cfg
            },
        ),
        SecView::Wire(a, b) => match (a, b) {
            (None, _) => Err("[wire] needs a_process or a_title"@),
            (Some(_), None) => Err("[wire] needs b_process or b_title"@),
            (Some(a), Some(b)) => Ok(
                ConfigView { wires: cfg.wires.push(WireRuleView { a, b }), ..cfg },
            ),
        },
    }
}

/// `slots` with each of `group` appended that it does not hold yet, in order.
pub open spec fn add_new(slots: Seq<SlotId>, group: Seq<SlotId>) -> Seq<SlotId>
    decreases group.len(),
{
    if group.len() == 0 {
        slots
    } else {
        let next = if slots.contains(group[0]) {
            slots
        } else {
            slots.push(group[0])
        };
        add_new(next, group.drop_first())
    }
}

/// The slots named by the first `n` comma-separated pieces of a list.
pub open spec fn slots_upto(pieces: Seq<Seq<char>>, n: int) -> Result<Seq<SlotId>, Seq<char>>
    decreases n,
{
    if n <= 0 {
        Ok(Seq::empty())
    } else {
        match slots_upto(pieces, n - 1) {
            Err(e) => Err(e),
            Ok(acc) => {
                let name = spec_trim(pieces[n - 1]);
                if name.len() == 0 {
                    Ok(acc)
                } else {
                    match spec_slot_group(name) {
                        None => Err("unknown slot "@ + spec_debug_text(name)),
                        Some(g) => Ok(add_new(acc, g)),
                    }
                }
            },
        }
    }
}

/// A `slots =` list: slot and group names, comma-separated, in order of
/// preference; duplicates dropped; at least one.
pub open spec fn spec_slot_list(v: Seq<char>) -> Result<Seq<SlotId>, Seq<char>> {
    let pieces = split_from(v, ',', 0);
    match slots_upto(pieces, pieces.len() as int) {
        Err(e) => Err(e),
        Ok(l) => if l.len() == 0 {
            Err("slots wants at least one slot or group name"@)
        } else {
            Ok(l)
        },
    }
}

/// The message for a value that is not a number.
pub open spec fn bad_number(k: Seq<char>, v: Seq<char>) -> Seq<char> {
    k + ": bad number "@ + spec_debug_text(v)
}

/// One `key = value` line inside an `[app]` section.
pub open spec fn spec_app_key(rule: AppRuleView, k: Seq<char>, v: Seq<char>) -> Result<
    AppRuleView,
    Seq<char>,
> {
    if k == "process"@ {
        Ok(AppRuleView { matcher: MatcherView::Process(v), ..rule })
    } else if k == "title"@ {
        Ok(AppRuleView { matcher: MatcherView::Title(v), ..rule })
    } else if k == "class"@ {
        Ok(AppRuleView { matcher: MatcherView::Class(v), ..rule })
    } else if k == "match"@ {
        Ok(AppRuleView { matcher: MatcherView::Substring(v), ..rule })
    } else if k == "home"@ || k == "slots"@ {
        match spec_slot_list(v) {
            Ok(l) => Ok(AppRuleView { slots: l, ..rule }),
            Err(e) => Err(e),
        }
    } else if k == "priority"@ {
        let l = spec_lowercase(v);
        if l == "true"@ || l == "yes"@ || l == "on"@ {
            Ok(AppRuleView { priority: true, ..rule })
        } else if l == "false"@ || l == "no"@ || l == "off"@ {
            Ok(AppRuleView { priority: false, ..rule })
        } else {
            Err("priority wants true or false, got "@ + spec_debug_text(l))
        }
    } else if k == "focal_fit"@ {
        match spec_split_once(v, 'x') {
            None => Err("focal_fit wants WxH, e.g. 0.55 x 1.0"@),
            Some((w, h)) => if !is_float_text(spec_trim(w)) {
                Err(bad_number(k, w))
            } else if !is_float_text(spec_trim(h)) {
                Err(bad_number(k, h))
            } else {
                Ok(
                    AppRuleView {
                        focal_fit: Some(FitView { w: spec_trim(w), h: spec_trim(h) }),
                        ..rule
                    },
                )
            },
        }
    } else {
        Err("unknown key "@ + spec_debug_text(k) + " in [app]"@)
    }
}

/// The message for a key the section does not know.
pub open spec fn unknown_key(k: Seq<char>) -> Seq<char> {
    "unknown key "@ + spec_debug_text(k) + " here"@
}

/// A numeric root key: stored as written when it is a number.
pub open spec fn number_or(k: Seq<char>, v: Seq<char>, ok: ConfigView) -> Result<
    (ConfigView, SecView),
    Seq<char>,
> {
    if is_float_text(spec_trim(v)) {
        Ok((ok, SecView::Root))
    } else {
        Err(bad_number(k, v))
    }
}

/// One `key = value` line outside an `[app]` section.
pub open spec fn spec_other_key(cfg: ConfigView, sec: SecView, k: Seq<char>, v: Seq<char>) -> Result<
    (ConfigView, SecView),
    Seq<char>,
> {
    match sec {
        SecView::Root => if k == "gutter_in"@ {
            number_or(k, v, ConfigView { gutter_in: v, ..cfg })
        } else if k == "focal_frac"@ {
            number_or(k, v, ConfigView { focal_frac: v, ..cfg })
        } else if k == "band_frac"@ {
            number_or(k, v, ConfigView { band_frac: v, ..cfg })
        } else if k == "dwell_ms"@ {
            match spec_parse_u64(spec_trim(v)) {
                Some(ms) => Ok((ConfigView { dwell_ms: ms, ..cfg }, sec)),
                None => Err(bad_number(k, v)),
            }
        } else if k == "tap_style"@ {
            match spec_tap_style(v) {
                Some(t) => Ok((ConfigView { tap_style: t, ..cfg }, sec)),
                None => Err("tap_style wants tab or border, got "@ + spec_debug_text(v)),
            }
        } else if k == "tab_in"@ {
            number_or(k, v, ConfigView { tab_in: v, ..cfg })
        } else if k == "tab_length_in"@ {
            number_or(k, v, ConfigView { tab_length_in: v, ..cfg })
        } else if k == "frame_in"@ {
            number_or(k, v, ConfigView { frame_in: v, ..cfg })
        } else if k == "stage_in"@ {
            number_or(k, v, ConfigView { stage_in: v, ..cfg })
        } else if k == "screen_diagonal_in"@ {
            number_or(k, v, ConfigView { screen_diagonal_in: v, ..cfg })
        } else if k == "force_active"@ {
            Ok((ConfigView { force_active: v == "true"@, ..cfg }, sec))
        } else {
            Err(unknown_key(k))
        },
        SecView::Ignore => if k == "process"@ {
            Ok((ConfigView { ignore: cfg.ignore.push(MatcherView::Process(v)), ..cfg }, sec))
        } else if k == "title"@ {
            Ok((ConfigView { ignore: cfg.ignore.push(MatcherView::Title(v)), ..cfg }, sec))
        } else {
            Err(unknown_key(k))
        },
        SecView::Wire(a, b) => if k == "a_process"@ {
            Ok((cfg, SecView::Wire(Some(MatcherView::Process(v)), b)))
        } else if k == "a_title"@ {
            Ok((cfg, SecView::Wire(Some(MatcherView::Title(v)), b)))
        } else if k == "b_process"@ {
            Ok((cfg, SecView::Wire(a, Some(MatcherView::Process(v)))))
        } else if k == "b_title"@ {
            Ok((cfg, SecView::Wire(a, Some(MatcherView::Title(v)))))
        } else {
            Err(unknown_key(k))
        },
        SecView::App(_, _) => Ok((cfg, sec)),
    }
}

/// The text of a line that matters: what precedes any `#`, trimmed.
pub open spec fn line_content(raw: Seq<char>) -> Seq<char> {
    spec_trim(raw.subrange(0, find(raw, '#', 0)))
}

/// Line `n` (counted from 1) applied to the parser's state.
pub open spec fn spec_line(cfg: ConfigView, sec: SecView, n: nat, raw: Seq<char>) -> Result<
    (ConfigView, SecView),
    Seq<char>,
> {
    let line = line_content(raw);
    if line.len() == 0 {
        Ok((cfg, sec))
    } else if line[0] == '[' {
        match spec_flush(cfg, sec) {
            Err(e) => Err(at_line(n, e)),
            Ok(c) => if line == "[app]"@ {
                Ok((c, SecView::App(fresh_rule(), None)))
            } else if line == "[wire]"@ {
                Ok((c, SecView::Wire(None, None)))
            } else if line == "[ignore]"@ {
                Ok((c, SecView::Ignore))
            } else {
                Err(at_line(n, "unknown section "@ + line))
            },
        }
    } else {
        match spec_split_once(line, '=') {
            None => Err(at_line(n, "expected key = value, got "@ + spec_debug_text(line))),
            Some((k0, v0)) => {
                let k = spec_trim(k0);
                let v = spec_trim(v0);
                match sec {
                    SecView::App(rule, problem) => match spec_app_key(rule, k, v) {
                        Ok(r) => Ok((cfg, SecView::App(r, problem))),
                        Err(e) => Ok(
                            (
                                cfg,
                                SecView::App(
                                    rule,
                                    if problem is None {
                                        Some(at_line(n, e))
                                    } else {
                                        problem
                                    },
                                ),
                            ),
                        ),
                    },
                    _ => match spec_other_key(cfg, sec, k, v) {
                        Ok(r) => Ok(r),
                        Err(e) => Err(at_line(n, e)),
                    },
                }
            },
        }
    }
}

/// The parser's state after the first `k` lines.
pub open spec fn parse_upto(lines: Seq<Seq<char>>, k: int) -> Result<(ConfigView, SecView), Seq<char>>
    decreases k,
{
    if k <= 0 {
        Ok((spec_default_config(), SecView::Root))
    } else {
        match parse_upto(lines, k - 1) {
            Err(e) => Err(e),
            Ok((c, s)) => spec_line(c, s, k as nat, lines[k - 1]),
        }
    }
}

/// What the config text means: the defaults, changed line by line, and
/// the last section finished. `Err` carries the first refusal.
pub open spec fn spec_parse(text: Seq<char>) -> Result<ConfigView, Seq<char>> {
    let lines = split_from(text, '\n', 0);
    match parse_upto(lines, lines.len() as int) {
        Err(e) => Err(e),
        Ok((c, s)) => spec_flush(c, s),
    }
}

/// Parsing one line never drops an ignore entry already listed.
proof fn lemma_line_keeps_ignores(cfg: ConfigView, sec: SecView, n: nat, raw: Seq<char>)
    ensures
        spec_line(cfg, sec, n, raw) matches Ok((c, _)) ==> cfg.ignore.is_prefix_of(c.ignore),
{
    assert forall|m: MatcherView| cfg.ignore.is_prefix_of(#[trigger] cfg.ignore.push(m)) by {
        assert(cfg.ignore =~= cfg.ignore.push(m).subrange(0, cfg.ignore.len() as int));
    }
    assert(cfg.ignore.is_prefix_of(cfg.ignore)) by {
        assert(cfg.ignore =~= cfg.ignore.subrange(0, cfg.ignore.len() as int));
    }
}

/// The lines parsed so far keep the built-in ignore list at the front.
proof fn lemma_upto_keeps_ignores(lines: Seq<Seq<char>>, k: int)
    ensures
        parse_upto(lines, k) matches Ok((c, _)) ==> spec_default_ignores().is_prefix_of(c.ignore),
    decreases k,
{
    if k <= 0 {
        assert(spec_default_ignores() =~= spec_default_ignores().subrange(0, 10));
    } else {
        lemma_upto_keeps_ignores(lines, k - 1);
        if let Ok((c, s)) = parse_upto(lines, k - 1) {
            lemma_line_keeps_ignores(c, s, k as nat, lines[k - 1]);
            if let Ok((c2, _)) = spec_line(c, s, k as nat, lines[k - 1]) {
                let d = spec_default_ignores();
                assert(d =~= c2.ignore.subrange(0, d.len() as int)) by {
                    assert forall|i: int| 0 <= i < d.len() implies d[i] == c2.ignore[i] by {
                        assert(d[i] == c.ignore.subrange(0, d.len() as int)[i]);
                        assert(c.ignore[i] == c2.ignore.subrange(0, c.ignore.len() as int)[i]);
                    }
                }
            }
        }
    }
}

/// `[ignore]` entries are added to the built-in list, never in place of
/// it: whatever a config file says, the shell surfaces and capture
/// overlays stay ignored.
pub proof fn law_ignore_adds_to_builtins(text: Seq<char>)
    ensures
        spec_parse(text) matches Ok(c) ==> spec_default_ignores().is_prefix_of(c.ignore),
{
    let lines = split_from(text, '\n', 0);
    lemma_upto_keeps_ignores(lines, lines.len() as int);
}

/// A `key = value` line inside an `[app]` section never stops the
/// parse: a bad value only marks the rule to be skipped with a warning.
pub proof fn law_bad_app_line_only_skips(cfg: ConfigView, rule: AppRuleView, problem: Option<Seq<char>>, n: nat, raw: Seq<char>)
    requires
        line_content(raw).len() > 0,
        line_content(raw)[0] != '[',
        spec_split_once(line_content(raw), '=') is Some,
    ensures
        spec_line(cfg, SecView::App(rule, problem), n, raw) matches Ok((c, SecView::App(_, p))) && c == cfg
            && (problem is Some ==> p == problem),
{
}

/// Outside `[app]`, a key the section does not know refuses the whole
/// file, naming the line, so a typo surfaces at once.
pub proof fn law_unknown_root_key_refused(cfg: ConfigView, n: nat, raw: Seq<char>)
    requires
        line_content(raw).len() > 0,
        line_content(raw)[0] != '[',
        spec_split_once(line_content(raw), '=') matches Some((k0, _)) && {
            let k = spec_trim(k0);
            k != "gutter_in"@ && k != "focal_frac"@ && k != "band_frac"@ && k != "dwell_ms"@
                && k != "tap_style"@ && k != "tab_in"@ && k != "tab_length_in"@ && k != "frame_in"@
                && k != "stage_in"@ && k != "screen_diagonal_in"@ && k != "force_active"@
        },
    ensures
        spec_line(cfg, SecView::Root, n, raw) == Err::<(ConfigView, SecView), Seq<char>>(
            at_line(n, unknown_key(spec_trim(spec_split_once(line_content(raw), '=')->Some_0.0))),
        ),
{
}

/// An `[app]` rule with a problem is left out and leaves exactly one
/// warning; a sound one joins the rules.
pub proof fn law_broken_rule_becomes_one_warning(cfg: ConfigView, rule: AppRuleView, problem: Option<Seq<char>>)
    ensures
        spec_flush(cfg, SecView::App(rule, problem)) matches Ok(c) && match problem {
            Some(e) => c.apps == cfg.apps && c.warnings.len() == cfg.warnings.len() + 1
                && c.warnings.last() == e + " — [app] rule skipped"@,
            None => c.apps == cfg.apps.push(rule) && c.warnings == cfg.warnings,
        },
{
}

/// A `#` starts a comment that runs to the end of the line, and the
/// whitespace around what a line says counts for nothing: appending a
/// comment, with any whitespace before it, to a line, or deleting all
/// from its first `#`, leaves what the parser makes of the line as it
/// was.
pub proof fn law_comment_ends_a_line(raw: Seq<char>, pad: Seq<char>, comment: Seq<char>)
    requires
        forall|k: int| 0 <= k < pad.len() ==> spec_is_whitespace(#[trigger] pad[k]),
        comment.len() > 0,
        comment[0] == '#',
    ensures
        line_content(raw + pad + comment) == line_content(raw),
        line_content(raw.subrange(0, find(raw, '#', 0))) == line_content(raw),
        forall|cfg: ConfigView, sec: SecView, n: nat|
            #[trigger] spec_line(cfg, sec, n, raw + pad + comment) == spec_line(cfg, sec, n, raw),
{
    let rp = raw + pad;
    lemma_find_concat(rp, comment, '#', 0);
    lemma_find_concat(raw, pad, '#', 0);
    lemma_find(raw, '#', 0);
    assert forall|k: int| 0 <= k < pad.len() implies pad[k] != '#' by {
        assert(spec_is_whitespace(pad[k]));
    }
    lemma_find_none(pad, '#', 0);
    let k = find(raw, '#', 0);
    assert(find(comment, '#', 0) == 0);
    if k < raw.len() {
        assert((rp + comment).subrange(0, k) =~= raw.subrange(0, k));
    } else {
        assert((rp + comment).subrange(0, rp.len() as int) =~= rp);
        assert(raw.subrange(0, k) =~= raw);
        lemma_trim_padded(raw, pad);
    }
    let p = raw.subrange(0, k);
    lemma_find_none(p, '#', 0);
    assert(p.subrange(0, p.len() as int) =~= p);
}

/// Two files whose lines say the same, line for line, once comments and
/// surrounding whitespace are dropped, parse alike.
pub proof fn law_parse_reads_line_content(l1: Seq<Seq<char>>, l2: Seq<Seq<char>>, k: int)
    requires
        l1.len() == l2.len(),
        forall|i: int| 0 <= i < l1.len() ==> line_content(#[trigger] l1[i]) == line_content(l2[i]),
        k <= l1.len(),
    ensures
        parse_upto(l1, k) == parse_upto(l2, k),
    decreases k,
{
    if k > 0 {
        law_parse_reads_line_content(l1, l2, k - 1);
        assert(line_content(l1[k - 1]) == line_content(l2[k - 1]));
    }
}

/// The lines before `k` are all the parser has read after `k` lines.
proof fn lemma_parse_upto_prefix(l1: Seq<Seq<char>>, e: Seq<Seq<char>>, k: int)
    requires
        k <= l1.len(),
    ensures
        parse_upto(l1 + e, k) == parse_upto(l1, k),
    decreases k,
{
    if k > 0 {
        lemma_parse_upto_prefix(l1, e, k - 1);
        assert((l1 + e)[k - 1] == l1[k - 1]);
    }
}

/// Lines that say nothing leave the parser's state as it was.
proof fn lemma_parse_upto_blank(l1: Seq<Seq<char>>, e: Seq<Seq<char>>, j: int)
    requires
        0 <= j <= e.len(),
        forall|k: int| 0 <= k < e.len() ==> line_content(#[trigger] e[k]).len() == 0,
    ensures
        parse_upto(l1 + e, l1.len() + j) == parse_upto(l1, l1.len() as int),
    decreases j,
{
    if j == 0 {
        lemma_parse_upto_prefix(l1, e, l1.len() as int);
    } else {
        lemma_parse_upto_blank(l1, e, j - 1);
        assert((l1 + e)[l1.len() + j - 1] == e[j - 1]);
        assert(line_content(e[j - 1]).len() == 0);
    }
}

/// A comment written on one line of a file, with any whitespace before
/// it, or a comment deleted from one line (all from its first `#`),
/// changes nothing: the file parses to the same configuration or the
/// same refusal. `raw` is that whole line: what precedes it is empty or
/// ends a line, what follows is empty or starts with a line break.
pub proof fn law_comment_in_a_line_changes_nothing(
    before: Seq<char>,
    raw: Seq<char>,
    pad: Seq<char>,
    comment: Seq<char>,
    after: Seq<char>,
)
    requires
        before.len() == 0 || before.last() == '\n',
        after.len() == 0 || after[0] == '\n',
        forall|k: int| 0 <= k < raw.len() ==> raw[k] != '\n',
        forall|k: int| 0 <= k < pad.len() ==> pad[k] != '\n' && spec_is_whitespace(#[trigger] pad[k]),
        forall|k: int| 0 <= k < comment.len() ==> comment[k] != '\n',
        comment.len() > 0,
        comment[0] == '#',
    ensures
        spec_parse(before + (raw + pad + comment) + after) == spec_parse(before + raw + after),
        spec_parse(before + raw.subrange(0, find(raw, '#', 0)) + after) == spec_parse(before + raw + after),
{
    law_comment_ends_a_line(raw, pad, comment);
    let m2 = raw + pad + comment;
    assert forall|k: int| 0 <= k < m2.len() implies m2[k] != '\n' by {
        if k < raw.len() {
        } else if k < raw.len() + pad.len() {
            assert(m2[k] == pad[k - raw.len()]);
        } else {
            assert(m2[k] == comment[k - raw.len() - pad.len()]);
        }
    }
    lemma_find(raw, '#', 0);
    let m3 = raw.subrange(0, find(raw, '#', 0));
    lemma_same_lines(before, raw, m2, after);
    lemma_same_lines(before, raw, m3, after);
}

/// A file with one whole line `m1` swapped for `m2`, which says the same,
/// parses alike.
proof fn lemma_same_lines(before: Seq<char>, m1: Seq<char>, m2: Seq<char>, after: Seq<char>)
    requires
        before.len() == 0 || before.last() == '\n',
        after.len() == 0 || after[0] == '\n',
        forall|k: int| 0 <= k < m1.len() ==> m1[k] != '\n',
        forall|k: int| 0 <= k < m2.len() ==> m2[k] != '\n',
        line_content(m1) == line_content(m2),
    ensures
        spec_parse(before + m2 + after) == spec_parse(before + m1 + after),
{
    lemma_split_replace(before, m1, m2, after, '\n', 0);
    let l1 = split_from(before + m1 + after, '\n', 0);
    let l2 = split_from(before + m2 + after, '\n', 0);
    assert forall|i: int| 0 <= i < l1.len() implies line_content(#[trigger] l1[i]) == line_content(l2[i]) by {
        assert(l1[i] == l2[i] || (l1[i] == m1 && l2[i] == m2));
    }
    law_parse_reads_line_content(l1, l2, l1.len() as int);
}

/// Blank lines and comment lines at the end of a file change nothing:
/// the file with them parses as the file without them, to the same
/// configuration or the same refusal.
pub proof fn law_trailing_blank_lines_change_nothing(text: Seq<char>, more: Seq<char>)
    requires
        forall|k: int|
            0 <= k < split_from(more, '\n', 0).len() ==> line_content(#[trigger] split_from(more, '\n', 0)[k]).len()
                == 0,
    ensures
        spec_parse(text + (seq!['\n'] + more)) == spec_parse(text),
{
    let b = seq!['\n'] + more;
    lemma_split_append(text, b, '\n', 0);
    lemma_split_shift(seq!['\n'], more, '\n', 0);
    let l1 = split_from(text, '\n', 0);
    let e = split_from(more, '\n', 0);
    assert(split_from(text + b, '\n', 0) == l1 + e);
    lemma_parse_upto_blank(l1, e, e.len() as int);
}

/// The line says `key = val`: once comments and surrounding whitespace
/// are dropped, it is no section header, and the text before its first
/// `=` is `key` and the text after it `val`, each trimmed.
pub open spec fn says(raw: Seq<char>, key: Seq<char>, val: Seq<char>) -> bool {
    let line = line_content(raw);
    &&& line.len() > 0
    &&& line[0] != '['
    &&& spec_split_once(line, '=') matches Some((k0, v0)) && spec_trim(k0) == key && spec_trim(v0) == val
}

/// No line break in `s`.
pub open spec fn one_line(s: Seq<char>) -> bool {
    forall|k: int| 0 <= k < s.len() ==> s[k] != '\n'
}

/// The value of a key line is trimmed already.
proof fn lemma_says_trimmed(raw: Seq<char>)
    ensures
        forall|key: Seq<char>, val: Seq<char>| #[trigger] says(raw, key, val) ==> spec_trim(val) == val,
{
    if let Some((k0, v0)) = spec_split_once(line_content(raw), '=') {
        lemma_trim_twice(v0);
    }
}

/// A text without line breaks is one line.
proof fn lemma_one_line(raw: Seq<char>)
    requires
        one_line(raw),
    ensures
        split_from(raw, '\n', 0) == seq![raw],
{
    lemma_find_none(raw, '\n', 0);
    assert(raw.subrange(0, raw.len() as int) =~= raw);
}

/// The lines of `a`, a line break, then `b` are the lines of `a` and
/// then those of `b`.
proof fn lemma_lines_join(a: Seq<char>, b: Seq<char>)
    ensures
        split_from(a + seq!['\n'] + b, '\n', 0) == split_from(a, '\n', 0) + split_from(b, '\n', 0),
{
    let t = seq!['\n'] + b;
    assert(a + seq!['\n'] + b =~= a + t);
    lemma_split_append(a, t, '\n', 0);
    lemma_split_shift(seq!['\n'], b, '\n', 0);
}

/// A section header line says just that.
proof fn lemma_header_lines()
    ensures
        line_content("[app]"@) == "[app]"@,
        line_content("[wire]"@) == "[wire]"@,
        split_from("[app]"@, '\n', 0) == seq!["[app]"@],
        split_from("[wire]"@, '\n', 0) == seq!["[wire]"@],
{
    reveal_strlit("[app]");
    reveal_strlit("[wire]");
    let a = "[app]"@;
    let w = "[wire]"@;
    lemma_find_none(a, '#', 0);
    lemma_find_none(w, '#', 0);
    assert(a.subrange(0, a.len() as int) =~= a);
    assert(w.subrange(0, w.len() as int) =~= w);
    lemma_trim_bare(a);
    lemma_trim_bare(w);
    lemma_one_line(a);
    lemma_one_line(w);
}

/// A matcher line inside an `[app]` section sets the rule's matcher, and
/// nothing else: `process =` to a process-name glob, `title =` to a
/// title glob, `class =` to a class-name glob, `match =` to a substring
/// of any of the three.
pub proof fn law_app_matcher_line(
    cfg: ConfigView,
    rule: AppRuleView,
    problem: Option<Seq<char>>,
    n: nat,
    raw: Seq<char>,
    val: Seq<char>,
)
    ensures
        says(raw, "process"@, val) ==> spec_line(cfg, SecView::App(rule, problem), n, raw) == Ok::<
            (ConfigView, SecView),
            Seq<char>,
        >((cfg, SecView::App(AppRuleView { matcher: MatcherView::Process(val), ..rule }, problem))),
        says(raw, "title"@, val) ==> spec_line(cfg, SecView::App(rule, problem), n, raw) == Ok::<
            (ConfigView, SecView),
            Seq<char>,
        >((cfg, SecView::App(AppRuleView { matcher: MatcherView::Title(val), ..rule }, problem))),
        says(raw, "class"@, val) ==> spec_line(cfg, SecView::App(rule, problem), n, raw) == Ok::<
            (ConfigView, SecView),
            Seq<char>,
        >((cfg, SecView::App(AppRuleView { matcher: MatcherView::Class(val), ..rule }, problem))),
        says(raw, "match"@, val) ==> spec_line(cfg, SecView::App(rule, problem), n, raw) == Ok::<
            (ConfigView, SecView),
            Seq<char>,
        >((cfg, SecView::App(AppRuleView { matcher: MatcherView::Substring(val), ..rule }, problem))),
{
    reveal_strlit("process");
    reveal_strlit("title");
    reveal_strlit("class");
    reveal_strlit("match");
    assert("class"@[0] != "title"@[0]);
    assert("match"@[0] != "title"@[0]);
    assert("match"@[0] != "class"@[0]);
}

/// A file that is one `[app]` section holding one matcher line parses to
/// the defaults with that one rule: matching by the key's field, no slot
/// preferences, no priority, the whole stage.
pub proof fn law_app_rule_file(raw: Seq<char>, val: Seq<char>)
    requires
        one_line(raw),
    ensures
        says(raw, "process"@, val) ==> spec_parse("[app]"@ + seq!['\n'] + raw) == Ok::<ConfigView, Seq<char>>(
            ConfigView {
                apps: seq![AppRuleView { matcher: MatcherView::Process(val), ..fresh_rule() }],
                ..spec_default_config()
            },
        ),
        says(raw, "title"@, val) ==> spec_parse("[app]"@ + seq!['\n'] + raw) == Ok::<ConfigView, Seq<char>>(
            ConfigView {
                apps: seq![AppRuleView { matcher: MatcherView::Title(val), ..fresh_rule() }],
                ..spec_default_config()
            },
        ),
        says(raw, "class"@, val) ==> spec_parse("[app]"@ + seq!['\n'] + raw) == Ok::<ConfigView, Seq<char>>(
            ConfigView {
                apps: seq![AppRuleView { matcher: MatcherView::Class(val), ..fresh_rule() }],
                ..spec_default_config()
            },
        ),
        says(raw, "match"@, val) ==> spec_parse("[app]"@ + seq!['\n'] + raw) == Ok::<ConfigView, Seq<char>>(
            ConfigView {
                apps: seq![AppRuleView { matcher: MatcherView::Substring(val), ..fresh_rule() }],
                ..spec_default_config()
            },
        ),
{
    lemma_header_lines();
    lemma_one_line(raw);
    lemma_lines_join("[app]"@, raw);
    let lines = split_from("[app]"@ + seq!['\n'] + raw, '\n', 0);
    assert(lines =~= seq!["[app]"@, raw]);
    let d = spec_default_config();
    reveal_strlit("[app]");
    assert(lines[0] == "[app]"@);
    assert(parse_upto(lines, 0) == Ok::<(ConfigView, SecView), Seq<char>>((d, SecView::Root)));
    assert(parse_upto(lines, 1) == Ok::<(ConfigView, SecView), Seq<char>>((d, SecView::App(fresh_rule(), None))));
    law_app_matcher_line(d, fresh_rule(), None, 2, raw, val);
    assert(lines[1] == raw);
}

/// A numeric key at the top of a file stores its value, as written, in
/// its own field when the value is a number, and refuses the file,
/// naming the line, when it is not: a file of one such line parses to
/// the defaults with that one field changed.
pub proof fn law_root_number_file(raw: Seq<char>, val: Seq<char>)
    requires
        one_line(raw),
    ensures
        says(raw, "gutter_in"@, val) && is_float_text(val) ==> spec_parse(raw) == Ok::<ConfigView, Seq<char>>(
            ConfigView { gutter_in: val, ..spec_default_config() },
        ),
        says(raw, "focal_frac"@, val) && is_float_text(val) ==> spec_parse(raw) == Ok::<ConfigView, Seq<char>>(
            ConfigView { focal_frac: val, ..spec_default_config() },
        ),
        says(raw, "band_frac"@, val) && is_float_text(val) ==> spec_parse(raw) == Ok::<ConfigView, Seq<char>>(
            ConfigView { band_frac: val, ..spec_default_config() },
        ),
        says(raw, "tab_in"@, val) && is_float_text(val) ==> spec_parse(raw) == Ok::<ConfigView, Seq<char>>(
            ConfigView { tab_in: val, ..spec_default_config() },
        ),
        says(raw, "tab_length_in"@, val) && is_float_text(val) ==> spec_parse(raw) == Ok::<ConfigView, Seq<char>>(
            ConfigView { tab_length_in: val, ..spec_default_config() },
        ),
        says(raw, "frame_in"@, val) && is_float_text(val) ==> spec_parse(raw) == Ok::<ConfigView, Seq<char>>(
            ConfigView { frame_in: val, ..spec_default_config() },
        ),
        says(raw, "stage_in"@, val) && is_float_text(val) ==> spec_parse(raw) == Ok::<ConfigView, Seq<char>>(
            ConfigView { stage_in: val, ..spec_default_config() },
        ),
        says(raw, "screen_diagonal_in"@, val) && is_float_text(val) ==> spec_parse(raw) == Ok::<
            ConfigView,
            Seq<char>,
        >(ConfigView { screen_diagonal_in: val, ..spec_default_config() }),
        says(raw, "dwell_ms"@, val) && spec_parse_u64(val) is Some ==> spec_parse(raw) == Ok::<
            ConfigView,
            Seq<char>,
        >(ConfigView { dwell_ms: spec_parse_u64(val)->Some_0, ..spec_default_config() }),
        says(raw, "screen_diagonal_in"@, val) && !is_float_text(val) ==> spec_parse(raw) == Err::<
            ConfigView,
            Seq<char>,
        >(at_line(1, bad_number("screen_diagonal_in"@, val))),
{
    lemma_says_trimmed(raw);
    let d = spec_default_config();
    if says(raw, "gutter_in"@, val) && is_float_text(val) {

        lemma_root_line(raw, "gutter_in"@, val);
        assert(spec_parse(raw) == Ok::<ConfigView, Seq<char>>(ConfigView { gutter_in: val, ..d }));
    }
    if says(raw, "focal_frac"@, val) && is_float_text(val) {
        assert("focal_frac"@ != "gutter_in"@) by {
            reveal_strlit("focal_frac");
            reveal_strlit("gutter_in");
            assert("focal_frac"@.len() != "gutter_in"@.len());
        }
        lemma_root_line(raw, "focal_frac"@, val);
        assert(spec_parse(raw) == Ok::<ConfigView, Seq<char>>(ConfigView { focal_frac: val, ..d }));
    }
    if says(raw, "band_frac"@, val) && is_float_text(val) {
        assert("band_frac"@ != "gutter_in"@) by {
            reveal_strlit("band_frac");
            reveal_strlit("gutter_in");
            assert("band_frac"@[0] != "gutter_in"@[0]);
        }
        assert("band_frac"@ != "focal_frac"@) by {
            reveal_strlit("band_frac");
            reveal_strlit("focal_frac");
            assert("band_frac"@.len() != "focal_frac"@.len());
        }
        lemma_root_line(raw, "band_frac"@, val);
        assert(spec_parse(raw) == Ok::<ConfigView, Seq<char>>(ConfigView { band_frac: val, ..d }));
    }
    if says(raw, "tab_in"@, val) && is_float_text(val) {
        assert("tab_in"@ != "gutter_in"@) by {
            reveal_strlit("tab_in");
            reveal_strlit("gutter_in");
            assert("tab_in"@.len() != "gutter_in"@.len());
        }
        assert("tab_in"@ != "focal_frac"@) by {
            reveal_strlit("tab_in");
            reveal_strlit("focal_frac");
            assert("tab_in"@.len() != "focal_frac"@.len());
        }
        assert("tab_in"@ != "band_frac"@) by {
            reveal_strlit("tab_in");
            reveal_strlit("band_frac");
            assert("tab_in"@.len() != "band_frac"@.len());
        }
        assert("tab_in"@ != "dwell_ms"@) by {
            reveal_strlit("tab_in");
            reveal_strlit("dwell_ms");
            assert("tab_in"@.len() != "dwell_ms"@.len());
        }
        assert("tab_in"@ != "tap_style"@) by {
            reveal_strlit("tab_in");
            reveal_strlit("tap_style");
            assert("tab_in"@.len() != "tap_style"@.len());
        }
        lemma_root_line(raw, "tab_in"@, val);
        assert(spec_parse(raw) == Ok::<ConfigView, Seq<char>>(ConfigView { tab_in: val, ..d }));
    }
    if says(raw, "tab_length_in"@, val) && is_float_text(val) {
        assert("tab_length_in"@ != "gutter_in"@) by {
            reveal_strlit("tab_length_in");
            reveal_strlit("gutter_in");
            assert("tab_length_in"@.len() != "gutter_in"@.len());
        }
        assert("tab_length_in"@ != "focal_frac"@) by {
            reveal_strlit("tab_length_in");
            reveal_strlit("focal_frac");
            assert("tab_length_in"@.len() != "focal_frac"@.len());
        }
        assert("tab_length_in"@ != "band_frac"@) by {
            reveal_strlit("tab_length_in");
            reveal_strlit("band_frac");
            assert("tab_length_in"@.len() != "band_frac"@.len());
        }
        assert("tab_length_in"@ != "dwell_ms"@) by {
            reveal_strlit("tab_length_in");
            reveal_strlit("dwell_ms");
            assert("tab_length_in"@.len() != "dwell_ms"@.len());
        }
        assert("tab_length_in"@ != "tap_style"@) by {
            reveal_strlit("tab_length_in");
            reveal_strlit("tap_style");
            assert("tab_length_in"@.len() != "tap_style"@.len());
        }
        assert("tab_length_in"@ != "tab_in"@) by {
            reveal_strlit("tab_length_in");
            reveal_strlit("tab_in");
            assert("tab_length_in"@.len() != "tab_in"@.len());
        }
        lemma_root_line(raw, "tab_length_in"@, val);
        assert(spec_parse(raw) == Ok::<ConfigView, Seq<char>>(ConfigView { tab_length_in: val, ..d }));
    }
    if says(raw, "frame_in"@, val) && is_float_text(val) {
        assert("frame_in"@ != "gutter_in"@) by {
            reveal_strlit("frame_in");
            reveal_strlit("gutter_in");
            assert("frame_in"@.len() != "gutter_in"@.len());
        }
        assert("frame_in"@ != "focal_frac"@) by {
            reveal_strlit("frame_in");
            reveal_strlit("focal_frac");
            assert("frame_in"@.len() != "focal_frac"@.len());
        }
        assert("frame_in"@ != "band_frac"@) by {
            reveal_strlit("frame_in");
            reveal_strlit("band_frac");
            assert("frame_in"@.len() != "band_frac"@.len());
        }
        assert("frame_in"@ != "dwell_ms"@) by {
            reveal_strlit("frame_in");
            reveal_strlit("dwell_ms");
            assert("frame_in"@[0] != "dwell_ms"@[0]);
        }
        assert("frame_in"@ != "tap_style"@) by {
            reveal_strlit("frame_in");
            reveal_strlit("tap_style");
            assert("frame_in"@.len() != "tap_style"@.len());
        }
        assert("frame_in"@ != "tab_in"@) by {
            reveal_strlit("frame_in");
            reveal_strlit("tab_in");
            assert("frame_in"@.len() != "tab_in"@.len());
        }
        assert("frame_in"@ != "tab_length_in"@) by {
            reveal_strlit("frame_in");
            reveal_strlit("tab_length_in");
            assert("frame_in"@.len() != "tab_length_in"@.len());
        }
        lemma_root_line(raw, "frame_in"@, val);
        assert(spec_parse(raw) == Ok::<ConfigView, Seq<char>>(ConfigView { frame_in: val, ..d }));
    }
    if says(raw, "stage_in"@, val) && is_float_text(val) {
        assert("stage_in"@ != "gutter_in"@) by {
            reveal_strlit("stage_in");
            reveal_strlit("gutter_in");
            assert("stage_in"@.len() != "gutter_in"@.len());
        }
        assert("stage_in"@ != "focal_frac"@) by {
            reveal_strlit("stage_in");
            reveal_strlit("focal_frac");
            assert("stage_in"@.len() != "focal_frac"@.len());
        }
        assert("stage_in"@ != "band_frac"@) by {
            reveal_strlit("stage_in");
            reveal_strlit("band_frac");
            assert("stage_in"@.len() != "band_frac"@.len());
        }
        assert("stage_in"@ != "dwell_ms"@) by {
            reveal_strlit("stage_in");
            reveal_strlit("dwell_ms");
            assert("stage_in"@[0] != "dwell_ms"@[0]);
        }
        assert("stage_in"@ != "tap_style"@) by {
            reveal_strlit("stage_in");
            reveal_strlit("tap_style");
            assert("stage_in"@.len() != "tap_style"@.len());
        }
        assert("stage_in"@ != "tab_in"@) by {
            reveal_strlit("stage_in");
            reveal_strlit("tab_in");
            assert("stage_in"@.len() != "tab_in"@.len());
        }
        assert("stage_in"@ != "tab_length_in"@) by {
            reveal_strlit("stage_in");
            reveal_strlit("tab_length_in");
            assert("stage_in"@.len() != "tab_length_in"@.len());
        }
        assert("stage_in"@ != "frame_in"@) by {
            reveal_strlit("stage_in");
            reveal_strlit("frame_in");
            assert("stage_in"@[0] != "frame_in"@[0]);
        }
        lemma_root_line(raw, "stage_in"@, val);
        assert(spec_parse(raw) == Ok::<ConfigView, Seq<char>>(ConfigView { stage_in: val, ..d }));
    }
    if says(raw, "screen_diagonal_in"@, val) && is_float_text(val) {
        assert("screen_diagonal_in"@ != "gutter_in"@) by {
            reveal_strlit("screen_diagonal_in");
            reveal_strlit("gutter_in");
            assert("screen_diagonal_in"@.len() != "gutter_in"@.len());
        }
        assert("screen_diagonal_in"@ != "focal_frac"@) by {
            reveal_strlit("screen_diagonal_in");
            reveal_strlit("focal_frac");
            assert("screen_diagonal_in"@.len() != "focal_frac"@.len());
        }
        assert("screen_diagonal_in"@ != "band_frac"@) by {
            reveal_strlit("screen_diagonal_in");
            reveal_strlit("band_frac");
            assert("screen_diagonal_in"@.len() != "band_frac"@.len());
        }
        assert("screen_diagonal_in"@ != "dwell_ms"@) by {
            reveal_strlit("screen_diagonal_in");
            reveal_strlit("dwell_ms");
            assert("screen_diagonal_in"@.len() != "dwell_ms"@.len());
        }
        assert("screen_diagonal_in"@ != "tap_style"@) by {
            reveal_strlit("screen_diagonal_in");
            reveal_strlit("tap_style");
            assert("screen_diagonal_in"@.len() != "tap_style"@.len());
        }
        assert("screen_diagonal_in"@ != "tab_in"@) by {
            reveal_strlit("screen_diagonal_in");
            reveal_strlit("tab_in");
            assert("screen_diagonal_in"@.len() != "tab_in"@.len());
        }
        assert("screen_diagonal_in"@ != "tab_length_in"@) by {
            reveal_strlit("screen_diagonal_in");
            reveal_strlit("tab_length_in");
            assert("screen_diagonal_in"@.len() != "tab_length_in"@.len());
        }
        assert("screen_diagonal_in"@ != "frame_in"@) by {
            reveal_strlit("screen_diagonal_in");
            reveal_strlit("frame_in");
            assert("screen_diagonal_in"@.len() != "frame_in"@.len());
        }
        assert("screen_diagonal_in"@ != "stage_in"@) by {
            reveal_strlit("screen_diagonal_in");
            reveal_strlit("stage_in");
            assert("screen_diagonal_in"@.len() != "stage_in"@.len());
        }
        lemma_root_line(raw, "screen_diagonal_in"@, val);
        assert(spec_parse(raw) == Ok::<ConfigView, Seq<char>>(ConfigView { screen_diagonal_in: val, ..d }));
    }
    if says(raw, "dwell_ms"@, val) {
        assert("dwell_ms"@ != "gutter_in"@) by {
            reveal_strlit("dwell_ms");
            reveal_strlit("gutter_in");
            assert("dwell_ms"@.len() != "gutter_in"@.len());
        }
        assert("dwell_ms"@ != "focal_frac"@) by {
            reveal_strlit("dwell_ms");
            reveal_strlit("focal_frac");
            assert("dwell_ms"@.len() != "focal_frac"@.len());
        }
        assert("dwell_ms"@ != "band_frac"@) by {
            reveal_strlit("dwell_ms");
            reveal_strlit("band_frac");
            assert("dwell_ms"@.len() != "band_frac"@.len());
        }
        lemma_root_line(raw, "dwell_ms"@, val);

    }
    if says(raw, "screen_diagonal_in"@, val) && !is_float_text(val) {
        assert("screen_diagonal_in"@ != "gutter_in"@) by {
            reveal_strlit("screen_diagonal_in");
            reveal_strlit("gutter_in");
            assert("screen_diagonal_in"@.len() != "gutter_in"@.len());
        }
        assert("screen_diagonal_in"@ != "focal_frac"@) by {
            reveal_strlit("screen_diagonal_in");
            reveal_strlit("focal_frac");
            assert("screen_diagonal_in"@.len() != "focal_frac"@.len());
        }
        assert("screen_diagonal_in"@ != "band_frac"@) by {
            reveal_strlit("screen_diagonal_in");
            reveal_strlit("band_frac");
            assert("screen_diagonal_in"@.len() != "band_frac"@.len());
        }
        assert("screen_diagonal_in"@ != "dwell_ms"@) by {
            reveal_strlit("screen_diagonal_in");
            reveal_strlit("dwell_ms");
            assert("screen_diagonal_in"@.len() != "dwell_ms"@.len());
        }
        assert("screen_diagonal_in"@ != "tap_style"@) by {
            reveal_strlit("screen_diagonal_in");
            reveal_strlit("tap_style");
            assert("screen_diagonal_in"@.len() != "tap_style"@.len());
        }
        assert("screen_diagonal_in"@ != "tab_in"@) by {
            reveal_strlit("screen_diagonal_in");
            reveal_strlit("tab_in");
            assert("screen_diagonal_in"@.len() != "tab_in"@.len());
        }
        assert("screen_diagonal_in"@ != "tab_length_in"@) by {
            reveal_strlit("screen_diagonal_in");
            reveal_strlit("tab_length_in");
            assert("screen_diagonal_in"@.len() != "tab_length_in"@.len());
        }
        assert("screen_diagonal_in"@ != "frame_in"@) by {
            reveal_strlit("screen_diagonal_in");
            reveal_strlit("frame_in");
            assert("screen_diagonal_in"@.len() != "frame_in"@.len());
        }
        assert("screen_diagonal_in"@ != "stage_in"@) by {
            reveal_strlit("screen_diagonal_in");
            reveal_strlit("stage_in");
            assert("screen_diagonal_in"@.len() != "stage_in"@.len());
        }
        lemma_root_line(raw, "screen_diagonal_in"@, val);

    }
}

/// A one-line file is that line applied to the defaults at the top of
/// the file, then finished.
proof fn lemma_root_line(raw: Seq<char>, key: Seq<char>, val: Seq<char>)
    requires
        one_line(raw),
        says(raw, key, val),
    ensures
        spec_parse(raw) == match spec_other_key(spec_default_config(), SecView::Root, key, val) {
            Ok((c, s)) => spec_flush(c, s),
            Err(e) => Err(at_line(1, e)),
        },
{
    lemma_one_line(raw);
    let lines = split_from(raw, '\n', 0);
    assert(lines[0] == raw);
    assert(parse_upto(lines, 0) == Ok::<(ConfigView, SecView), Seq<char>>((spec_default_config(), SecView::Root)));
}

/// A `[wire]` section of two end lines joins the wires: `a_process =` /
/// `b_process =` make that end match a process name, `a_title =` /
/// `b_title =` a window title. A file of just that section parses to the
/// defaults with that one wire.
pub proof fn law_wire_file(ra: Seq<char>, rb: Seq<char>, ka: Seq<char>, va: Seq<char>, kb: Seq<char>, vb: Seq<char>)
    requires
        one_line(ra),
        one_line(rb),
        ka == "a_process"@ || ka == "a_title"@,
        kb == "b_process"@ || kb == "b_title"@,
        says(ra, ka, va),
        says(rb, kb, vb),
    ensures
        spec_parse("[wire]"@ + seq!['\n'] + ra + seq!['\n'] + rb) == Ok::<ConfigView, Seq<char>>(
            ConfigView {
                wires: seq![
                    WireRuleView {
                        a: if ka == "a_process"@ {
                            MatcherView::Process(va)
                        } else {
                            MatcherView::Title(va)
                        },
                        b: if kb == "b_process"@ {
                            MatcherView::Process(vb)
                        } else {
                            MatcherView::Title(vb)
                        },
                    },
                ],
                ..spec_default_config()
            },
        ),
{
    reveal_strlit("a_process");
    reveal_strlit("a_title");
    reveal_strlit("b_process");
    reveal_strlit("b_title");
    assert("a_title"@[2] != "a_process"@[2]);
    assert("b_process"@[0] != "a_process"@[0]);
    assert("b_process"@[0] != "a_title"@[0]);
    assert("b_title"@[0] != "a_process"@[0]);
    assert("b_title"@[0] != "a_title"@[0]);
    assert("b_title"@[2] != "b_process"@[2]);
    lemma_header_lines();
    lemma_one_line(ra);
    lemma_one_line(rb);
    let x = "[wire]"@ + seq!['\n'] + ra;
    lemma_lines_join("[wire]"@, ra);
    lemma_lines_join(x, rb);
    let lines = split_from(x + seq!['\n'] + rb, '\n', 0);
    assert(lines =~= seq!["[wire]"@, ra, rb]);
    let d = spec_default_config();
    reveal_strlit("[app]");
    reveal_strlit("[wire]");
    assert(lines[0] == "[wire]"@);
    assert("[wire]"@ != "[app]"@) by {
        assert("[wire]"@.len() != "[app]"@.len());
    }
    assert(parse_upto(lines, 0) == Ok::<(ConfigView, SecView), Seq<char>>((d, SecView::Root)));
    assert(parse_upto(lines, 1) == Ok::<(ConfigView, SecView), Seq<char>>((d, SecView::Wire(None, None))));
    assert(lines[1] == ra);
    assert(lines[2] == rb);
    let ma = if ka == "a_process"@ {
        MatcherView::Process(va)
    } else {
        MatcherView::Title(va)
    };
    let mb = if kb == "b_process"@ {
        MatcherView::Process(vb)
    } else {
        MatcherView::Title(vb)
    };
    assert(spec_line(d, SecView::Wire(None, None), 2, ra) == Ok::<(ConfigView, SecView), Seq<char>>(
        (d, SecView::Wire(Some(ma), None)),
    ));
    assert(parse_upto(lines, 2) == Ok::<(ConfigView, SecView), Seq<char>>((d, SecView::Wire(Some(ma), None))));
    assert(spec_line(d, SecView::Wire(Some(ma), None), 3, rb) == Ok::<(ConfigView, SecView), Seq<char>>(
        (d, SecView::Wire(Some(ma), Some(mb))),
    ));
    assert(parse_upto(lines, 3) == Ok::<(ConfigView, SecView), Seq<char>>((d, SecView::Wire(Some(ma), Some(mb)))));
}

/// An `[ignore]` line adds one entry to the ignore list, after those
/// already there: `process =` a process-name glob, `title =` a title
/// glob; the section stays open.
pub proof fn law_ignore_line(cfg: ConfigView, n: nat, raw: Seq<char>, val: Seq<char>)
    ensures
        says(raw, "process"@, val) ==> spec_line(cfg, SecView::Ignore, n, raw) == Ok::<
            (ConfigView, SecView),
            Seq<char>,
        >((ConfigView { ignore: cfg.ignore.push(MatcherView::Process(val)), ..cfg }, SecView::Ignore)),
        says(raw, "title"@, val) ==> spec_line(cfg, SecView::Ignore, n, raw) == Ok::<
            (ConfigView, SecView),
            Seq<char>,
        >((ConfigView { ignore: cfg.ignore.push(MatcherView::Title(val)), ..cfg }, SecView::Ignore)),
{
    if says(raw, "title"@, val) {
        assert("title"@ != "process"@) by {
            reveal_strlit("title");
            reveal_strlit("process");
            assert("title"@.len() != "process"@.len());
        }
    }
}

/// The other lines of an `[app]` section: `slots =` (or `home =`) sets the
/// rule's preferences to the slots its list names, in order; `priority =`
/// turns the claim on for true, yes or on and off for false, no or off,
/// in any case; `focal_fit = W x H` sets the stage fit to the two
/// numbers. Nothing else about the rule or the file changes.
pub proof fn law_app_setting_line(
    cfg: ConfigView,
    rule: AppRuleView,
    problem: Option<Seq<char>>,
    n: nat,
    raw: Seq<char>,
    val: Seq<char>,
)
    ensures
        says(raw, "slots"@, val) && spec_slot_list(val) is Ok ==> spec_line(cfg, SecView::App(rule, problem), n, raw)
            == Ok::<(ConfigView, SecView), Seq<char>>(
            (cfg, SecView::App(AppRuleView { slots: spec_slot_list(val)->Ok_0, ..rule }, problem)),
        ),
        says(raw, "home"@, val) && spec_slot_list(val) is Ok ==> spec_line(cfg, SecView::App(rule, problem), n, raw)
            == Ok::<(ConfigView, SecView), Seq<char>>(
            (cfg, SecView::App(AppRuleView { slots: spec_slot_list(val)->Ok_0, ..rule }, problem)),
        ),
        says(raw, "priority"@, val) && (spec_lowercase(val) == "true"@ || spec_lowercase(val) == "yes"@
            || spec_lowercase(val) == "on"@) ==> spec_line(cfg, SecView::App(rule, problem), n, raw) == Ok::<
            (ConfigView, SecView),
            Seq<char>,
        >((cfg, SecView::App(AppRuleView { priority: true, ..rule }, problem))),
        says(raw, "priority"@, val) && (spec_lowercase(val) == "false"@ || spec_lowercase(val) == "no"@
            || spec_lowercase(val) == "off"@) ==> spec_line(cfg, SecView::App(rule, problem), n, raw) == Ok::<
            (ConfigView, SecView),
            Seq<char>,
        >((cfg, SecView::App(AppRuleView { priority: false, ..rule }, problem))),
        says(raw, "focal_fit"@, val) && (spec_split_once(val, 'x') matches Some((w, h)) && is_float_text(
            spec_trim(w),
        ) && is_float_text(spec_trim(h))) ==> spec_line(cfg, SecView::App(rule, problem), n, raw) == Ok::<
            (ConfigView, SecView),
            Seq<char>,
        >(
            (
                cfg,
                SecView::App(
                    AppRuleView {
                        focal_fit: Some(
                            FitView {
                                w: spec_trim(spec_split_once(val, 'x')->Some_0.0),
                                h: spec_trim(spec_split_once(val, 'x')->Some_0.1),
                            },
                        ),
                        ..rule
                    },
                    problem,
                ),
            ),
        ),
{
    if says(raw, "slots"@, val) {
        assert("slots"@ != "process"@) by {
            reveal_strlit("slots");
            reveal_strlit("process");
            assert("slots"@.len() != "process"@.len());
        }
        assert("slots"@ != "title"@) by {
            reveal_strlit("slots");
            reveal_strlit("title");
            assert("slots"@[0] != "title"@[0]);
        }
        assert("slots"@ != "class"@) by {
            reveal_strlit("slots");
            reveal_strlit("class");
            assert("slots"@[0] != "class"@[0]);
        }
        assert("slots"@ != "match"@) by {
            reveal_strlit("slots");
            reveal_strlit("match");
            assert("slots"@[0] != "match"@[0]);
        }
        assert("slots"@ != "home"@) by {
            reveal_strlit("slots");
            reveal_strlit("home");
            assert("slots"@.len() != "home"@.len());
        }
    }
    if says(raw, "home"@, val) {
        assert("home"@ != "process"@) by {
            reveal_strlit("home");
            reveal_strlit("process");
            assert("home"@.len() != "process"@.len());
        }
        assert("home"@ != "title"@) by {
            reveal_strlit("home");
            reveal_strlit("title");
            assert("home"@.len() != "title"@.len());
        }
        assert("home"@ != "class"@) by {
            reveal_strlit("home");
            reveal_strlit("class");
            assert("home"@.len() != "class"@.len());
        }
        assert("home"@ != "match"@) by {
            reveal_strlit("home");
            reveal_strlit("match");
            assert("home"@.len() != "match"@.len());
        }
    }
    if says(raw, "priority"@, val) {
        assert("priority"@ != "process"@) by {
            reveal_strlit("priority");
            reveal_strlit("process");
            assert("priority"@.len() != "process"@.len());
        }
        assert("priority"@ != "title"@) by {
            reveal_strlit("priority");
            reveal_strlit("title");
            assert("priority"@.len() != "title"@.len());
        }
        assert("priority"@ != "class"@) by {
            reveal_strlit("priority");
            reveal_strlit("class");
            assert("priority"@.len() != "class"@.len());
        }
        assert("priority"@ != "match"@) by {
            reveal_strlit("priority");
            reveal_strlit("match");
            assert("priority"@.len() != "match"@.len());
        }
        assert("priority"@ != "home"@) by {
            reveal_strlit("priority");
            reveal_strlit("home");
            assert("priority"@.len() != "home"@.len());
        }
        assert("priority"@ != "slots"@) by {
            reveal_strlit("priority");
            reveal_strlit("slots");
            assert("priority"@.len() != "slots"@.len());
        }
        reveal_strlit("true");
        reveal_strlit("yes");
        reveal_strlit("on");
        reveal_strlit("false");
        reveal_strlit("no");
        reveal_strlit("off");
        assert("false"@ != "true"@ && "false"@ != "yes"@ && "false"@ != "on"@) by {
            assert("false"@.len() != "true"@.len());
            assert("false"@.len() != "yes"@.len());
            assert("false"@.len() != "on"@.len());
        }
        assert("no"@ != "true"@ && "no"@ != "yes"@ && "no"@ != "on"@) by {
            assert("no"@.len() != "true"@.len());
            assert("no"@.len() != "yes"@.len());
            assert("no"@[1] != "on"@[1]);
        }
        assert("off"@ != "true"@ && "off"@ != "yes"@ && "off"@ != "on"@) by {
            assert("off"@.len() != "true"@.len());
            assert("off"@[0] != "yes"@[0]);
            assert("off"@.len() != "on"@.len());
        }
    }
    if says(raw, "focal_fit"@, val) {
        assert("focal_fit"@ != "process"@) by {
            reveal_strlit("focal_fit");
            reveal_strlit("process");
            assert("focal_fit"@.len() != "process"@.len());
        }
        assert("focal_fit"@ != "title"@) by {
            reveal_strlit("focal_fit");
            reveal_strlit("title");
            assert("focal_fit"@.len() != "title"@.len());
        }
        assert("focal_fit"@ != "class"@) by {
            reveal_strlit("focal_fit");
            reveal_strlit("class");
            assert("focal_fit"@.len() != "class"@.len());
        }
        assert("focal_fit"@ != "match"@) by {
            reveal_strlit("focal_fit");
            reveal_strlit("match");
            assert("focal_fit"@.len() != "match"@.len());
        }
        assert("focal_fit"@ != "home"@) by {
            reveal_strlit("focal_fit");
            reveal_strlit("home");
            assert("focal_fit"@.len() != "home"@.len());
        }
        assert("focal_fit"@ != "slots"@) by {
            reveal_strlit("focal_fit");
            reveal_strlit("slots");
            assert("focal_fit"@.len() != "slots"@.len());
        }
        assert("focal_fit"@ != "priority"@) by {
            reveal_strlit("focal_fit");
            reveal_strlit("priority");
            assert("focal_fit"@.len() != "priority"@.len());
        }
    }
}

/// The root switches: `tap_style =` sets the tap style its name says;
/// `force_active =` turns forcing on exactly when the value is `true`.
pub proof fn law_root_switch_line(cfg: ConfigView, n: nat, raw: Seq<char>, val: Seq<char>)
    ensures
        says(raw, "tap_style"@, val) && spec_tap_style(val) is Some ==> spec_line(cfg, SecView::Root, n, raw)
            == Ok::<(ConfigView, SecView), Seq<char>>(
            (ConfigView { tap_style: spec_tap_style(val)->Some_0, ..cfg }, SecView::Root),
        ),
        says(raw, "force_active"@, val) ==> spec_line(cfg, SecView::Root, n, raw) == Ok::<
            (ConfigView, SecView),
            Seq<char>,
        >((ConfigView { force_active: val == "true"@, ..cfg }, SecView::Root)),
{
    if says(raw, "tap_style"@, val) {
        assert("tap_style"@ != "gutter_in"@) by {
            reveal_strlit("tap_style");
            reveal_strlit("gutter_in");
            assert("tap_style"@[0] != "gutter_in"@[0]);
        }
        assert("tap_style"@ != "focal_frac"@) by {
            reveal_strlit("tap_style");
            reveal_strlit("focal_frac");
            assert("tap_style"@.len() != "focal_frac"@.len());
        }
        assert("tap_style"@ != "band_frac"@) by {
            reveal_strlit("tap_style");
            reveal_strlit("band_frac");
            assert("tap_style"@[0] != "band_frac"@[0]);
        }
        assert("tap_style"@ != "dwell_ms"@) by {
            reveal_strlit("tap_style");
            reveal_strlit("dwell_ms");
            assert("tap_style"@.len() != "dwell_ms"@.len());
        }
    }
    if says(raw, "force_active"@, val) {
        assert("force_active"@ != "gutter_in"@) by {
            reveal_strlit("force_active");
            reveal_strlit("gutter_in");
            assert("force_active"@.len() != "gutter_in"@.len());
        }
        assert("force_active"@ != "focal_frac"@) by {
            reveal_strlit("force_active");
            reveal_strlit("focal_frac");
            assert("force_active"@.len() != "focal_frac"@.len());
        }
        assert("force_active"@ != "band_frac"@) by {
            reveal_strlit("force_active");
            reveal_strlit("band_frac");
            assert("force_active"@.len() != "band_frac"@.len());
        }
        assert("force_active"@ != "dwell_ms"@) by {
            reveal_strlit("force_active");
            reveal_strlit("dwell_ms");
            assert("force_active"@.len() != "dwell_ms"@.len());
        }
        assert("force_active"@ != "tap_style"@) by {
            reveal_strlit("force_active");
            reveal_strlit("tap_style");
            assert("force_active"@.len() != "tap_style"@.len());
        }
        assert("force_active"@ != "tab_in"@) by {
            reveal_strlit("force_active");
            reveal_strlit("tab_in");
            assert("force_active"@.len() != "tab_in"@.len());
        }
        assert("force_active"@ != "tab_length_in"@) by {
            reveal_strlit("force_active");
            reveal_strlit("tab_length_in");
            assert("force_active"@.len() != "tab_length_in"@.len());
        }
        assert("force_active"@ != "frame_in"@) by {
            reveal_strlit("force_active");
            reveal_strlit("frame_in");
            assert("force_active"@.len() != "frame_in"@.len());
        }
        assert("force_active"@ != "stage_in"@) by {
            reveal_strlit("force_active");
            reveal_strlit("stage_in");
            assert("force_active"@.len() != "stage_in"@.len());
        }
        assert("force_active"@ != "screen_diagonal_in"@) by {
            reveal_strlit("force_active");
            reveal_strlit("screen_diagonal_in");
            assert("force_active"@.len() != "screen_diagonal_in"@.len());
        }
    }
}

/// An optional matcher, by its characters.
pub open spec fn opt_matcher_view(m: Option<Matcher>) -> Option<MatcherView> {
    match m {
        Some(x) => Some(x@),
        None => None,
    }
}

/// The section of the config file the parser is in.
enum Sec {
    Root,
    App(AppRule, Option<Vec<char>>),
    Wire(Option<Matcher>, Option<Matcher>),
    Ignore,
}

impl View for Sec {
    type V = SecView;

    closed spec fn view(&self) -> SecView {
        match self {
            Sec::Root => SecView::Root,
            Sec::App(rule, problem) => SecView::App(
                rule@,
                match problem {
                    Some(p) => Some(p@),
                    None => None,
                },
            ),
            Sec::Wire(a, b) => SecView::Wire(opt_matcher_view(*a), opt_matcher_view(*b)),
            Sec::Ignore => SecView::Ignore,
        }
    }
}

/// True when `k` spells the literal `lit`.
fn is(k: &Vec<char>, lit: &str) -> (b: bool)
    ensures
        b == (k@ == lit@),
{
    seq_eq(k, &chars_of(lit))
}

/// `line N: e`.
fn at(n: usize, e: &Vec<char>) -> (r: Vec<char>)
    ensures
        r@ == at_line(n as nat, e@),
{
    let head = concat(&lit_then("line ", &decimal(n)), &chars_of(": "));
    concat(&head, e)
}

/// Finish the section in progress.
fn flush(cfg: &mut Config, sec: Sec) -> (r: Result<(), Vec<char>>)
    ensures
        match spec_flush(old(cfg)@, sec@) {
            Ok(c) => r is Ok && final(cfg)@ == c,
            Err(e) => r matches Err(m) && m@ == e,
        },
{
    match sec {
        Sec::Root => Ok(()),
        Sec::Ignore => Ok(()),
        Sec::App(rule, None) => {
            let ghost before = cfg.apps@;
            cfg.apps.push(rule);
            proof {
                assert(app_views(cfg.apps@) =~= app_views(before).push(rule@));
            }
            Ok(())
        },
        Sec::App(_, Some(problem)) => {
            let w = string_of(&concat(&problem, &chars_of(" — [app] rule skipped")));
            let ghost before = cfg.warnings@;
            cfg.warnings.push(w);
            proof {
                assert(string_views(cfg.warnings@) =~= string_views(before).push(w@));
            }
            Ok(())
        },
        Sec::Wire(a, b) => match (a, b) {
            (None, _) => Err(chars_of("[wire] needs a_process or a_title")),
            (Some(_), None) => Err(chars_of("[wire] needs b_process or b_title")),
            (Some(a), Some(b)) => {
                let rule = WireRule { a, b };
                let ghost before = cfg.wires@;
                cfg.wires.push(rule);
                proof {
                    assert(wire_views(cfg.wires@) =~= wire_views(before).push(rule@));
                }
                Ok(())
            },
        },
    }
}

/// True when `v` holds `s`.
fn has_slot(v: &Vec<SlotId>, s: SlotId) -> (b: bool)
    ensures
        b == v@.contains(s),
{
    let mut i: usize = 0;
    while i < v.len()
        invariant
            i <= v.len(),
            forall|j: int| 0 <= j < i ==> v@[j] != s,
        decreases v.len() - i,
    {
        if v[i] == s {
            assert(v@[i as int] == s);
            return true;
        }
        i = i + 1;
    }
    false
}

/// Append each slot of `group` that `out` does not hold yet, in order.
fn add_group(out: &mut Vec<SlotId>, group: &Vec<SlotId>)
    ensures
        final(out)@ == add_new(old(out)@, group@),
{
    let mut j: usize = 0;
    assert(group@.subrange(0, group@.len() as int) =~= group@);
    while j < group.len()
        invariant
            j <= group.len(),
            add_new(out@, group@.subrange(j as int, group@.len() as int)) == add_new(
                old(out)@,
                group@,
            ),
        decreases group.len() - j,
    {
        let s = group[j];
        proof {
            let rest = group@.subrange(j as int, group@.len() as int);
            assert(rest[0] == s);
            assert(rest.drop_first() =~= group@.subrange(j + 1, group@.len() as int));
        }
        if !has_slot(out, s) {
            out.push(s);
        }
        j = j + 1;
    }
    proof {
        assert(group@.subrange(group@.len() as int, group@.len() as int) =~= Seq::<SlotId>::empty());
    }
}

/// A `slots =` list.
fn slot_list(v: &Vec<char>) -> (r: Result<Vec<SlotId>, Vec<char>>)
    ensures
        match spec_slot_list(v@) {
            Ok(l) => r matches Ok(x) && x@ == l,
            Err(e) => r matches Err(m) && m@ == e,
        },
{
    let pieces = split_all(v, ',');
    let ghost ps = views(pieces@);
    let mut out: Vec<SlotId> = Vec::new();
    let mut i: usize = 0;
    while i < pieces.len()
        invariant
            i <= pieces.len(),
            ps == views(pieces@),
            ps == split_from(v@, ',', 0),
            slots_upto(ps, i as int) == Ok::<Seq<SlotId>, Seq<char>>(out@),
        decreases pieces.len() - i,
    {
        let name = trim(&pieces[i]);
        assert(ps[i as int] == pieces@[i as int]@);
        if name.len() > 0 {
            let s = string_of(&name);
            match crate::layout::slot_group(s.as_str()) {
                None => {
                    proof {
                        lemma_slots_err_sticks(ps, i + 1, ps.len() as int);
                    }
                    return Err(lit_then("unknown slot ", &quoted(&name)));
                },
                Some(g) => {
                    add_group(&mut out, &g);
                },
            }
        }
        i = i + 1;
    }
    if out.len() == 0 {
        return Err(chars_of("slots wants at least one slot or group name"));
    }
    Ok(out)
}

/// The slots-list error, once found, stays the answer.
proof fn lemma_slots_err_sticks(pieces: Seq<Seq<char>>, i: int, n: int)
    requires
        0 <= i <= n,
        slots_upto(pieces, i) is Err,
    ensures
        slots_upto(pieces, n) == slots_upto(pieces, i),
    decreases n - i,
{
    if n > i {
        lemma_slots_err_sticks(pieces, i, n - 1);
    }
}

/// `key: bad number "v"`.
fn bad_num(k: &Vec<char>, v: &Vec<char>) -> (r: Vec<char>)
    ensures
        r@ == bad_number(k@, v@),
{
    concat(&concat(k, &chars_of(": bad number ")), &quoted(v))
}

/// One `key = value` line inside an `[app]` section. A refused line
/// leaves the rule as it was.
fn app_key(rule: &mut AppRule, k: &Vec<char>, v: &Vec<char>) -> (r: Result<(), Vec<char>>)
    ensures
        match spec_app_key(old(rule)@, k@, v@) {
            Ok(x) => r is Ok && final(rule)@ == x,
            Err(e) => r matches Err(m) && m@ == e && final(rule)@ == old(rule)@,
        },
{
    if is(k, "process") {
        rule.matcher = Matcher::Process(string_of(v));
        Ok(())
    } else if is(k, "title") {
        rule.matcher = Matcher::Title(string_of(v));
        Ok(())
    } else if is(k, "class") {
        rule.matcher = Matcher::Class(string_of(v));
        Ok(())
    } else if is(k, "match") {
        rule.matcher = Matcher::Substring(string_of(v));
        Ok(())
    } else if is(k, "home") || is(k, "slots") {
        match slot_list(v) {
            Ok(l) => {
                rule.slots = l;
                Ok(())
            },
            Err(e) => Err(e),
        }
    } else if is(k, "priority") {
        let l = lowercase_chars(v);
        if is(&l, "true") || is(&l, "yes") || is(&l, "on") {
            rule.priority = true;
            Ok(())
        } else if is(&l, "false") || is(&l, "no") || is(&l, "off") {
            rule.priority = false;
            Ok(())
        } else {
            Err(lit_then("priority wants true or false, got ", &quoted(&l)))
        }
    } else if is(k, "focal_fit") {
        match split_once(v, 'x') {
            None => Err(chars_of("focal_fit wants WxH, e.g. 0.55 x 1.0")),
            Some((w, h)) => {
                let tw = trim(&w);
                let th = trim(&h);
                if !is_float(&tw) {
                    Err(bad_num(k, &w))
                } else if !is_float(&th) {
                    Err(bad_num(k, &h))
                } else {
                    rule.focal_fit = Some(Fit { w: string_of(&tw), h: string_of(&th) });
                    Ok(())
                }
            },
        }
    } else {
        Err(concat(&lit_then("unknown key ", &quoted(k)), &chars_of(" in [app]")))
    }
}

/// `unknown key "k" here`.
fn unknown(k: &Vec<char>) -> (r: Vec<char>)
    ensures
        r@ == unknown_key(k@),
{
    concat(&lit_then("unknown key ", &quoted(k)), &chars_of(" here"))
}

/// One `key = value` line outside an `[app]` section.
fn other_key(cfg: &mut Config, sec: Sec, k: &Vec<char>, v: &Vec<char>) -> (r: Result<Sec, Vec<char>>)
    requires
        !(sec is App),
    ensures
        match spec_other_key(old(cfg)@, sec@, k@, v@) {
            Ok((c, s)) => r matches Ok(x) && x@ == s && final(cfg)@ == c,
            Err(e) => r matches Err(m) && m@ == e,
        },
{
    match sec {
        Sec::Root => {
            let number = is_float(&trim(v));
            if is(k, "gutter_in") {
                if !number {
                    return Err(bad_num(k, v));
                }
                cfg.gutter_in = string_of(v);
            } else if is(k, "focal_frac") {
                if !number {
                    return Err(bad_num(k, v));
                }
                cfg.focal_frac = string_of(v);
            } else if is(k, "band_frac") {
                if !number {
                    return Err(bad_num(k, v));
                }
                cfg.band_frac = string_of(v);
            } else if is(k, "dwell_ms") {
                match parse_u64(&trim(v)) {
                    Some(ms) => {
                        cfg.dwell_ms = ms;
                    },
                    None => {
                        return Err(bad_num(k, v));
                    },
                }
            } else if is(k, "tap_style") {
                let s = string_of(v);
                match TapStyle::from_name(s.as_str()) {
                    Some(t) => {
                        cfg.tap_style = t;
                    },
                    None => {
                        return Err(lit_then("tap_style wants tab or border, got ", &quoted(v)));
                    },
                }
            } else if is(k, "tab_in") {
                if !number {
                    return Err(bad_num(k, v));
                }
                cfg.tab_in = string_of(v);
            } else if is(k, "tab_length_in") {
                if !number {
                    return Err(bad_num(k, v));
                }
                cfg.tab_length_in = string_of(v);
            } else if is(k, "frame_in") {
                if !number {
                    return Err(bad_num(k, v));
                }
                cfg.frame_in = string_of(v);
            } else if is(k, "stage_in") {
                if !number {
                    return Err(bad_num(k, v));
                }
                cfg.stage_in = string_of(v);
            } else if is(k, "screen_diagonal_in") {
                if !number {
                    return Err(bad_num(k, v));
                }
                cfg.screen_diagonal_in = string_of(v);
            } else if is(k, "force_active") {
                cfg.force_active = is(v, "true");
            } else {
                return Err(unknown(k));
            }
            Ok(Sec::Root)
        },
        Sec::Ignore => {
            let m = if is(k, "process") {
                Matcher::Process(string_of(v))
            } else if is(k, "title") {
                Matcher::Title(string_of(v))
            } else {
                return Err(unknown(k));
            };
            let ghost before = cfg.ignore@;
            cfg.ignore.push(m);
            proof {
                assert(matcher_views(cfg.ignore@) =~= matcher_views(before).push(m@));
            }
            Ok(Sec::Ignore)
        },
        Sec::Wire(a, b) => {
            if is(k, "a_process") {
                Ok(Sec::Wire(Some(Matcher::Process(string_of(v))), b))
            } else if is(k, "a_title") {
                Ok(Sec::Wire(Some(Matcher::Title(string_of(v))), b))
            } else if is(k, "b_process") {
                Ok(Sec::Wire(a, Some(Matcher::Process(string_of(v)))))
            } else if is(k, "b_title") {
                Ok(Sec::Wire(a, Some(Matcher::Title(string_of(v)))))
            } else {
                Err(unknown(k))
            }
        },
        Sec::App(_, _) => Ok(sec),
    }
}

/// Line `n` (counted from 1) applied to the parser's state.
fn line_step(cfg: &mut Config, sec: Sec, n: usize, raw: &Vec<char>) -> (r: Result<Sec, Vec<char>>)
    ensures
        match spec_line(old(cfg)@, sec@, n as nat, raw@) {
            Ok((c, s)) => r matches Ok(x) && x@ == s && final(cfg)@ == c,
            Err(e) => r matches Err(m) && m@ == e,
        },
{
    let hash = find_char(raw, '#', 0);
    proof {
        crate::text::lemma_find(raw@, '#', 0);
    }
    let line = trim(&slice(raw, 0, hash));
    if line.len() == 0 {
        return Ok(sec);
    }
    if line[0] == '[' {
        match flush(cfg, sec) {
            Err(e) => {
                return Err(at(n, &e));
            },
            Ok(()) => {},
        }
        if is(&line, "[app]") {
            let rule = AppRule {
                matcher: Matcher::Any,
                slots: Vec::new(),
                priority: false,
                focal_fit: None,
            };
            return Ok(Sec::App(rule, None));
        } else if is(&line, "[wire]") {
            return Ok(Sec::Wire(None, None));
        } else if is(&line, "[ignore]") {
            return Ok(Sec::Ignore);
        } else {
            return Err(at(n, &lit_then("unknown section ", &line)));
        }
    }
    match split_once(&line, '=') {
        None => Err(at(n, &lit_then("expected key = value, got ", &quoted(&line)))),
        Some((k0, v0)) => {
            let k = trim(&k0);
            let v = trim(&v0);
            match sec {
                Sec::App(rule, problem) => {
                    let mut rule = rule;
                    match app_key(&mut rule, &k, &v) {
                        Ok(()) => Ok(Sec::App(rule, problem)),
                        Err(e) => {
                            let problem = match problem {
                                None => Some(at(n, &e)),
                                Some(p) => Some(p),
                            };
                            Ok(Sec::App(rule, problem))
                        },
                    }
                },
                other => match other_key(cfg, other, &k, &v) {
                    Ok(s) => Ok(s),
                    Err(e) => Err(at(n, &e)),
                },
            }
        },
    }
}

/// A refusal, once made, is the parse's answer.
proof fn lemma_parse_err_sticks(lines: Seq<Seq<char>>, i: int, n: int)
    requires
        0 <= i <= n,
        parse_upto(lines, i) is Err,
    ensures
        parse_upto(lines, n) == parse_upto(lines, i),
    decreases n - i,
{
    if n > i {
        lemma_parse_err_sticks(lines, i, n - 1);
    }
}

/// Parse the config text format: `key = value` lines, with `[app]`,
/// `[wire]` and `[ignore]` sections repeated as needed. `#` starts a
/// comment. An unknown root key is refused, naming its line; a problem
/// inside an `[app]` rule skips that rule with a warning instead.
pub fn parse(text: &str) -> (r: Result<Config, String>)
    ensures
        match spec_parse(text@) {
            Ok(c) => r matches Ok(x) && x@ == c,
            Err(e) => r matches Err(m) && m@ == e,
        },
{
    let chars = chars_of(text);
    let lines = split_all(&chars, '\n');
    let ghost ls = views(lines@);
    let mut cfg = Config::default();
    let mut sec = Sec::Root;
    let mut i: usize = 0;
    while i < lines.len()
        invariant
            i <= lines.len(),
            ls == views(lines@),
            ls == split_from(text@, '\n', 0),
            parse_upto(ls, i as int) == Ok::<(ConfigView, SecView), Seq<char>>((cfg@, sec@)),
        decreases lines.len() - i,
    {
        assert(ls[i as int] == lines@[i as int]@);
        match line_step(&mut cfg, sec, i + 1, &lines[i]) {
            Ok(s) => {
                sec = s;
            },
            Err(e) => {
                proof {
                    lemma_parse_err_sticks(ls, i + 1, ls.len() as int);
                }
                return Err(string_of(&e));
            },
        }
        i = i + 1;
    }
    match flush(&mut cfg, sec) {
        Ok(()) => Ok(cfg),
        Err(e) => Err(string_of(&e)),
    }
}

/// The commented configuration shipped beside the binary: every knob
/// spelled out, and a few rules to start from.
pub const EXAMPLE: &'static str = r#"# focal-desk configuration.
# Restart focal-desk after editing.

gutter_in          = 1.5    # structural gap; actively resizes windows
focal_frac         = 0.56   # width of the focal column (fraction of screen)
band_frac          = 0.22   # height of the top/bottom bands
dwell_ms           = 0      # 0 = off: only a tap on a window's tab promotes, a
                            # click into a window body never does. Set e.g. 1200
                            # to bring back hold-the-foreground-to-promote.
tap_style          = tab    # tab = one tab facing screen center; border = all
                            # the way around. Tap it to promote, drag it to move.
tab_in             = 0.75   # tab depth / border width, inches (max: half the gutter)
tab_length_in      = 5      # tab length along its edge, inches
frame_in           = 0.15   # the slim sides of a window's frame, inches
stage_in           = 0.35   # the stage's frame: slim all round, no tab, inches
screen_diagonal_in = 65     # physical size of the desk panel
force_active       = false  # true = manage windows even without the desk display

# Slots: focal, left-top, left-bottom, right-top, right-bottom,
#        top-1, top-2, bottom-1, bottom-2,
#        corner-tl, corner-tr, corner-bl, corner-br

[app]
process   = *windowsterminal*
home      = left-bottom
focal_fit = 0.55 x 1.0      # a terminal is a column, not a wall

[app]
process   = *code*
home      = left-top

[app]
title     = *Chat*
home      = right-top

# Assignable slots (2026-09-04): ordered preferences per app - the first
# free one is taken. Groups: corners, sides, left, right, top, bottom, or
# any slot name. `priority = true` claims the first preference even if it
# is taken; the occupant moves to its own next preference. `match =` is a
# substring of the exe, the class or the title. A window you dragged by
# its tab keeps its slot against any rule until it closes. A rule with a
# typo is logged and skipped; the rest of the file still loads.
# Uncomment to use:
#
# [app]
# match    = household          # the kiosk, wherever it shows up
# slots    = top
# priority = true
#
# [app]
# process  = *windowsterminal*
# slots    = corners
#
# [app]
# process  = *chrome*           # browsers to the sides
# slots    = sides
#
# [app]
# process  = *olk*              # mail (new Outlook): top or bottom
# slots    = top, bottom

# Never manage these, and hold the whole layout still while one of them
# is in front. Snipping Tool, the task switcher and the start menu are
# already covered by the built-in list; entries here are added to it.
# [ignore]
# process = *obs64*
"#;

} // verus!
