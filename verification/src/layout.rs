//! The slot layout: thirteen regions that tile the screen, the focal
//! stage in the middle and twelve home slots around it.
//!
//! ```text
//! +----+--------+--------+----+
//! | c  |  t1    |  t2    | c  |   band
//! +----+--------+--------+----+
//! | L1 |                 | R1 |
//! +----+      FOCAL      +----+   middle
//! | L2 |                 | R2 |
//! +----+--------+--------+----+
//! | c  |  b1    |  b2    | c  |   band
//! +----+--------+--------+----+
//! ```
//! This module names the slots and orders them; the pixel geometry of
//! each region is computed by the host, which owns all floating point.
use vstd::prelude::*;

use crate::text::{chars_of, seq_eq};

verus! {

/// One of the 13 fixed slots. Slot 0 is the focal stage.
#[derive(Clone, Copy, Debug, PartialEq, Eq, Hash, PartialOrd, Ord, Structural)]
pub struct SlotId(pub u8);

/// The slot number of the focal stage: `SlotId(FOCAL)`.
pub const FOCAL: u8 = 0;

/// How many slots the layout has: the stage plus twelve homes.
pub const SLOT_COUNT: usize = 13;

/// The size class of a slot's region.
#[derive(Clone, Copy, Debug, PartialEq, Eq, Structural)]
pub enum Tier {
    Focal,
    Side,
    Small,
}

/// The size class of each slot: the stage, the four side slots, and the
/// eight slots of the top and bottom bands (corners included).
pub open spec fn spec_tier(i: int) -> Tier {
    if i == 0 {
        Tier::Focal
    } else if 1 <= i <= 4 {
        Tier::Side
    } else {
        Tier::Small
    }
}

/// The size class of a slot's region.
pub fn tier_of(s: SlotId) -> (t: Tier)
    requires
        s.0 < SLOT_COUNT,
    ensures
        t == spec_tier(s.0 as int),
{
    if s.0 == 0 {
        Tier::Focal
    } else if s.0 <= 4 {
        Tier::Side
    } else {
        Tier::Small
    }
}

/// The config-file spelling of each slot.
pub open spec fn spec_slot_name(i: int) -> Seq<char> {
    if i == 0 {
        "focal"@
    } else if i == 1 {
        "left-top"@
    } else if i == 2 {
        "left-bottom"@
    } else if i == 3 {
        "right-top"@
    } else if i == 4 {
        "right-bottom"@
    } else if i == 5 {
        "top-1"@
    } else if i == 6 {
        "top-2"@
    } else if i == 7 {
        "bottom-1"@
    } else if i == 8 {
        "bottom-2"@
    } else if i == 9 {
        "corner-tl"@
    } else if i == 10 {
        "corner-tr"@
    } else if i == 11 {
        "corner-bl"@
    } else {
        "corner-br"@
    }
}

/// The config-file name of a slot.
pub fn slot_name(s: SlotId) -> (name: &'static str)
    requires
        s.0 < SLOT_COUNT,
    ensures
        name@ == spec_slot_name(s.0 as int),
{
    match s.0 {
        0 => "focal",
        1 => "left-top",
        2 => "left-bottom",
        3 => "right-top",
        4 => "right-bottom",
        5 => "top-1",
        6 => "top-2",
        7 => "bottom-1",
        8 => "bottom-2",
        9 => "corner-tl",
        10 => "corner-tr",
        11 => "corner-bl",
        _ => "corner-br",
    }
}

/// The slot a config file names, if the name is one of the thirteen.
pub open spec fn spec_slot_from_name(name: Seq<char>) -> Option<SlotId> {
    if exists|i: int| 0 <= i < SLOT_COUNT && spec_slot_name(i) == name {
        Some(SlotId((choose|i: int| 0 <= i < SLOT_COUNT && spec_slot_name(i) == name) as u8))
    } else {
        None
    }
}

/// No two slots share a name.
pub proof fn lemma_slot_names_distinct(i: int, j: int)
    requires
        0 <= i < SLOT_COUNT,
        0 <= j < SLOT_COUNT,
        i != j,
    ensures
        spec_slot_name(i) != spec_slot_name(j),
{
    reveal_strlit("focal");
    reveal_strlit("left-top");
    reveal_strlit("left-bottom");
    reveal_strlit("right-top");
    reveal_strlit("right-bottom");
    reveal_strlit("top-1");
    reveal_strlit("top-2");
    reveal_strlit("bottom-1");
    reveal_strlit("bottom-2");
    reveal_strlit("corner-tl");
    reveal_strlit("corner-tr");
    reveal_strlit("corner-bl");
    reveal_strlit("corner-br");
    let a = spec_slot_name(i);
    let b = spec_slot_name(j);
    // Names of equal length differ at the first, fifth, eighth or ninth character.
    assert(a.len() != b.len() || a[0] != b[0] || a[4] != b[4] || a[7] != b[7] || a[8] != b[8]);
}

/// Every slot is found again by its own name.
pub proof fn law_slot_names_round_trip(i: int)
    requires
        0 <= i < SLOT_COUNT,
    ensures
        spec_slot_from_name(spec_slot_name(i)) == Some(SlotId(i as u8)),
{
    let name = spec_slot_name(i);
    assert(0 <= i < SLOT_COUNT && spec_slot_name(i) == name);
    let k = choose|k: int| 0 <= k < SLOT_COUNT && spec_slot_name(k) == name;
    if k != i {
        lemma_slot_names_distinct(k, i);
    }
}

/// The slot named `name`, if any.
pub fn slot_from_name(name: &str) -> (r: Option<SlotId>)
    ensures
        r == spec_slot_from_name(name@),
        r matches Some(s) ==> s.0 < SLOT_COUNT && spec_slot_name(s.0 as int) == name@,
{
    let want = chars_of(name);
    let mut i: u8 = 0;
    while i < 13
        invariant
            i <= 13,
            want@ == name@,
            forall|j: int| 0 <= j < i ==> spec_slot_name(j) != name@,
        decreases 13 - i,
    {
        let cand = chars_of(slot_name(SlotId(i)));
        if seq_eq(&cand, &want) {
            proof {
                let k = choose|k: int| 0 <= k < SLOT_COUNT && spec_slot_name(k) == name@;
                if k != i as int {
                    lemma_slot_names_distinct(k, i as int);
                }
            }
            return Some(SlotId(i));
        }
        i = i + 1;
    }
    None
}

/// The slots a group name stands for in a `slots =` list, in order:
/// the group names `corners`, `sides`, `left`, `right`, `top` and
/// `bottom`, or a single slot's own name.
pub open spec fn spec_slot_group(name: Seq<char>) -> Option<Seq<SlotId>> {
    if name == "corners"@ {
        Some(seq![SlotId(9), SlotId(10), SlotId(11), SlotId(12)])
    } else if name == "sides"@ {
        Some(seq![SlotId(1), SlotId(2), SlotId(3), SlotId(4)])
    } else if name == "left"@ {
        Some(seq![SlotId(1), SlotId(2)])
    } else if name == "right"@ {
        Some(seq![SlotId(3), SlotId(4)])
    } else if name == "top"@ {
        Some(seq![SlotId(5), SlotId(6)])
    } else if name == "bottom"@ {
        Some(seq![SlotId(7), SlotId(8)])
    } else {
        match spec_slot_from_name(name) {
            Some(s) => Some(seq![s]),
            None => None,
        }
    }
}

/// The slots a name in a `slots =` list stands for.
pub fn slot_group(name: &str) -> (r: Option<Vec<SlotId>>)
    ensures
        r matches Some(v) ==> spec_slot_group(name@) == Some(v@),
        r is None ==> spec_slot_group(name@) is None,
{
    let want = chars_of(name);
    if seq_eq(&chars_of("corners"), &want) {
        Some(vec![SlotId(9), SlotId(10), SlotId(11), SlotId(12)])
    } else if seq_eq(&chars_of("sides"), &want) {
        Some(vec![SlotId(1), SlotId(2), SlotId(3), SlotId(4)])
    } else if seq_eq(&chars_of("left"), &want) {
        Some(vec![SlotId(1), SlotId(2)])
    } else if seq_eq(&chars_of("right"), &want) {
        Some(vec![SlotId(3), SlotId(4)])
    } else if seq_eq(&chars_of("top"), &want) {
        Some(vec![SlotId(5), SlotId(6)])
    } else if seq_eq(&chars_of("bottom"), &want) {
        Some(vec![SlotId(7), SlotId(8)])
    } else {
        match slot_from_name(name) {
            Some(s) => Some(vec![s]),
            None => None,
        }
    }
}

/// Home assignment order for windows without a free preferred slot:
/// center-out — sides first, then the bands, corners last.
pub open spec fn spec_home_priority() -> Seq<SlotId> {
    seq![
        SlotId(1), SlotId(2), SlotId(3), SlotId(4), SlotId(5), SlotId(6),
        SlotId(7), SlotId(8), SlotId(9), SlotId(10), SlotId(11), SlotId(12),
    ]
}

/// The center-out order names every home slot exactly once, and never
/// the focal stage.
pub proof fn law_home_priority_is_every_home_once(s: SlotId)
    requires
        s.0 < SLOT_COUNT,
    ensures
        s.0 == FOCAL <==> !spec_home_priority().contains(s),
        s.0 != FOCAL ==> exists|i: int|
            0 <= i < 12 && spec_home_priority()[i] == s && forall|j: int|
                0 <= j < 12 && j != i ==> spec_home_priority()[j] != s,
{
    let order = spec_home_priority();
    if s.0 != FOCAL {
        let i = s.0 as int - 1;
        assert(order[i] == s);
    } else {
        assert forall|j: int| 0 <= j < order.len() implies order[j] != s by {}
    }
}

/// The home slots in the order a window without a rule is given one.
pub fn home_priority() -> (order: [SlotId; 12])
    ensures
        order@ == spec_home_priority(),
{
    let order = [
        SlotId(1), SlotId(2), SlotId(3), SlotId(4), SlotId(5), SlotId(6),
        SlotId(7), SlotId(8), SlotId(9), SlotId(10), SlotId(11), SlotId(12),
    ];
    proof {
        assert(order@ =~= spec_home_priority());
    }
    order
}

} // verus!
