use focal_desk::layout::{home_priority, slot_from_name, slot_group, slot_name, tier_of, SlotId, Tier, FOCAL, SLOT_COUNT};

#[test]
fn every_slot_name_round_trips() {
    for i in 0..SLOT_COUNT as u8 {
        let name = slot_name(SlotId(i));
        assert_eq!(slot_from_name(name), Some(SlotId(i)), "{name}");
    }
}

#[test]
fn slot_names_are_the_config_spellings() {
    assert_eq!(slot_name(SlotId(FOCAL)), "focal");
    assert_eq!(slot_name(SlotId(1)), "left-top");
    assert_eq!(slot_name(SlotId(4)), "right-bottom");
    assert_eq!(slot_name(SlotId(6)), "top-2");
    assert_eq!(slot_name(SlotId(12)), "corner-br");
    assert_eq!(slot_from_name("attic"), None);
    assert_eq!(slot_from_name("Focal"), None);
    assert_eq!(slot_from_name(""), None);
}

#[test]
fn home_priority_is_center_out_and_skips_the_stage() {
    let order = home_priority();
    let names: Vec<&str> = order.iter().map(|&s| slot_name(s)).collect();
    assert_eq!(
        names,
        vec![
            "left-top", "left-bottom", "right-top", "right-bottom", "top-1", "top-2",
            "bottom-1", "bottom-2", "corner-tl", "corner-tr", "corner-bl", "corner-br",
        ]
    );
    assert!(!order.contains(&SlotId(FOCAL)));
}

#[test]
fn groups_expand_in_order() {
    assert_eq!(slot_group("corners"), Some(vec![SlotId(9), SlotId(10), SlotId(11), SlotId(12)]));
    assert_eq!(slot_group("sides"), Some(vec![SlotId(1), SlotId(2), SlotId(3), SlotId(4)]));
    assert_eq!(slot_group("left"), Some(vec![SlotId(1), SlotId(2)]));
    assert_eq!(slot_group("right"), Some(vec![SlotId(3), SlotId(4)]));
    assert_eq!(slot_group("top"), Some(vec![SlotId(5), SlotId(6)]));
    assert_eq!(slot_group("bottom"), Some(vec![SlotId(7), SlotId(8)]));
    assert_eq!(slot_group("corner-tr"), Some(vec![SlotId(10)]));
    assert_eq!(slot_group("nowhere"), None);
}

#[test]
fn tiers_follow_the_slot_numbers() {
    assert_eq!(tier_of(SlotId(FOCAL)), Tier::Focal);
    assert_eq!(tier_of(SlotId(3)), Tier::Side);
    assert_eq!(tier_of(SlotId(8)), Tier::Small);
}
