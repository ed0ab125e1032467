use powder::elements::{find_output, ElementList};

#[test]
fn builtin_catalog() {
    let e = ElementList::new();
    assert_eq!(e._len(), 10);
    assert_eq!(e._get("default".to_string()), 0);
    assert_eq!(e._get("air".to_string()), 1);
    assert_eq!(e._get("sand".to_string()), 2);
    assert_eq!(e._get("water".to_string()), 3);
    assert_eq!(e._get("lava".to_string()), 4);
    assert_eq!(e._get("stone".to_string()), 5);
    assert_eq!(e._get("brick".to_string()), 6);
    assert_eq!(e._get("wood".to_string()), 7);
    assert_eq!(e._get("smoke".to_string()), 8);
    assert_eq!(e._get("glass".to_string()), 9);
}

#[test]
fn unknown_name_is_sentinel() {
    let e = ElementList::new();
    assert_eq!(e._get("plutonium".to_string()), 0);
    assert_eq!(e._get("".to_string()), 0);
}

#[test]
fn names_round_trip() {
    let e = ElementList::new();
    assert_eq!(e.get_name(2), "sand".to_string());
    assert_eq!(e.get_name(5), "stone".to_string());
    assert_eq!(e.get_name(9), "glass".to_string());
    assert_eq!(e.get_name(77), "default".to_string());
}

#[test]
fn add_assigns_fresh_codes() {
    let mut e = ElementList::new();
    e._add("plasma".to_string());
    assert_eq!(e._len(), 11);
    assert_eq!(e._get("plasma".to_string()), 10);
    assert_eq!(e.get_name(10), "plasma".to_string());
}

#[test]
fn removed_codes_are_never_reused() {
    let mut e = ElementList::new();
    e._add("plasma".to_string());
    assert_eq!(e._get("plasma".to_string()), 10);
    e._remove("plasma".to_string());
    assert_eq!(e._len(), 10);
    assert_eq!(e._get("plasma".to_string()), 0);
    e._add("gel".to_string());
    // the freed entry's code 10 stays retired: gel gets 11
    assert_eq!(e._get("gel".to_string()), 11);
}

#[test]
fn remove_unknown_is_noop() {
    let mut e = ElementList::new();
    e._remove("plutonium".to_string());
    assert_eq!(e._len(), 10);
    assert_eq!(e._get("sand".to_string()), 2);
}

#[test]
fn reaction_table_contents() {
    let e = ElementList::new();
    // water with lava catalyst turns to air
    assert_eq!(e.reactions_for(3), vec![(4, 1)]);
    // lava reciprocates with water (to stone) and reacts with sand (to smoke)
    assert_eq!(e.reactions_for(4), vec![(3, 5), (2, 8)]);
    // sand with lava turns to glass
    assert_eq!(e.reactions_for(2), vec![(4, 9)]);
    // wood with lava turns to smoke
    assert_eq!(e.reactions_for(7), vec![(4, 8)]);
    // air, stone, brick, smoke, glass have no rules
    assert_eq!(e.reactions_for(1), vec![]);
    assert_eq!(e.reactions_for(5), vec![]);
    assert_eq!(e.reactions_for(6), vec![]);
    assert_eq!(e.reactions_for(8), vec![]);
    assert_eq!(e.reactions_for(9), vec![]);
}

#[test]
fn find_output_takes_first_match() {
    let pairs = vec![(3u8, 5u8), (2u8, 8u8), (3u8, 7u8)];
    assert_eq!(find_output(&pairs, 3), Some(5));
    assert_eq!(find_output(&pairs, 2), Some(8));
    assert_eq!(find_output(&pairs, 9), None);
}
