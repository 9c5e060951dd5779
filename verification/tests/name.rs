use lib::name::Name;

#[test]
fn an_empty_or_control_event_name_is_refused() {
    assert!(Name::new("").is_none());
    assert!(Name::new("has\nnewline").is_none());
    assert!(Name::new("e7").is_some());
}

#[test]
fn an_empty_or_control_action_name_is_refused() {
    assert!(Name::new("").is_none());
    assert!(Name::new("has\nnewline").is_none());
    assert!(Name::new("FillBig").is_some());
}

#[test]
fn a_delete_character_is_a_control_character() {
    assert!(Name::new("a\u{7f}b").is_none());
    assert!(Name::new("a\u{9f}").is_none());
    assert!(Name::new("a\u{a0}").is_some());
}

#[test]
fn shortlex_and_text_order_disagree_on_a_longer_name() {
    let zeta = Name::new("d_zeta").expect("well formed");
    let alpha = Name::new("d_alpha").expect("well formed");
    assert!(zeta.precedes(&alpha), "the shorter identity sorts first");
    assert!(!alpha.precedes(&zeta));
    assert!(alpha.text_precedes(&zeta), "in the order of text, `d_alpha` comes first");
}
