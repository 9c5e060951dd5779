use lib::guarantee::{Guarantee, GuaranteeError, GuaranteeSet, License, RequestedGuarantees};

const SCHEMA_TOKENS: [&str; 13] = [
    "ReplayPreserving",
    "PropertyPreserving",
    "ProofRelevant",
    "HeuristicRelevant",
    "OneMinimal",
    "CardinalityMinimal",
    "CausallyMinimal",
    "ValueMinimal",
    "OwnerMinimal",
    "FaultMinimal",
    "ExplanationMinimal",
    "CausallyClosed",
    "CounterfactualUnderNamedModel",
];

#[test]
fn the_guarantee_set_is_exactly_the_schema_enum() {
    let ours: Vec<&str> = Guarantee::ALL.into_iter().map(Guarantee::as_wire_str).collect();
    assert_eq!(ours, SCHEMA_TOKENS);
}

#[test]
fn every_guarantee_round_trips_through_its_wire_token() {
    for guarantee in Guarantee::ALL {
        assert_eq!(Guarantee::from_wire_str(guarantee.as_wire_str()), Some(guarantee));
    }
}

#[test]
fn an_unknown_guarantee_token_does_not_parse() {
    assert_eq!(Guarantee::from_wire_str("Relevant"), None);
    assert_eq!(Guarantee::from_wire_str("replaypreserving"), None);
    assert_eq!(Guarantee::from_wire_str(""), None);
    assert_eq!(Guarantee::from_wire_str("1-minimal"), None);
}

#[test]
fn only_heuristic_relevant_makes_no_semantic_claim() {
    let non_semantic: Vec<Guarantee> = Guarantee::ALL
        .into_iter()
        .filter(|guarantee| !guarantee.is_semantic())
        .collect();
    assert_eq!(non_semantic, [Guarantee::HeuristicRelevant]);
}

#[test]
fn a_request_does_not_become_a_claim() {
    let requested = RequestedGuarantees::of(vec![Guarantee::ReplayPreserving, Guarantee::CausallyClosed]);
    let achieved = GuaranteeSet::empty();
    assert_eq!(requested.members().len(), 2);
    assert!(achieved.is_empty());
    assert_eq!(requested.unachieved(&achieved).len(), 2);
}

#[test]
fn an_unachieved_request_is_named() {
    let requested = RequestedGuarantees::of(vec![
        Guarantee::ReplayPreserving,
        Guarantee::CausallyClosed,
        Guarantee::OneMinimal,
    ]);
    let mut achieved = GuaranteeSet::empty();
    achieved.claim(License::issue(Guarantee::CausallyClosed));
    assert_eq!(requested.unachieved(&achieved), [Guarantee::ReplayPreserving, Guarantee::OneMinimal]);
}

#[test]
fn an_unrequested_achievement_is_not_an_unachieved_request() {
    let requested = RequestedGuarantees::none();
    let mut achieved = GuaranteeSet::empty();
    achieved.claim(License::issue(Guarantee::CausallyClosed));
    assert!(requested.unachieved(&achieved).is_empty());
}

#[test]
fn claiming_twice_claims_once() {
    let mut set = GuaranteeSet::empty();
    set.claim(License::issue(Guarantee::CausallyClosed));
    set.claim(License::issue(Guarantee::CausallyClosed));
    assert_eq!(set.members(), [Guarantee::CausallyClosed]);
}

#[test]
fn replay_preserving_without_causal_closure_is_refused() {
    let mut set = GuaranteeSet::empty();
    set.claim(License::issue(Guarantee::ReplayPreserving));
    assert_eq!(set.seal(), Err(GuaranteeError::ReplayWithoutClosure));
}

#[test]
fn replay_preserving_with_causal_closure_seals() {
    let mut set = GuaranteeSet::empty();
    set.claim(License::issue(Guarantee::ReplayPreserving));
    set.claim(License::issue(Guarantee::CausallyClosed));
    let sealed = set.seal().expect("C2 is satisfied");
    assert_eq!(sealed.members(), [Guarantee::ReplayPreserving, Guarantee::CausallyClosed]);
}

#[test]
fn causal_closure_alone_seals() {
    let mut set = GuaranteeSet::empty();
    set.claim(License::issue(Guarantee::CausallyClosed));
    assert!(set.seal().is_ok());
}

#[test]
fn an_empty_set_seals_to_an_empty_array() {
    let sealed = GuaranteeSet::empty().seal().expect("nothing to check");
    assert!(sealed.members().is_empty());
    assert_eq!(sealed.to_json(), "[]");
}

#[test]
fn claims_are_listed_in_schema_order_whatever_order_they_arrive_in() {
    let mut set = GuaranteeSet::empty();
    set.claim(License::issue(Guarantee::CausallyClosed));
    set.claim(License::issue(Guarantee::OneMinimal));
    set.claim(License::issue(Guarantee::ReplayPreserving));
    assert_eq!(
        set.members(),
        [Guarantee::ReplayPreserving, Guarantee::OneMinimal, Guarantee::CausallyClosed]
    );
    assert!(set.contains(Guarantee::OneMinimal));
    assert!(!set.contains(Guarantee::ProofRelevant));
}

#[test]
fn a_request_lists_each_guarantee_once_in_schema_order() {
    let requested = RequestedGuarantees::of(vec![
        Guarantee::CausallyClosed,
        Guarantee::ReplayPreserving,
        Guarantee::CausallyClosed,
    ]);
    assert_eq!(requested.members(), [Guarantee::ReplayPreserving, Guarantee::CausallyClosed]);
}

#[test]
fn a_license_permits_exactly_its_guarantee() {
    assert_eq!(License::issue(Guarantee::FaultMinimal).guarantee(), Guarantee::FaultMinimal);
}

#[test]
fn every_guarantee_sits_at_its_schema_position() {
    for (index, guarantee) in Guarantee::ALL.into_iter().enumerate() {
        assert_eq!(guarantee.position(), index);
    }
}

#[test]
fn the_replay_refusal_names_both_guarantees() {
    let message = GuaranteeError::ReplayWithoutClosure.message();
    assert!(message.contains("ReplayPreserving"));
    assert!(message.contains("CausallyClosed"));
}

#[test]
fn a_sealed_set_renders_as_an_array_of_its_tokens() {
    let sealed = GuaranteeSet::empty().seal().expect("nothing to check");
    assert_eq!(sealed.to_json(), "[]");
    let mut set = GuaranteeSet::empty();
    set.claim(License::issue(Guarantee::CausallyClosed));
    set.claim(License::issue(Guarantee::ReplayPreserving));
    let sealed = set.seal().expect("C2 is satisfied");
    assert_eq!(sealed.to_json(), r#"["ReplayPreserving","CausallyClosed"]"#);
}

#[test]
fn a_sealed_set_is_in_schema_order() {
    let mut set = GuaranteeSet::empty();
    for guarantee in [
        Guarantee::HeuristicRelevant,
        Guarantee::OneMinimal,
        Guarantee::CausallyClosed,
        Guarantee::ReplayPreserving,
    ] {
        set.claim(License::issue(guarantee));
    }
    let sealed = set.seal().expect("C2 is satisfied");
    assert_eq!(
        sealed.to_json(),
        r#"["ReplayPreserving","HeuristicRelevant","OneMinimal","CausallyClosed"]"#
    );
}
