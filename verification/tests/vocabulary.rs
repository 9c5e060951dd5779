use lib::compile::RedactionReason;
use lib::guarantee::Guarantee;
use lib::minimality::{MinimalityClass, SearchBound};
use lib::omission::OmissionReason;
use lib::property::{Coverage, CoverageGap};
use lib::selection::SelectionKind;

#[test]
fn the_redaction_reasons_are_the_schemas_three() {
    let tokens: Vec<&str> = RedactionReason::ALL.into_iter().map(RedactionReason::as_wire_str).collect();
    assert_eq!(tokens, ["summarized", "lost", "purged"]);
    for reason in RedactionReason::ALL {
        assert_eq!(RedactionReason::from_wire_str(reason.as_wire_str()), Some(reason));
    }
    assert_eq!(RedactionReason::from_wire_str("redacted"), None);
    assert_eq!(RedactionReason::from_wire_str("Purged"), None);
}

#[test]
fn no_class_maps_to_explanation_minimal() {
    assert!(!MinimalityClass::ALL
        .into_iter()
        .any(|class| class.guarantee() == Guarantee::ExplanationMinimal));
    assert_eq!(MinimalityClass::of(Guarantee::ExplanationMinimal), None);
    for class in MinimalityClass::ALL {
        assert_eq!(MinimalityClass::of(class.guarantee()), Some(class));
    }
    assert_eq!(MinimalityClass::of(Guarantee::CausallyClosed), None);
    assert_eq!(MinimalityClass::of(Guarantee::HeuristicRelevant), None);
}

#[test]
fn a_bound_of_zero_is_not_a_bound() {
    assert_eq!(SearchBound::of(0), None);
    assert_eq!(SearchBound::of(3).expect("positive").max_removed(), 3);
}

#[test]
fn coverage_decides_the_omission_reason() {
    assert!(Coverage::Total.is_total());
    assert_eq!(Coverage::Total.omission_reason(), OmissionReason::SliceIrrelevant);
    for reason in CoverageGap::ALL {
        let partial = Coverage::Partial { reason };
        assert!(!partial.is_total());
        assert_eq!(
            partial.omission_reason(),
            OmissionReason::HeuristicCutoff,
            "a drop decided against a {reason:?} declaration is not a proof of irrelevance"
        );
    }
}

#[test]
fn replay_is_not_a_selection_kind() {
    assert_eq!(SelectionKind::from_wire_str("replay"), None);
    assert!(!SelectionKind::ALL.iter().any(|kind| kind.as_wire_str() == "replay"));
}

#[test]
fn every_selection_kind_round_trips_through_its_wire_token() {
    for kind in SelectionKind::ALL {
        assert_eq!(SelectionKind::from_wire_str(kind.as_wire_str()), Some(kind));
    }
    assert_eq!(SelectionKind::Event.as_wire_str(), "event");
    assert_eq!(SelectionKind::StateDelta.as_wire_str(), "state_delta");
}
