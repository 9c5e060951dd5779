use lib::expansion::{ExpansionQuery, ExpansionRelation};
use lib::name::Name;
use lib::omission::{IrretrievableReason, Manifest, ManifestError, OmissionReason, OmissionRecord};
use lib::selection::SelectionKind;

const SCHEMA_REASON_ENUM: [&str; 5] = [
    "budget",
    "redaction",
    "unsupported",
    "heuristic-cutoff",
    "slice-irrelevant",
];

const SCHEMA_IRRETRIEVABLE_REASONS: [&str; 2] = ["redaction", "unsupported"];

fn query(anchor: &str) -> ExpansionQuery {
    ExpansionQuery::new(ExpansionRelation::CausalPredecessors, Name::new(anchor).expect("well formed"))
}

#[test]
fn the_reason_set_is_exactly_the_schema_enum() {
    let ours: Vec<&str> = OmissionReason::ALL.iter().map(|reason| reason.as_wire_str()).collect();
    assert_eq!(ours, SCHEMA_REASON_ENUM);
}

#[test]
fn an_unknown_reason_token_does_not_parse() {
    for bad in ["", "Budget", "budget ", "heuristic_cutoff", "sliceirrelevant"] {
        assert_eq!(OmissionReason::from_wire_str(bad), None, "{bad:?} must be refused");
    }
    for reason in OmissionReason::ALL {
        assert_eq!(OmissionReason::from_wire_str(reason.as_wire_str()), Some(reason));
    }
}

#[test]
fn only_two_reasons_can_spell_irretrievability() {
    let ours: Vec<&str> = IrretrievableReason::ALL
        .iter()
        .map(|reason| reason.reason().as_wire_str())
        .collect();
    assert_eq!(ours, SCHEMA_IRRETRIEVABLE_REASONS);
    for reason in OmissionReason::ALL {
        assert_eq!(
            reason.admits_irretrievability(),
            SCHEMA_IRRETRIEVABLE_REASONS.contains(&reason.as_wire_str()),
            "{reason:?} must agree with the schema's conditional"
        );
    }
}

#[test]
fn every_record_declares_its_retrievability() {
    let expandable = OmissionRecord::expandable(SelectionKind::Event, 3, OmissionReason::Budget, query("e_1"));
    let irretrievable = OmissionRecord::irretrievable(SelectionKind::Source, 1, IrretrievableReason::Redaction);
    for record in [&expandable, &irretrievable] {
        assert!(record.to_json().contains("\"expandable\":"));
    }
    assert!(expandable.retrievability().is_expandable());
    assert!(!irretrievable.retrievability().is_expandable());
}

#[test]
fn an_expandable_record_carries_the_query_that_retrieves_it() {
    let record = OmissionRecord::expandable(SelectionKind::Event, 196, OmissionReason::SliceIrrelevant, query("e_ack"));
    let json = record.to_json();
    assert!(json.contains(&format!("\"expansion\":{}", query("e_ack").to_json())));
    let stub = OmissionRecord::irretrievable(SelectionKind::Source, 2, IrretrievableReason::Redaction);
    assert!(!stub.to_json().contains("\"expansion\""));
}

#[test]
fn a_record_reports_its_cell_and_its_query() {
    let open = OmissionRecord::expandable(SelectionKind::Event, 196, OmissionReason::SliceIrrelevant, query("e_ack"));
    let shut = OmissionRecord::irretrievable(SelectionKind::Source, 2, IrretrievableReason::Redaction);
    assert_eq!(shut.reason(), OmissionReason::Redaction);
    assert_eq!(open.count(), 196);
    assert_eq!(open.kind(), SelectionKind::Event);
    let carried = open.retrievability().query().expect("an expandable record names its query");
    assert_eq!(carried.relation(), ExpansionRelation::CausalPredecessors);
    assert_eq!(carried.anchor().as_str(), "e_ack");
    assert!(shut.retrievability().query().is_none());
}

#[test]
fn records_sort_into_one_order_whatever_order_they_arrive_in() {
    let records = || {
        vec![
            OmissionRecord::irretrievable(SelectionKind::Source, 1, IrretrievableReason::Redaction),
            OmissionRecord::expandable(SelectionKind::Event, 4, OmissionReason::Budget, query("e_2")),
            OmissionRecord::expandable(SelectionKind::Event, 9, OmissionReason::Budget, query("e_1")),
            OmissionRecord::expandable(SelectionKind::Event, 2, OmissionReason::SliceIrrelevant, query("e_1")),
        ]
    };
    let forward = Manifest::new(records()).expect("four cells");
    let mut reversed = records();
    reversed.reverse();
    let backward = Manifest::new(reversed).expect("four cells");
    assert_eq!(forward, backward);
    let counts: Vec<u32> = forward.records().iter().map(OmissionRecord::count).collect();
    assert_eq!(counts, [9, 4, 2, 1]);
}

#[test]
fn a_repeated_partition_cell_is_refused() {
    let result = Manifest::new(vec![
        OmissionRecord::expandable(SelectionKind::Event, 4, OmissionReason::Budget, query("e_1")),
        OmissionRecord::expandable(SelectionKind::Event, 5, OmissionReason::Budget, query("e_1")),
    ]);
    assert_eq!(
        result,
        Err(ManifestError::RepeatedCell { kind: SelectionKind::Event, reason: OmissionReason::Budget })
    );
}

#[test]
fn the_least_repeated_cell_is_the_one_named() {
    let result = Manifest::new(vec![
        OmissionRecord::irretrievable(SelectionKind::Source, 1, IrretrievableReason::Redaction),
        OmissionRecord::irretrievable(SelectionKind::Source, 2, IrretrievableReason::Redaction),
        OmissionRecord::expandable(SelectionKind::Event, 4, OmissionReason::HeuristicCutoff, query("e_1")),
        OmissionRecord::expandable(SelectionKind::Event, 5, OmissionReason::HeuristicCutoff, query("e_1")),
    ]);
    assert_eq!(
        result,
        Err(ManifestError::RepeatedCell { kind: SelectionKind::Event, reason: OmissionReason::HeuristicCutoff })
    );
}

#[test]
fn one_cell_per_query_still_admits_two_queries_of_one_kind_and_reason() {
    let manifest = Manifest::new(vec![
        OmissionRecord::expandable(SelectionKind::Event, 4, OmissionReason::Budget, query("e_1")),
        OmissionRecord::expandable(SelectionKind::Event, 5, OmissionReason::Budget, query("e_2")),
    ])
    .expect("two queries are two cells");
    assert_eq!(manifest.records().len(), 2);
    assert_eq!(manifest.total(), 9);
}

#[test]
fn merging_independent_groups_sums_one_cell_and_refuses_nothing() {
    let manifest = Manifest::merged(vec![
        OmissionRecord::irretrievable(SelectionKind::Source, 2, IrretrievableReason::Redaction),
        OmissionRecord::irretrievable(SelectionKind::Source, 3, IrretrievableReason::Redaction),
    ])
    .expect("the sum fits");
    assert_eq!(manifest.records().len(), 1);
    assert_eq!(manifest.records()[0].count(), 5);
    assert_eq!(manifest.total(), 5);
}

#[test]
fn merging_leaves_distinct_cells_alone() {
    let manifest = Manifest::merged(vec![
        OmissionRecord::irretrievable(SelectionKind::Source, 2, IrretrievableReason::Redaction),
        OmissionRecord::irretrievable(SelectionKind::Source, 3, IrretrievableReason::Unsupported),
        OmissionRecord::expandable(SelectionKind::Event, 1, OmissionReason::Budget, query("e_1")),
    ])
    .expect("nothing to sum");
    assert_eq!(manifest.records().len(), 3);
    assert_eq!(manifest.total(), 6);
}

#[test]
fn merging_past_the_exact_count_width_is_refused() {
    let result = Manifest::merged(vec![
        OmissionRecord::expandable(SelectionKind::Event, 1, OmissionReason::Budget, query("e_1")),
        OmissionRecord::irretrievable(SelectionKind::Model, u32::MAX, IrretrievableReason::Unsupported),
        OmissionRecord::irretrievable(SelectionKind::Model, 1, IrretrievableReason::Unsupported),
    ]);
    assert_eq!(
        result,
        Err(ManifestError::CountOverflow { kind: SelectionKind::Model, reason: OmissionReason::Unsupported })
    );
}

#[test]
fn an_empty_manifest_is_an_assertion_of_completeness() {
    let manifest = Manifest::empty();
    assert!(manifest.is_empty());
    assert_eq!(manifest.total(), 0);
    assert_eq!(Manifest::new(Vec::new()), Ok(Manifest::empty()));
}

#[test]
fn canonical_json_has_exactly_the_schema_keys_in_sorted_order() {
    let open = OmissionRecord::expandable(SelectionKind::Event, 196, OmissionReason::SliceIrrelevant, query("e_ack"));
    assert_eq!(
        open.to_json(),
        r#"{"count":196,"expandable":true,"expansion":{"anchor":"e_ack","relation":"causal_predecessors"},"kind":"event","reason":"slice-irrelevant"}"#
    );
    let shut = OmissionRecord::irretrievable(SelectionKind::Source, 2, IrretrievableReason::Redaction);
    assert_eq!(shut.to_json(), r#"{"count":2,"expandable":false,"kind":"source","reason":"redaction"}"#);
}

#[test]
fn a_manifest_renders_its_records_and_the_queries_they_make_reachable() {
    let manifest = Manifest::new(vec![
        OmissionRecord::irretrievable(SelectionKind::Source, 2, IrretrievableReason::Redaction),
        OmissionRecord::expandable(SelectionKind::Event, 3, OmissionReason::Budget, query("e_1")),
    ])
    .expect("two cells");
    assert_eq!(
        manifest.to_json(),
        r#"[{"count":3,"expandable":true,"expansion":{"anchor":"e_1","relation":"causal_predecessors"},"kind":"event","reason":"budget"},{"count":2,"expandable":false,"kind":"source","reason":"redaction"}]"#
    );
    assert_eq!(manifest.expansions_json(), r#"[{"anchor":"e_1","relation":"causal_predecessors"}]"#);
    assert_eq!(Manifest::empty().to_json(), "[]");
    assert_eq!(Manifest::empty().expansions_json(), "[]");
}

#[test]
fn an_empty_manifest_is_an_assertion_and_renders_as_one() {
    let manifest = Manifest::empty();
    assert!(manifest.is_empty());
    assert_eq!(manifest.total(), 0);
    assert_eq!(manifest.to_json(), "[]");
}
