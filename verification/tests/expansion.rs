use lib::expansion::{Depth, ExpansionError, ExpansionPayload, ExpansionQuery, ExpansionQuestion, ExpansionRelation};
use lib::name::Name;
use lib::omission::{IrretrievableReason, OmissionReason, OmissionRecord};
use lib::selection::{ItemHeader, SelectionKind};

const SCHEMA_RELATION_ENUM: [&str; 11] = [
    "causal_predecessors",
    "causal_successors",
    "conflicts_with",
    "same_owner",
    "property_automaton_step",
    "proof_dependency",
    "source_span",
    "assumption_uses",
    "abstraction_of",
    "refinement_of",
    "alternate_branch",
];

fn name(text: &str) -> Name {
    Name::new(text).expect("well formed")
}

#[test]
fn the_relation_set_is_exactly_the_schema_enum() {
    let ours: Vec<&str> = ExpansionRelation::ALL.iter().map(|relation| relation.as_wire_str()).collect();
    assert_eq!(ours, SCHEMA_RELATION_ENUM);
}

#[test]
fn an_unknown_relation_token_does_not_parse() {
    for bad in ["", "source", "SourceSpan", "source_span ", "causal-predecessors"] {
        assert_eq!(ExpansionRelation::from_wire_str(bad), None, "{bad:?} must be refused");
    }
    for relation in ExpansionRelation::ALL {
        assert_eq!(ExpansionRelation::from_wire_str(relation.as_wire_str()), Some(relation));
    }
}

#[test]
fn an_absent_depth_is_one() {
    assert_eq!(Depth::from_optional(None), Ok(Depth::default()));
    assert_eq!(Depth::default().get(), 1);
    assert_eq!(Depth::from_optional(Some(3)).map(Depth::get), Ok(3));
}

#[test]
fn a_zero_depth_is_refused() {
    assert_eq!(Depth::new(0), Err(ExpansionError::ZeroDepth));
    assert_eq!(Depth::from_optional(Some(0)), Err(ExpansionError::ZeroDepth));
}

#[test]
fn the_query_renders_its_two_keys_in_sorted_order() {
    let query = ExpansionQuery::new(ExpansionRelation::SourceSpan, name("e_1"));
    assert_eq!(query.to_json(), r#"{"anchor":"e_1","relation":"source_span"}"#);
}

#[test]
fn the_question_is_the_canonical_encoding_of_the_triple() {
    let query = ExpansionQuery::new(ExpansionRelation::SourceSpan, name("e_1"));
    let question = ExpansionQuestion::of(&query, Depth::default());
    assert_eq!(question.as_str(), r#"{"anchor":"e_1","depth":1,"relation":"source_span"}"#);
}

#[test]
fn a_deeper_question_encodes_its_depth_and_relation() {
    let query = ExpansionQuery::new(ExpansionRelation::CausalPredecessors, name("e_ack"));
    let question = ExpansionQuestion::of(&query, Depth::new(2).expect("positive"));
    assert_eq!(question.as_str(), r#"{"anchor":"e_ack","depth":2,"relation":"causal_predecessors"}"#);
}

#[test]
fn a_query_keeps_its_relation_and_anchor() {
    let query = ExpansionQuery::new(ExpansionRelation::ConflictsWith, name("w_1"));
    assert_eq!(query.relation(), ExpansionRelation::ConflictsWith);
    assert_eq!(query.anchor(), &name("w_1"));
    assert!(query.same(&query.clone()));
    assert!(!query.same(&ExpansionQuery::new(ExpansionRelation::ConflictsWith, name("w_2"))));
}

fn payload_query() -> ExpansionQuery {
    ExpansionQuery::new(ExpansionRelation::SourceSpan, name("e_ack"))
}

fn source_item(id: &str) -> ItemHeader {
    ItemHeader { id: name(id), kind: SelectionKind::Source }
}

#[test]
fn a_payload_whose_count_disagrees_with_its_items_is_refused() {
    let record = || OmissionRecord::expandable(SelectionKind::Source, 2, OmissionReason::Budget, payload_query());
    assert_eq!(
        ExpansionPayload::new(record(), vec![source_item("s_1")]),
        Err(ExpansionError::CountDisagrees { counted: 2, held: 1 })
    );
    let payload = ExpansionPayload::new(record(), vec![source_item("s_1"), source_item("s_2")])
        .expect("two items for a count of two");
    assert_eq!(payload.items().len(), 2);
}

#[test]
fn a_payload_whose_items_are_of_another_kind_is_refused() {
    let record = OmissionRecord::expandable(SelectionKind::Event, 1, OmissionReason::Budget, payload_query());
    assert_eq!(
        ExpansionPayload::new(record, vec![source_item("s_1")]),
        Err(ExpansionError::KindDisagrees { record: SelectionKind::Event, item: SelectionKind::Source })
    );
}

#[test]
fn an_irretrievable_payload_holds_nothing() {
    let record = || OmissionRecord::irretrievable(SelectionKind::Source, 1, IrretrievableReason::Redaction);
    assert_eq!(
        ExpansionPayload::new(record(), vec![source_item("s_1")]),
        Err(ExpansionError::IrretrievableCarriesItems { items: 1 })
    );
    let payload = ExpansionPayload::irretrievable(record()).expect("no items");
    assert!(payload.items().is_empty());
    assert_eq!(payload.query(), None);
}

#[test]
fn a_payload_reports_its_record_and_query() {
    let record = OmissionRecord::expandable(SelectionKind::Source, 1, OmissionReason::Budget, payload_query());
    let payload = ExpansionPayload::new(record, vec![source_item("s_1")]).expect("one item for a count of one");
    assert_eq!(payload.record().count(), 1);
    let query = payload.query().expect("an expandable record has a query");
    assert_eq!(query.anchor(), &name("e_ack"));
    assert_eq!(query.relation(), ExpansionRelation::SourceSpan);
    // The first stray item is the one named, even when a later item strays too.
    let record = OmissionRecord::expandable(SelectionKind::Source, 2, OmissionReason::Budget, payload_query());
    let stray = vec![ItemHeader { id: name("e_1"), kind: SelectionKind::Event }, ItemHeader { id: name("m_1"), kind: SelectionKind::Model }];
    assert_eq!(
        ExpansionPayload::new(record, stray),
        Err(ExpansionError::KindDisagrees { record: SelectionKind::Source, item: SelectionKind::Event })
    );
}
