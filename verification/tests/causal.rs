use lib::causal::{CausalError, CausalOrder, ClosureViolation, PartialReason};
use lib::name::{Name, NameSet};
use lib::omission::OmissionReason;
use lib::selection::SelectionKind;

fn name(text: &str) -> Name {
    Name::new(text).expect("well formed")
}

fn selection(ids: &[&str]) -> NameSet {
    NameSet::of(ids.iter().map(|id| name(id)).collect())
}

/// A chain `e_1 -> e_2 -> e_3` with a concurrent `n_1`, and a `s_1` source with no causal
/// edges at all.
fn order() -> CausalOrder {
    CausalOrder::new(
        vec![
            (name("e_1"), SelectionKind::Event),
            (name("e_2"), SelectionKind::Event),
            (name("e_3"), SelectionKind::Event),
            (name("n_1"), SelectionKind::Event),
            (name("s_1"), SelectionKind::Source),
        ],
        vec![
            (name("e_2"), name("e_1")),
            (name("e_3"), name("e_2")),
            (name("n_1"), name("e_1")),
        ],
    )
    .expect("a well-formed order")
}

#[test]
fn an_edge_to_nowhere_is_refused() {
    assert_eq!(
        CausalOrder::new(vec![(name("e_1"), SelectionKind::Event)], vec![(name("e_1"), name("e_0"))]),
        Err(CausalError::UnknownEndpoint { id: name("e_0") })
    );
    assert_eq!(
        CausalOrder::new(vec![(name("e_1"), SelectionKind::Event)], vec![(name("e_9"), name("e_1"))]),
        Err(CausalError::UnknownEndpoint { id: name("e_9") })
    );
}

#[test]
fn a_repeated_node_is_refused() {
    assert_eq!(
        CausalOrder::new(
            vec![(name("e_1"), SelectionKind::Event), (name("e_1"), SelectionKind::Source)],
            vec![],
        ),
        Err(CausalError::RepeatedNode { id: name("e_1") })
    );
}

#[test]
fn an_event_cannot_precede_itself() {
    assert_eq!(
        CausalOrder::new(vec![(name("e_1"), SelectionKind::Event)], vec![(name("e_1"), name("e_1"))]),
        Err(CausalError::SelfEdge { id: name("e_1") })
    );
}

#[test]
fn a_cycle_is_not_a_causal_order() {
    assert_eq!(
        CausalOrder::new(
            vec![
                (name("e_1"), SelectionKind::Event),
                (name("e_2"), SelectionKind::Event),
                (name("e_3"), SelectionKind::Event),
            ],
            vec![
                (name("e_2"), name("e_1")),
                (name("e_3"), name("e_2")),
                (name("e_1"), name("e_3")),
            ],
        ),
        Err(CausalError::Cyclic { first: name("e_1") })
    );
}

#[test]
fn an_empty_order_is_a_causal_order() {
    let empty = CausalOrder::new(vec![], vec![]).expect("nothing to order");
    assert!(empty.is_empty());
    assert!(empty.topological_order().is_empty());
    assert!(empty.is_downward_closed(&selection(&[])));
    assert_eq!(empty.backward_closure(&selection(&[])).expect("no roots"), NameSet::new());
}

#[test]
fn ancestors_and_topological_order_are_canonical() {
    let built = order();
    assert_eq!(
        built.topological_order(),
        [name("e_1"), name("e_2"), name("e_3"), name("n_1"), name("s_1")]
    );
    assert_eq!(
        built.backward_closure(&selection(&["e_3"])).expect("a node"),
        selection(&["e_1", "e_2", "e_3"])
    );
    assert_eq!(built.topological_order(), order().topological_order());
}

#[test]
fn a_root_from_nowhere_is_refused() {
    assert_eq!(
        order().backward_closure(&selection(&["e_9"])),
        Err(CausalError::UnknownEndpoint { id: name("e_9") })
    );
}

#[test]
fn a_backward_closure_is_downward_closed() {
    let order = order();
    for roots in [
        selection(&["e_3"]),
        selection(&["n_1"]),
        selection(&["e_3", "n_1"]),
        selection(&["s_1"]),
        selection(&["e_1"]),
    ] {
        let closed = order.backward_closure(&roots).expect("nodes");
        assert!(order.is_downward_closed(&closed), "the closure of {roots:?} is not closed");
    }
}

#[test]
fn a_selection_missing_a_predecessor_is_not_closed() {
    let order = order();
    assert_eq!(
        order.closure_violation(&selection(&["e_2", "e_3"])),
        Some(ClosureViolation::MissingPredecessor { selected: name("e_2"), predecessor: name("e_1") })
    );
}

#[test]
fn the_checker_rejects_hand_built_selections_the_slicer_cannot_produce() {
    let order = order();
    assert!(matches!(
        order.closure_violation(&selection(&["e_1", "e_3"])),
        Some(ClosureViolation::MissingPredecessor { .. })
    ));
    assert!(matches!(
        order.closure_violation(&selection(&["e_2", "e_3", "n_1"])),
        Some(ClosureViolation::MissingPredecessor { .. })
    ));
    assert_eq!(
        order.closure_violation(&selection(&["e_1", "e_2", "x_1"])),
        Some(ClosureViolation::NotInOrder { selected: name("x_1") })
    );
    assert_eq!(order.closure_violation(&selection(&["e_1", "e_2"])), None);
    assert_eq!(order.closure_violation(&selection(&[])), None);
}

#[test]
fn a_selection_of_causally_isolated_items_is_closed() {
    let order = order();
    assert!(order.is_downward_closed(&selection(&["s_1"])));
}

#[test]
fn completeness_decides_the_omission_reason() {
    let complete = order();
    assert!(complete.completeness().is_complete());
    assert_eq!(complete.completeness().omission_reason(), OmissionReason::SliceIrrelevant);
    for reason in PartialReason::ALL {
        let partial = CausalOrder::partial(vec![(name("e_1"), SelectionKind::Event)], vec![], reason)
            .expect("a well-formed order");
        assert!(!partial.completeness().is_complete());
        assert_eq!(partial.completeness().omission_reason(), OmissionReason::HeuristicCutoff);
    }
}

#[test]
fn the_partial_reasons_have_distinct_tokens() {
    let mut tokens: Vec<&str> = PartialReason::ALL.iter().map(|reason| reason.as_str()).collect();
    tokens.sort();
    tokens.dedup();
    assert_eq!(tokens.len(), PartialReason::ALL.len());
}

#[test]
fn the_order_answers_for_its_nodes() {
    let order = order();
    assert_eq!(order.len(), 5);
    assert!(order.contains(&name("n_1")));
    assert!(!order.contains(&name("x_1")));
    assert_eq!(order.kind(&name("s_1")), Some(SelectionKind::Source));
    assert_eq!(order.kind(&name("x_1")), None);
    assert_eq!(order.immediate_predecessors(&name("e_3")), Some(&selection(&["e_2"])));
    assert_eq!(order.immediate_predecessors(&name("e_1")), Some(&selection(&[])));
    assert_eq!(order.nodes(), [name("e_1"), name("e_2"), name("e_3"), name("n_1"), name("s_1")]);
}

#[test]
fn a_cycle_is_named_by_its_own_least_member() {
    // `e_0` waits on the cycle `e_5 <-> e_7` without lying on it: the refusal names the
    // least node on the cycle, not the least node the cycle holds up.
    assert_eq!(
        CausalOrder::new(
            vec![
                (name("e_0"), SelectionKind::Event),
                (name("e_5"), SelectionKind::Event),
                (name("e_7"), SelectionKind::Event),
            ],
            vec![
                (name("e_0"), name("e_5")),
                (name("e_5"), name("e_7")),
                (name("e_7"), name("e_5")),
            ],
        ),
        Err(CausalError::Cyclic { first: name("e_5") })
    );
}
