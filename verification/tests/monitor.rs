use lib::causal::{CausalOrder, ClosureViolation};
use lib::monitor::{Inapplicable, MonitorDisagreement, MonitorVerdict, PropertyMonitor};
use lib::name::{Name, NameSet};
use lib::property::{AutomatonState, Coverage, PropertyAutomaton, PropertyFilter};
use lib::selection::SelectionKind;

fn name(text: &str) -> Name {
    Name::new(text).expect("well formed")
}

fn state(text: &str) -> AutomatonState {
    AutomatonState::new(name(text))
}

fn ids(names: &[&str]) -> NameSet {
    NameSet::of(names.iter().map(|id| name(id)).collect())
}

/// `e_begin -> e_submit -> e_ack -> e_loss`, plus an isolated hidden `e_flush` and an isolated,
/// property-irrelevant `e_probe`.
fn order() -> CausalOrder {
    CausalOrder::new(
        vec![
            (name("e_begin"), SelectionKind::Event),
            (name("e_submit"), SelectionKind::Event),
            (name("e_ack"), SelectionKind::Event),
            (name("e_loss"), SelectionKind::Event),
            (name("e_flush"), SelectionKind::Event),
            (name("e_probe"), SelectionKind::Event),
        ],
        vec![
            (name("e_submit"), name("e_begin")),
            (name("e_ack"), name("e_submit")),
            (name("e_loss"), name("e_ack")),
        ],
    )
    .expect("a well-formed order")
}

fn automaton() -> PropertyAutomaton {
    PropertyAutomaton::new(
        state("q_0"),
        vec![
            (state("q_0"), name("e_submit"), state("q_1")),
            (state("q_1"), name("e_ack"), state("q_2")),
            (state("q_2"), name("e_loss"), state("q_bad")),
        ],
        vec![state("q_bad")],
        vec![name("e_flush")],
        Coverage::Total,
    )
    .expect("a well-formed automaton")
}

fn monitor() -> PropertyMonitor {
    PropertyMonitor::over(automaton())
}

/// The honest core: the property-directed sub-slice of the whole order.
fn property_core() -> NameSet {
    PropertyFilter::retain(
        &automaton(),
        &order(),
        &ids(&["e_begin", "e_submit", "e_ack", "e_loss", "e_flush", "e_probe"]),
    )
    .expect("inside the order")
}

#[test]
fn the_whole_order_and_its_property_core_both_preserve() {
    let order = order();
    let universe = NameSet::of(order.nodes().to_vec());
    assert_eq!(monitor().verdict(&order, &universe), MonitorVerdict::Preserving);
    let core = property_core();
    assert_eq!(core, ids(&["e_begin", "e_submit", "e_ack", "e_loss", "e_flush"]));
    assert_eq!(monitor().verdict(&order, &core), MonitorVerdict::Preserving);
    assert!(monitor().verdict(&order, &core).is_preserving());
    assert_eq!(MonitorVerdict::Preserving.as_str(), "property-preserving");
}

#[test]
fn the_monitor_rejects_hand_built_selections_the_filter_cannot_produce() {
    let order = order();
    assert_eq!(
        monitor().verdict(&order, &ids(&["e_begin", "e_submit", "e_flush"])),
        MonitorVerdict::Divergent(MonitorDisagreement::ObservedEventDropped { id: name("e_ack") })
    );
    assert_eq!(
        monitor().verdict(&order, &ids(&["e_begin", "e_submit", "e_ack", "e_loss"])),
        MonitorVerdict::Divergent(MonitorDisagreement::AbstractionDependencyDropped { id: name("e_flush") })
    );
    assert_eq!(
        monitor().verdict(&order, &ids(&["e_submit", "e_ack", "e_loss", "e_flush"])),
        MonitorVerdict::Divergent(MonitorDisagreement::NotCausallyClosed(ClosureViolation::MissingPredecessor {
            selected: name("e_submit"),
            predecessor: name("e_begin"),
        }))
    );
    assert!(monitor().verdict(&order, &property_core()).is_preserving());
}

#[test]
fn a_dropped_observed_event_is_caught_even_when_the_slice_is_closed() {
    let order = order();
    let truncated = ids(&["e_begin", "e_submit", "e_flush"]);
    assert!(order.is_downward_closed(&truncated));
    assert_eq!(order.closure_violation(&truncated), None);
    assert_eq!(
        monitor().verdict(&order, &truncated),
        MonitorVerdict::Divergent(MonitorDisagreement::ObservedEventDropped { id: name("e_ack") })
    );
}

#[test]
fn a_dropped_abstraction_dependency_is_caught() {
    let order = order();
    let observed_only = ids(&["e_begin", "e_submit", "e_ack", "e_loss"]);
    assert!(order.is_downward_closed(&observed_only));
    assert_eq!(
        monitor().verdict(&order, &observed_only),
        MonitorVerdict::Divergent(MonitorDisagreement::AbstractionDependencyDropped { id: name("e_flush") })
    );
}

#[test]
fn an_unclosed_selection_is_not_preserving() {
    let order = order();
    assert!(matches!(
        monitor().verdict(&order, &ids(&["e_submit", "e_ack", "e_loss", "e_flush"])),
        MonitorVerdict::Divergent(MonitorDisagreement::NotCausallyClosed(_))
    ));
}

#[test]
fn a_selection_from_outside_the_order_is_not_preserving() {
    let order = order();
    let mut stray = property_core();
    stray.insert(name("z_9"));
    assert_eq!(
        monitor().verdict(&order, &stray),
        MonitorVerdict::Divergent(MonitorDisagreement::NotCausallyClosed(ClosureViolation::NotInOrder {
            selected: name("z_9"),
        }))
    );
}

#[test]
fn an_execution_the_automaton_does_not_observe_is_inapplicable() {
    let elsewhere = PropertyAutomaton::new(
        state("q_0"),
        vec![(state("q_0"), name("e_elsewhere"), state("q_1"))],
        vec![state("q_1")],
        vec![],
        Coverage::Total,
    )
    .expect("a well-formed automaton");
    assert_eq!(
        PropertyMonitor::over(elsewhere).verdict(&order(), &property_core()),
        MonitorVerdict::Inapplicable(Inapplicable::NoObservedEvent)
    );
}

#[test]
fn an_automaton_that_observes_nothing_at_all_is_inapplicable() {
    let silent = PropertyAutomaton::new(state("q_0"), vec![], vec![], vec![], Coverage::Total)
        .expect("a well-formed automaton");
    let verdict = PropertyMonitor::over(silent).verdict(&order(), &property_core());
    assert_eq!(verdict, MonitorVerdict::Inapplicable(Inapplicable::EmptyAlphabet));
    assert!(!verdict.is_preserving());
    assert_eq!(verdict.as_str(), "monitor-inapplicable");
}

#[test]
fn an_empty_selection_of_an_observed_execution_is_a_disagreement_not_an_inapplicability() {
    assert_eq!(
        monitor().verdict(&order(), &NameSet::new()),
        MonitorVerdict::Divergent(MonitorDisagreement::ObservedEventDropped { id: name("e_submit") })
    );
}

#[test]
fn the_inapplicable_reasons_have_distinct_tokens() {
    let mut tokens: Vec<&str> = Inapplicable::ALL.iter().map(|reason| reason.as_str()).collect();
    tokens.sort();
    tokens.dedup();
    assert_eq!(tokens.len(), Inapplicable::ALL.len());
}

#[test]
fn two_runs_of_one_monitor_agree() {
    let order = order();
    let core = property_core();
    assert_eq!(monitor().verdict(&order, &core), monitor().verdict(&order, &core));
    assert_eq!(monitor().automaton(), &automaton());
}
