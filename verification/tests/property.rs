use lib::causal::{CausalError, CausalOrder};
use lib::name::{Name, NameSet};
use lib::property::{
    AutomatonError, AutomatonState, AutomatonVerdict, Coverage, CoverageGap, PropertyAutomaton,
    PropertyFilter,
};
use lib::selection::SelectionKind;

fn name(text: &str) -> Name {
    Name::new(text).expect("well formed")
}

fn state(text: &str) -> AutomatonState {
    AutomatonState::new(name(text))
}

fn ids(names: &[&str]) -> NameSet {
    NameSet::of(names.iter().map(|id| name(id)).collect())
}

fn trace(names: &[&str]) -> Vec<Name> {
    names.iter().map(|id| name(id)).collect()
}

/// `q_0 -e_submit-> q_1 -e_ack-> q_2 -e_loss-> q_bad`, with `e_flush` as an
/// abstraction-relevant hidden event.
fn automaton(coverage: Coverage) -> PropertyAutomaton {
    PropertyAutomaton::new(
        state("q_0"),
        vec![
            (state("q_0"), name("e_submit"), state("q_1")),
            (state("q_1"), name("e_ack"), state("q_2")),
            (state("q_2"), name("e_loss"), state("q_bad")),
        ],
        vec![state("q_bad")],
        vec![name("e_flush")],
        coverage,
    )
    .expect("a well-formed automaton")
}

/// `e_begin -> e_submit -> e_ack -> e_loss`, with an isolated `e_flush` and an isolated
/// `e_probe`.
fn order() -> CausalOrder {
    CausalOrder::new(
        vec![
            (name("e_begin"), SelectionKind::Event),
            (name("e_submit"), SelectionKind::Event),
            (name("e_ack"), SelectionKind::Event),
            (name("e_loss"), SelectionKind::Event),
            (name("e_flush"), SelectionKind::Event),
            (name("e_probe"), SelectionKind::Event),
        ],
        vec![
            (name("e_submit"), name("e_begin")),
            (name("e_ack"), name("e_submit")),
            (name("e_loss"), name("e_ack")),
        ],
    )
    .expect("a well-formed order")
}

#[test]
fn the_alphabet_is_exactly_the_transition_symbols() {
    let built = automaton(Coverage::Total);
    assert_eq!(built.alphabet(), &ids(&["e_submit", "e_ack", "e_loss"]));
    assert!(built.observes(&name("e_ack")));
    assert!(!built.observes(&name("e_flush")));
    assert_eq!(built.hidden_dependencies(), &ids(&["e_flush"]));
    assert_eq!(built.relevant(), ids(&["e_submit", "e_ack", "e_loss", "e_flush"]));
    assert!(built.is_relevant(&name("e_flush")));
    assert!(!built.is_relevant(&name("e_begin")));
}

#[test]
fn an_observed_event_cannot_also_be_hidden() {
    assert_eq!(
        PropertyAutomaton::new(
            state("q_0"),
            vec![(state("q_0"), name("e_ack"), state("q_1"))],
            vec![],
            vec![name("e_ack")],
            Coverage::Total,
        ),
        Err(AutomatonError::ObservedIsNotHidden { id: name("e_ack") })
    );
}

#[test]
fn a_repeated_transition_is_refused() {
    assert_eq!(
        PropertyAutomaton::new(
            state("q_0"),
            vec![
                (state("q_0"), name("e_ack"), state("q_1")),
                (state("q_0"), name("e_ack"), state("q_2")),
            ],
            vec![],
            vec![],
            Coverage::Total,
        ),
        Err(AutomatonError::TransitionRepeated { state: state("q_0"), symbol: name("e_ack") })
    );
    assert!(PropertyAutomaton::new(
        state("q_0"),
        vec![
            (state("q_0"), name("e_ack"), state("q_1")),
            (state("q_0"), name("e_ack"), state("q_1")),
        ],
        vec![],
        vec![],
        Coverage::Total,
    )
    .is_err());
}

#[test]
fn a_violating_state_from_nowhere_is_refused() {
    assert_eq!(
        PropertyAutomaton::new(
            state("q_0"),
            vec![(state("q_0"), name("e_ack"), state("q_1"))],
            vec![state("q_9")],
            vec![],
            Coverage::Total,
        ),
        Err(AutomatonError::UnknownState { state: state("q_9") })
    );
    for accepted in [state("q_0"), state("q_1")] {
        assert!(PropertyAutomaton::new(
            state("q_0"),
            vec![(state("q_0"), name("e_ack"), state("q_1"))],
            vec![accepted],
            vec![],
            Coverage::Total,
        )
        .is_ok());
    }
}

#[test]
fn an_automaton_with_no_transitions_observes_nothing() {
    let empty = PropertyAutomaton::new(state("q_0"), vec![], vec![], vec![], Coverage::Total).expect("well formed");
    assert!(empty.alphabet().is_empty());
    let run = empty.run(&trace(&["e_ack", "e_loss"]));
    assert!(run.observed().is_empty());
    assert_eq!(run.verdict(), AutomatonVerdict::Satisfied);
    assert_eq!(run.final_state(), &state("q_0"));
}

#[test]
fn a_run_ignores_symbols_outside_the_alphabet() {
    let built = automaton(Coverage::Total);
    let run = built.run(&trace(&["e_begin", "e_submit", "e_flush", "e_ack", "e_probe", "e_loss"]));
    assert_eq!(run.observed(), trace(&["e_submit", "e_ack", "e_loss"]));
    assert_eq!(run.visited(), [state("q_0"), state("q_1"), state("q_2"), state("q_bad")]);
    assert_eq!(run.verdict(), AutomatonVerdict::Violated);
}

#[test]
fn a_missing_transition_holds_the_state_rather_than_trapping() {
    let built = automaton(Coverage::Total);
    let run = built.run(&trace(&["e_loss"]));
    assert_eq!(run.observed(), trace(&["e_loss"]));
    assert_eq!(run.final_state(), &state("q_0"));
    assert_eq!(run.verdict(), AutomatonVerdict::Satisfied);
}

#[test]
fn two_traces_reach_two_verdicts() {
    let built = automaton(Coverage::Total);
    assert_eq!(built.run(&trace(&["e_submit", "e_ack", "e_loss"])).verdict(), AutomatonVerdict::Violated);
    assert_eq!(built.run(&trace(&["e_submit", "e_ack"])).verdict(), AutomatonVerdict::Satisfied);
    assert_eq!(AutomatonVerdict::ALL.map(|verdict| verdict.as_str()), ["satisfied", "violated"]);
}

#[test]
fn two_runs_of_one_automaton_agree() {
    let built = automaton(Coverage::Total);
    let sequence = trace(&["e_submit", "e_ack", "e_loss"]);
    assert_eq!(built.run(&sequence), built.run(&sequence));
    assert_eq!(automaton(Coverage::Total), automaton(Coverage::Total));
}

#[test]
fn the_filter_keeps_an_abstraction_relevant_hidden_event() {
    let order = order();
    let slice = ids(&["e_begin", "e_submit", "e_ack", "e_loss", "e_flush", "e_probe"]);
    let kept = PropertyFilter::retain(&automaton(Coverage::Total), &order, &slice).expect("the slice is inside the order");
    assert!(kept.contains(&name("e_flush")));
    assert!(!kept.contains(&name("e_probe")));
    assert_eq!(kept, ids(&["e_begin", "e_submit", "e_ack", "e_loss", "e_flush"]));
}

#[test]
fn the_filter_re_closes_what_it_keeps() {
    let order = order();
    let slice = ids(&["e_begin", "e_submit", "e_ack", "e_loss", "e_flush", "e_probe"]);
    let kept = PropertyFilter::retain(&automaton(Coverage::Total), &order, &slice).expect("inside the order");
    assert!(kept.contains(&name("e_begin")));
    assert!(order.is_downward_closed(&kept));
}

#[test]
fn the_filter_cannot_re_admit_what_the_slice_lacks() {
    let order = order();
    let holed = ids(&["e_begin", "e_ack", "e_loss", "e_flush"]);
    let kept = PropertyFilter::retain(&automaton(Coverage::Total), &order, &holed).expect("inside the order");
    assert!(!kept.contains(&name("e_submit")));
    assert_eq!(kept, holed);
}

#[test]
fn a_filter_over_an_irrelevant_slice_keeps_nothing() {
    let order = order();
    let kept = PropertyFilter::retain(&automaton(Coverage::Total), &order, &ids(&["e_probe"])).expect("inside the order");
    assert!(kept.is_empty());
}

#[test]
fn a_relevant_seed_from_outside_the_order_is_refused() {
    let elsewhere = PropertyAutomaton::new(
        state("q_0"),
        vec![(state("q_0"), name("z_9"), state("q_1"))],
        vec![],
        vec![],
        Coverage::Total,
    )
    .expect("a well-formed automaton");
    assert_eq!(
        PropertyFilter::retain(&elsewhere, &order(), &ids(&["e_ack", "z_9"])),
        Err(CausalError::UnknownEndpoint { id: name("z_9") })
    );
}

#[test]
fn an_irrelevant_stray_is_dropped_rather_than_refused() {
    assert_eq!(
        PropertyFilter::retain(&automaton(Coverage::Total), &order(), &ids(&["e_ack", "z_9"]))
            .expect("no relevant seed is missing"),
        ids(&["e_ack"])
    );
}

#[test]
fn the_coverage_gaps_have_distinct_tokens() {
    let mut tokens: Vec<&str> = CoverageGap::ALL.iter().map(|gap| gap.as_str()).collect();
    tokens.sort();
    tokens.dedup();
    assert_eq!(tokens.len(), CoverageGap::ALL.len());
}

#[test]
fn a_state_and_the_automaton_report_their_declaration() {
    let built = automaton(Coverage::Partial { reason: CoverageGap::ALL[0] });
    assert_eq!(built.initial(), &state("q_0"));
    assert_eq!(state("q_2").name(), &name("q_2"));
    assert!(built.is_violating(&state("q_bad")));
    assert!(!built.is_violating(&state("q_2")));
    assert!(!built.coverage().is_total());
}

#[test]
fn the_least_relevant_stray_is_the_one_named() {
    let elsewhere = PropertyAutomaton::new(
        state("q_0"),
        vec![(state("q_0"), name("z_9"), state("q_1")), (state("q_1"), name("y_8"), state("q_2"))],
        vec![],
        vec![],
        Coverage::Total,
    )
    .expect("a well-formed automaton");
    assert_eq!(
        PropertyFilter::retain(&elsewhere, &order(), &ids(&["z_9", "y_8", "e_ack"])),
        Err(CausalError::UnknownEndpoint { id: name("y_8") })
    );
}

#[test]
fn a_run_steps_once_per_observed_symbol() {
    let built = automaton(Coverage::Total);
    let run = built.run(&trace(&["e_ack", "e_submit", "e_ack"]));
    // `e_ack` out of `q_0` is undeclared and holds the state; then the chain advances.
    assert_eq!(run.visited(), [state("q_0"), state("q_0"), state("q_1"), state("q_2")]);
    assert_eq!(run.verdict(), AutomatonVerdict::Satisfied);
}
