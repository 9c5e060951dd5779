use lib::causal::{CausalOrder, ClosureViolation};
use lib::name::{Name, NameSet};
use lib::observer::{Observation, Observer, ObserverFilter, ObserverProjection, ProjectionInapplicable};
use lib::scope::{ScopeAudit, ScopeReduction, ScopeVerdict, ScopeViolation};
use lib::selection::SelectionKind;

fn name(text: &str) -> Name {
    Name::new(text).expect("well formed")
}

fn ids(names: &[&str]) -> NameSet {
    NameSet::of(names.iter().map(|id| name(id)).collect())
}

fn event(element: &str) -> Observation {
    Observation::new("events", element)
}

fn observer(id: &str, events: &[&str]) -> Observer {
    Observer::new(name(id), events.iter().map(|element| event(element)).collect())
}

fn order() -> CausalOrder {
    CausalOrder::new(
        vec![
            (name("e_begin"), SelectionKind::Event),
            (name("e_submit"), SelectionKind::Event),
            (name("e_ack"), SelectionKind::Event),
            (name("e_loss"), SelectionKind::Event),
            (name("e_flush"), SelectionKind::Event),
            (name("e_probe"), SelectionKind::Event),
        ],
        vec![
            (name("e_submit"), name("e_begin")),
            (name("e_ack"), name("e_submit")),
            (name("e_loss"), name("e_ack")),
        ],
    )
    .expect("a well-formed order")
}

fn universe() -> NameSet {
    NameSet::of(order().nodes().to_vec())
}

fn projection() -> ObserverProjection {
    ObserverProjection::new(
        vec![observer("client", &["Acked"])],
        vec![
            (name("e_begin"), event("Internal")),
            (name("e_submit"), event("Internal")),
            (name("e_ack"), event("Acked")),
            (name("e_loss"), event("Internal")),
            (name("e_flush"), event("Internal")),
            (name("e_probe"), event("Internal")),
        ],
    )
    .expect("a well-formed projection")
}

fn audit() -> ScopeAudit {
    ScopeAudit::over(projection())
}

fn honest_reduction(protected: &NameSet) -> ScopeReduction {
    let after = ObserverFilter::retain(&projection(), &order(), &universe(), protected).expect("inside the order");
    ScopeReduction::new(universe(), after, protected.clone())
}

#[test]
fn the_filters_own_output_is_justified() {
    let reduction = honest_reduction(&NameSet::new());
    assert_eq!(reduction.after(), &ids(&["e_begin", "e_submit", "e_ack"]));
    let verdict = audit().verdict(&order(), &reduction);
    assert!(verdict.is_justified());
    assert_eq!(verdict.as_str(), "scope-justified");
    let ScopeVerdict::Justified { observers } = verdict else {
        panic!("justified");
    };
    assert_eq!(observers.iter().map(|id| id.as_str().to_owned()).collect::<Vec<_>>(), ["client"]);
}

#[test]
fn the_audit_rejects_hand_built_reductions_the_filter_cannot_produce() {
    let order = order();
    assert!(matches!(
        audit().verdict(&order, &ScopeReduction::new(universe(), ids(&["e_begin", "e_submit"]), NameSet::new())),
        ScopeVerdict::Unjustified(ScopeViolation::ObservedCandidateDropped { .. })
    ));
    assert_eq!(
        audit().verdict(&order, &ScopeReduction::new(ids(&["e_begin"]), ids(&["e_begin", "e_ack"]), NameSet::new())),
        ScopeVerdict::Unjustified(ScopeViolation::CandidateAdded { id: name("e_ack") })
    );
    assert!(matches!(
        audit().verdict(&order, &ScopeReduction::new(universe(), ids(&["e_submit", "e_ack"]), NameSet::new())),
        ScopeVerdict::Unjustified(ScopeViolation::NotCausallyClosed(ClosureViolation::MissingPredecessor { .. }))
    ));
    assert!(audit().verdict(&order, &honest_reduction(&NameSet::new())).is_justified());
}

#[test]
fn dropping_a_protected_candidate_is_the_named_violation() {
    assert_eq!(
        audit().verdict(
            &order(),
            &ScopeReduction::new(universe(), ids(&["e_begin", "e_submit", "e_ack"]), ids(&["e_probe"]))
        ),
        ScopeVerdict::Unjustified(ScopeViolation::ProtectedCandidateDropped { id: name("e_probe") })
    );
    let honest = honest_reduction(&ids(&["e_probe"]));
    assert!(honest.after().contains(&name("e_probe")));
    assert!(audit().verdict(&order(), &honest).is_justified());
}

#[test]
fn dropping_an_observed_candidate_names_the_observer() {
    assert_eq!(
        audit().verdict(&order(), &ScopeReduction::new(universe(), ids(&["e_begin", "e_submit"]), NameSet::new())),
        ScopeVerdict::Unjustified(ScopeViolation::ObservedCandidateDropped { id: name("e_ack"), observer: name("client") })
    );
}

#[test]
fn dropping_an_unattributed_candidate_is_unjustified() {
    let projection = ObserverProjection::new(vec![observer("client", &["Acked"])], vec![(name("e_ack"), event("Acked"))])
        .expect("a well-formed projection");
    assert_eq!(
        ScopeAudit::over(projection).verdict(
            &order(),
            &ScopeReduction::new(universe(), ids(&["e_begin", "e_submit", "e_ack", "e_loss", "e_flush"]), NameSet::new())
        ),
        ScopeVerdict::Unjustified(ScopeViolation::UnattributedCandidateDropped { id: name("e_probe") })
    );
}

#[test]
fn a_reduction_under_an_inapplicable_projection_is_vacuous() {
    let unbound = ScopeAudit::over(
        ObserverProjection::new(vec![], vec![(name("e_ack"), event("Acked"))]).expect("a well-formed projection"),
    );
    assert_eq!(
        unbound.verdict(&order(), &ScopeReduction::new(universe(), universe(), NameSet::new())),
        ScopeVerdict::Inapplicable(ProjectionInapplicable::NoNamedObserver)
    );
    assert_eq!(
        unbound.verdict(&order(), &ScopeReduction::new(universe(), ids(&["e_begin"]), NameSet::new())),
        ScopeVerdict::Unjustified(ScopeViolation::VacuousReduction {
            id: name("e_ack"),
            reason: ProjectionInapplicable::NoNamedObserver,
        })
    );
}

#[test]
fn an_order_no_named_observer_publishes_is_inapplicable_and_not_justified() {
    let elsewhere = ScopeAudit::over(
        ObserverProjection::new(vec![observer("client", &["Elsewhere"])], vec![(name("e_ack"), event("Acked"))])
            .expect("a well-formed projection"),
    );
    let verdict = elsewhere.verdict(&order(), &ScopeReduction::new(universe(), universe(), NameSet::new()));
    assert_eq!(verdict, ScopeVerdict::Inapplicable(ProjectionInapplicable::NoObservedCandidate));
    assert!(!verdict.is_justified());
    assert_eq!(verdict.as_str(), "scope-inapplicable");
}

#[test]
fn an_unclosed_result_is_unjustified() {
    assert!(matches!(
        audit().verdict(&order(), &ScopeReduction::new(ids(&["e_begin", "e_submit"]), ids(&["e_submit"]), NameSet::new())),
        ScopeVerdict::Unjustified(ScopeViolation::NotCausallyClosed(_))
    ));
}

#[test]
fn a_stricter_audit_than_the_filter_refuses_the_reduction() {
    let stricter = ScopeAudit::over(
        ObserverProjection::new(
            vec![observer("auditor", &["Acked", "Internal"])],
            vec![
                (name("e_begin"), event("Internal")),
                (name("e_submit"), event("Internal")),
                (name("e_ack"), event("Acked")),
                (name("e_loss"), event("Internal")),
                (name("e_flush"), event("Internal")),
                (name("e_probe"), event("Internal")),
            ],
        )
        .expect("a well-formed projection"),
    );
    let reduction = honest_reduction(&NameSet::new());
    assert!(audit().verdict(&order(), &reduction).is_justified());
    assert!(matches!(
        stricter.verdict(&order(), &reduction),
        ScopeVerdict::Unjustified(ScopeViolation::ObservedCandidateDropped { .. })
    ));
}

#[test]
fn the_reduction_reports_its_own_shape() {
    let reduction = ScopeReduction::new(universe(), ids(&["e_begin"]), ids(&["e_flush"]));
    assert_eq!(reduction.before(), &universe());
    assert_eq!(reduction.after(), &ids(&["e_begin"]));
    assert_eq!(reduction.protected(), &ids(&["e_flush"]));
    assert_eq!(reduction.dropped().len(), 5);
    assert!(reduction.added().is_empty());
    assert!(!reduction.is_identity());
    assert!(ScopeReduction::new(universe(), universe(), NameSet::new()).is_identity());
}

#[test]
fn two_audits_of_one_reduction_agree() {
    let reduction = honest_reduction(&NameSet::new());
    assert_eq!(audit().verdict(&order(), &reduction), audit().verdict(&order(), &reduction));
    assert_eq!(audit().projection(), &projection());
}
