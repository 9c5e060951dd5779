use lib::causal::{CausalError, CausalOrder};
use lib::name::{Name, NameSet};
use lib::observer::{
    Observation, Observer, ObserverFilter, ObserverProjection, ProjectionApplicability,
    ProjectionError, ProjectionInapplicable,
};
use lib::selection::SelectionKind;

fn name(text: &str) -> Name {
    Name::new(text).expect("well formed")
}

fn ids(names: &[&str]) -> NameSet {
    NameSet::of(names.iter().map(|id| name(id)).collect())
}

fn event(element: &str) -> Observation {
    Observation::new("events", element)
}

fn observer(id: &str, events: &[&str]) -> Observer {
    Observer::new(name(id), events.iter().map(|element| event(element)).collect())
}

/// `e_begin -> e_submit -> e_ack -> e_loss`, plus an isolated `e_flush` and an isolated
/// `e_probe`.
fn order() -> CausalOrder {
    CausalOrder::new(
        vec![
            (name("e_begin"), SelectionKind::Event),
            (name("e_submit"), SelectionKind::Event),
            (name("e_ack"), SelectionKind::Event),
            (name("e_loss"), SelectionKind::Event),
            (name("e_flush"), SelectionKind::Event),
            (name("e_probe"), SelectionKind::Event),
        ],
        vec![
            (name("e_submit"), name("e_begin")),
            (name("e_ack"), name("e_submit")),
            (name("e_loss"), name("e_ack")),
        ],
    )
    .expect("a well-formed order")
}

/// The client publishes the durability chain's tail and nothing else; `e_probe` is declared
/// into a family no observer names; `e_flush` and `e_begin` are unattributed.
fn projection() -> ObserverProjection {
    ObserverProjection::new(
        vec![observer("client", &["Submitted", "Acked", "Lost"])],
        vec![
            (name("e_submit"), event("Submitted")),
            (name("e_ack"), event("Acked")),
            (name("e_loss"), event("Lost")),
            (name("e_probe"), event("Diagnostic")),
        ],
    )
    .expect("a well-formed projection")
}

fn universe() -> NameSet {
    NameSet::of(order().nodes().to_vec())
}

fn texts(ids: &[Name]) -> Vec<String> {
    ids.iter().map(|id| id.as_str().to_owned()).collect()
}

#[test]
fn the_scope_is_what_a_named_observer_publishes() {
    let projection = projection();
    assert_eq!(projection.scope(&order()), ids(&["e_submit", "e_ack", "e_loss"]));
    assert!(projection.publishes(&name("e_ack")));
    assert!(projection.is_attributed(&name("e_probe")));
    assert!(!projection.publishes(&name("e_probe")));
    assert!(!projection.is_attributed(&name("e_flush")));
    assert!(projection.observers_of(&name("e_flush")).is_empty());
}

#[test]
fn the_named_observers_are_reported_by_id() {
    let projection = ObserverProjection::new(
        vec![observer("client", &["Acked"]), observer("auditor", &["Acked", "Lost"])],
        vec![(name("e_ack"), event("Acked")), (name("e_loss"), event("Lost"))],
    )
    .expect("a well-formed projection");
    assert_eq!(texts(&projection.observers_of(&name("e_ack"))), ["auditor", "client"]);
    assert_eq!(texts(&projection.observers_of(&name("e_loss"))), ["auditor"]);
    assert_eq!(texts(&projection.engaged_observers(&order())), ["auditor", "client"]);
}

#[test]
fn an_unattributed_candidate_is_never_dropped() {
    let kept = ObserverFilter::retain(&projection(), &order(), &universe(), &NameSet::new()).expect("inside the order");
    assert!(kept.contains(&name("e_flush")), "unattributed, so kept");
    assert_eq!(kept, ids(&["e_begin", "e_submit", "e_ack", "e_loss", "e_flush"]));
}

#[test]
fn a_protected_candidate_survives_the_projection() {
    let unprotected = ObserverFilter::retain(&projection(), &order(), &universe(), &NameSet::new()).expect("inside the order");
    assert!(!unprotected.contains(&name("e_probe")));
    let protected = ObserverFilter::retain(&projection(), &order(), &universe(), &ids(&["e_probe"])).expect("inside the order");
    assert!(protected.contains(&name("e_probe")));
}

#[test]
fn the_projection_re_closes_what_it_keeps() {
    let projection = ObserverProjection::new(
        vec![observer("client", &["Acked"])],
        vec![
            (name("e_begin"), event("Internal")),
            (name("e_submit"), event("Internal")),
            (name("e_ack"), event("Acked")),
        ],
    )
    .expect("a well-formed projection");
    let kept = ObserverFilter::retain(&projection, &order(), &universe(), &NameSet::new()).expect("inside the order");
    assert!(kept.contains(&name("e_begin")));
    assert!(kept.contains(&name("e_submit")));
    assert!(order().is_downward_closed(&kept));
    assert_eq!(kept, universe());
}

#[test]
fn a_slice_the_projection_narrows_stays_downward_closed() {
    let projection = ObserverProjection::new(
        vec![observer("client", &["Acked"])],
        vec![
            (name("e_ack"), event("Acked")),
            (name("e_loss"), event("Internal")),
            (name("e_probe"), event("Internal")),
            (name("e_flush"), event("Internal")),
            (name("e_begin"), event("Internal")),
            (name("e_submit"), event("Internal")),
        ],
    )
    .expect("a well-formed projection");
    let kept = ObserverFilter::retain(&projection, &order(), &universe(), &NameSet::new()).expect("inside the order");
    assert_eq!(kept, ids(&["e_begin", "e_submit", "e_ack"]));
    assert!(order().is_downward_closed(&kept));
}

#[test]
fn a_coarsened_observer_narrows_the_scope() {
    let wide = ObserverProjection::new(
        vec![observer("client", &["Submitted", "Acked", "Lost"])],
        vec![
            (name("e_submit"), event("Submitted")),
            (name("e_ack"), event("Acked")),
            (name("e_loss"), event("Lost")),
        ],
    )
    .expect("a well-formed projection");
    let coarse = ObserverProjection::new(
        vec![observer("client", &["Submitted"])],
        vec![
            (name("e_submit"), event("Submitted")),
            (name("e_ack"), event("Acked")),
            (name("e_loss"), event("Lost")),
        ],
    )
    .expect("a well-formed projection");
    assert_eq!(wide.scope(&order()), ids(&["e_submit", "e_ack", "e_loss"]));
    assert_eq!(coarse.scope(&order()), ids(&["e_submit"]));
    let wide_kept = ObserverFilter::retain(&wide, &order(), &universe(), &NameSet::new()).expect("inside the order");
    let coarse_kept = ObserverFilter::retain(&coarse, &order(), &universe(), &NameSet::new()).expect("inside the order");
    assert!(coarse_kept.len() < wide_kept.len());
    assert!(!coarse_kept.contains(&name("e_ack")));
}

#[test]
fn an_intent_that_binds_no_observer_is_inapplicable() {
    let projection = ObserverProjection::new(vec![], vec![(name("e_ack"), event("Acked"))]).expect("a well-formed projection");
    assert_eq!(
        projection.applicability(&order()),
        ProjectionApplicability::Inapplicable(ProjectionInapplicable::NoNamedObserver)
    );
    assert!(!projection.applicability(&order()).is_applicable());
}

#[test]
fn an_order_no_named_observer_publishes_is_inapplicable() {
    let projection = ObserverProjection::new(
        vec![observer("client", &["Elsewhere"])],
        vec![(name("e_ack"), event("Acked"))],
    )
    .expect("a well-formed projection");
    assert_eq!(
        projection.applicability(&order()),
        ProjectionApplicability::Inapplicable(ProjectionInapplicable::NoObservedCandidate)
    );
    assert_ne!(
        ProjectionInapplicable::NoNamedObserver.as_str(),
        ProjectionInapplicable::NoObservedCandidate.as_str()
    );
    assert_eq!(ProjectionInapplicable::ALL.len(), 2);
}

#[test]
fn an_applicable_projection_says_so() {
    assert_eq!(projection().applicability(&order()), ProjectionApplicability::Applicable);
    assert_eq!(ProjectionApplicability::Applicable.as_str(), "observer-projected");
    assert_eq!(
        ProjectionApplicability::Inapplicable(ProjectionInapplicable::NoNamedObserver).as_str(),
        "observer-inapplicable"
    );
}

#[test]
fn a_candidate_attributed_twice_is_refused() {
    assert_eq!(
        ObserverProjection::new(
            vec![observer("client", &["Acked"])],
            vec![(name("e_ack"), event("Acked")), (name("e_ack"), event("Something"))],
        ),
        Err(ProjectionError::RepeatedCandidate { id: name("e_ack") })
    );
}

#[test]
fn the_four_projection_kinds_are_all_usable_and_do_not_cross() {
    let projection = ObserverProjection::new(
        vec![observer("client", &["pending"])],
        vec![(name("e_ack"), Observation::new("state_projection", "pending"))],
    )
    .expect("a well-formed projection");
    assert!(!projection.publishes(&name("e_ack")));
    let state_observer = Observer::new(name("client"), vec![Observation::new("state_projection", "pending")]);
    let matching = ObserverProjection::new(
        vec![state_observer],
        vec![(name("e_ack"), Observation::new("state_projection", "pending"))],
    )
    .expect("a well-formed projection");
    assert!(matching.publishes(&name("e_ack")));
    assert_eq!(Observation::new("state_projection", "pending").text(), "state_projection:pending");
}

#[test]
fn a_slice_from_outside_the_order_is_refused() {
    let mut stray = universe();
    stray.insert(name("z_9"));
    assert_eq!(
        ObserverFilter::retain(&projection(), &order(), &stray, &NameSet::new()),
        Err(CausalError::UnknownEndpoint { id: name("z_9") })
    );
}

#[test]
fn two_projections_of_one_input_agree() {
    let one = ObserverFilter::retain(&projection(), &order(), &universe(), &NameSet::new()).expect("inside the order");
    let other = ObserverFilter::retain(&projection(), &order(), &universe(), &NameSet::new()).expect("inside the order");
    assert_eq!(one, other);
    assert_eq!(projection(), projection());
}

#[test]
fn a_projection_reports_its_declaration() {
    let projection = projection();
    assert_eq!(projection.observers().len(), 1);
    assert_eq!(projection.observers()[0].id(), &name("client"));
    assert!(projection.observers()[0].publishes(&event("Lost")));
    assert_eq!(projection.observation(&name("e_ack")), Some(&event("Acked")));
    assert_eq!(projection.observation(&name("e_begin")), None);
    let declared: Vec<String> = projection.attributed().iter().map(|(id, _)| id.as_str().to_owned()).collect();
    assert_eq!(declared, ["e_ack", "e_loss", "e_probe", "e_submit"]);
    assert_eq!(event("Acked").kind(), "events");
    assert_eq!(event("Acked").element(), "Acked");
    assert!(ProjectionError::RepeatedCandidate { id: name("e_ack") }.message().starts_with("`e_ack` is attributed"));
}

#[test]
fn an_attributed_unpublished_stray_is_refused_rather_than_dropped() {
    // `z_9` is declared into a family no observer names, so it is no seed; it is still a
    // member of the slice that the order does not hold, and the slice is refused for it.
    let projection = ObserverProjection::new(
        vec![observer("client", &["Submitted", "Acked", "Lost"])],
        vec![(name("e_ack"), event("Acked")), (name("z_9"), event("Diagnostic"))],
    )
    .expect("a well-formed projection");
    let mut stray = universe();
    stray.insert(name("z_9"));
    assert_eq!(
        ObserverFilter::retain(&projection, &order(), &stray, &NameSet::new()),
        Err(CausalError::UnknownEndpoint { id: name("z_9") })
    );
    // The least stray is the one named.
    let mut two = universe();
    two.insert(name("z_9"));
    two.insert(name("y_8"));
    assert_eq!(
        ObserverFilter::retain(&projection, &order(), &two, &NameSet::new()),
        Err(CausalError::UnknownEndpoint { id: name("y_8") })
    );
}
