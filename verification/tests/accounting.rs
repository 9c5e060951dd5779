use lib::accounting::{Accounting, AccountingError, CandidateSet, ClosedAccounting, Omitted};
use lib::expansion::{ExpansionQuery, ExpansionRelation};
use lib::name::Name;
use lib::omission::{IrretrievableReason, Manifest, OmissionReason, OmissionRecord};
use lib::selection::SelectionKind;

fn name(text: &str) -> Name {
    Name::new(text).expect("well formed")
}

fn query(anchor: &str) -> ExpansionQuery {
    ExpansionQuery::new(ExpansionRelation::CausalPredecessors, name(anchor))
}

fn candidates() -> CandidateSet {
    CandidateSet::new(vec![
        (name("e_1"), SelectionKind::Event),
        (name("e_2"), SelectionKind::Event),
        (name("e_3"), SelectionKind::Event),
        (name("s_1"), SelectionKind::Source),
    ])
    .expect("four distinct candidates")
}

fn budget() -> Omitted {
    Omitted::Expandable { reason: OmissionReason::Budget, query: query("e_1") }
}

#[test]
fn the_counting_equation_holds_for_every_closed_accounting() {
    let mut accounting = Accounting::over(candidates());
    accounting.select(&name("e_1")).expect("a candidate");
    accounting.omit(&name("e_2"), budget()).expect("a candidate");
    accounting.omit(&name("e_3"), budget()).expect("a candidate");
    accounting
        .omit(&name("s_1"), Omitted::Irretrievable(IrretrievableReason::Redaction))
        .expect("a candidate");
    let closed = accounting.close().expect("every candidate decided");

    assert_eq!(closed.candidate_count(), 4);
    assert_eq!(closed.selected(), [name("e_1")]);
    assert_eq!(closed.manifest().total(), 3);
    assert_eq!(closed.manifest().records().len(), 2);
    assert_eq!(closed.manifest().records()[0].count(), 2);
    closed.reconcile().expect("the two halves agree");
}

#[test]
fn an_undispositioned_candidate_cannot_be_closed() {
    let mut accounting = Accounting::over(candidates());
    accounting.select(&name("e_1")).expect("a candidate");
    accounting.omit(&name("e_2"), budget()).expect("a candidate");
    assert_eq!(
        accounting.clone().close(),
        Err(AccountingError::Undispositioned { first: name("e_3"), remaining: 2 })
    );
    accounting.omit(&name("e_3"), budget()).expect("a candidate");
    accounting.select(&name("s_1")).expect("a candidate");
    accounting.close().expect("now every candidate is decided");
}

#[test]
fn a_candidate_cannot_be_dispositioned_twice() {
    let mut accounting = Accounting::over(candidates());
    accounting.select(&name("e_1")).expect("a candidate");
    assert_eq!(
        accounting.omit(&name("e_1"), budget()),
        Err(AccountingError::AlreadyDispositioned { id: name("e_1") })
    );
    assert_eq!(
        accounting.select(&name("e_1")),
        Err(AccountingError::AlreadyDispositioned { id: name("e_1") })
    );
}

#[test]
fn a_selection_cannot_contain_something_that_was_never_a_candidate() {
    let mut accounting = Accounting::over(candidates());
    assert_eq!(
        accounting.select(&name("e_9")),
        Err(AccountingError::UnknownCandidate { id: name("e_9") })
    );
}

#[test]
fn an_empty_manifest_means_the_selection_is_the_whole_candidate_set() {
    let mut accounting = Accounting::over(candidates());
    for id in ["e_1", "e_2", "e_3", "s_1"] {
        accounting.select(&name(id)).expect("a candidate");
    }
    let closed = accounting.close().expect("every candidate decided");
    assert!(closed.manifest().is_empty());
    assert_eq!(closed.selected().len(), 4);
    closed.reconcile().expect("the two halves agree");
}

#[test]
fn an_empty_candidate_set_closes_to_an_empty_pack_and_an_empty_manifest() {
    let closed = Accounting::over(CandidateSet::new(Vec::new()).expect("no candidates"))
        .close()
        .expect("nothing to decide");
    assert_eq!(closed.candidate_count(), 0);
    assert!(closed.selected().is_empty());
    assert!(closed.manifest().is_empty());
    closed.reconcile().expect("0 = 0 + 0");
}

#[test]
fn a_shrunk_manifest_count_fails_reconciliation() {
    let mut accounting = Accounting::over(candidates());
    accounting.select(&name("e_1")).expect("a candidate");
    for id in ["e_2", "e_3", "s_1"] {
        accounting.omit(&name(id), budget()).expect("a candidate");
    }
    let honest = accounting.close().expect("every candidate decided");
    honest.reconcile().expect("the honest accounting reconciles");

    let shrunk = ClosedAccounting::from_parts(
        honest.candidate_count(),
        honest.selected().to_vec(),
        Manifest::new(
            honest
                .manifest()
                .records()
                .iter()
                .map(|record| OmissionRecord::expandable(record.kind(), record.count() - 1, record.reason(), query("e_1")))
                .collect(),
        )
        .expect("still one cell"),
    );
    assert_eq!(
        shrunk.reconcile(),
        Err(AccountingError::DoesNotReconcile { candidates: 4, accounted: 2 })
    );
}

#[test]
fn an_inflated_manifest_count_fails_reconciliation() {
    let mut accounting = Accounting::over(candidates());
    for id in ["e_1", "e_2", "e_3", "s_1"] {
        accounting.omit(&name(id), budget()).expect("a candidate");
    }
    let honest = accounting.close().expect("every candidate decided");
    let inflated = ClosedAccounting::from_parts(
        honest.candidate_count(),
        honest.selected().to_vec(),
        Manifest::new(
            honest
                .manifest()
                .records()
                .iter()
                .map(|record| OmissionRecord::expandable(record.kind(), record.count() + 5, record.reason(), query("e_1")))
                .collect(),
        )
        .expect("still the same cells"),
    );
    assert!(matches!(inflated.reconcile(), Err(AccountingError::DoesNotReconcile { .. })));
}

#[test]
fn a_repeated_candidate_is_refused() {
    assert_eq!(
        CandidateSet::new(vec![(name("e_1"), SelectionKind::Event), (name("e_1"), SelectionKind::Source)]),
        Err(AccountingError::RepeatedCandidate { id: name("e_1") })
    );
}

#[test]
fn the_first_repeat_in_arrival_order_is_the_one_named() {
    assert_eq!(
        CandidateSet::new(vec![
            (name("z_1"), SelectionKind::Event),
            (name("b_1"), SelectionKind::Event),
            (name("z_1"), SelectionKind::Event),
            (name("b_1"), SelectionKind::Event),
        ]),
        Err(AccountingError::RepeatedCandidate { id: name("z_1") })
    );
}

#[test]
fn a_candidate_set_answers_for_its_kinds() {
    let set = candidates();
    assert_eq!(set.len(), 4);
    assert!(!set.is_empty());
    assert_eq!(set.kind(&name("s_1")), Some(SelectionKind::Source));
    assert_eq!(set.kind(&name("e_2")), Some(SelectionKind::Event));
    assert_eq!(set.kind(&name("x_1")), None);
}

#[test]
fn the_selection_and_the_undecided_come_out_in_canonical_order() {
    let set = CandidateSet::new(vec![
        (name("c"), SelectionKind::Event),
        (name("a"), SelectionKind::Event),
        (name("b"), SelectionKind::Event),
        (name("d"), SelectionKind::Event),
    ])
    .expect("distinct");
    let mut accounting = Accounting::over(set);
    accounting.select(&name("c")).expect("a candidate");
    accounting.select(&name("a")).expect("a candidate");
    assert_eq!(accounting.undecided(), [name("b"), name("d")]);
    accounting.omit(&name("d"), Omitted::Irretrievable(IrretrievableReason::Unsupported)).expect("a candidate");
    accounting.omit(&name("b"), Omitted::Irretrievable(IrretrievableReason::Unsupported)).expect("a candidate");
    let closed = accounting.close().expect("every candidate decided");
    assert_eq!(closed.selected(), [name("a"), name("c")]);
    assert_eq!(closed.manifest().records().len(), 1);
    assert_eq!(closed.manifest().records()[0].count(), 2);
    assert_eq!(closed.manifest().records()[0].reason(), OmissionReason::Unsupported);
}

#[test]
fn an_omission_reports_the_reason_it_is_recorded_under() {
    assert_eq!(budget().reason(), OmissionReason::Budget);
    assert_eq!(Omitted::Irretrievable(IrretrievableReason::Redaction).reason(), OmissionReason::Redaction);
}
