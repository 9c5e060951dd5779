use lib::budget::{
    account, array_len, digits, prefix_sums, residual_parts, settle, shortfall_bases, slot, BudgetError, Model, KINDS,
    MODEL_BOUND,
};
use lib::expansion::{ExpansionQuery, ExpansionRelation};
use lib::accounting::AccountingError;
use lib::name::Name;
use lib::omission::{Manifest, OmissionReason, OmissionRecord, IrretrievableReason};
use lib::selection::SelectionKind;

fn name(text: &str) -> Name {
    Name::new(text).expect("well formed")
}

fn shortfall() -> ExpansionQuery {
    ExpansionQuery::new(ExpansionRelation::CausalPredecessors, name("e_ack"))
}

fn items(count: u32) -> Vec<(Name, SelectionKind)> {
    (0..count).map(|i| (name(&format!("s_{i:03}")), SelectionKind::Source)).collect()
}

fn residual() -> Manifest {
    Manifest::new(vec![OmissionRecord::expandable(SelectionKind::Source, 2, OmissionReason::Budget, shortfall())])
        .expect("one cell")
}

#[test]
fn every_packed_prefix_conserves_the_candidates() {
    let ordered = items(6);
    for kept in 0..=6 {
        let (manifest, dropped) = account(&ordered, kept, &residual(), &shortfall()).expect("accounted");
        assert_eq!(u64::from(dropped), (6 - kept) as u64);
        assert_eq!(manifest.total(), 2 + (6 - kept) as u64);
    }
}

#[test]
fn a_residual_budget_cell_merges_with_the_shortfall() {
    let (manifest, dropped) = account(&items(4), 1, &residual(), &shortfall()).expect("accounted");
    assert_eq!(dropped, 3);
    assert_eq!(manifest.records().len(), 1);
    assert_eq!(manifest.records()[0].count(), 5);
}

#[test]
fn distinct_residual_cells_stay_beside_the_shortfall() {
    let residual = Manifest::new(vec![OmissionRecord::irretrievable(SelectionKind::Event, 7, IrretrievableReason::Redaction)])
        .expect("one cell");
    let (manifest, dropped) = account(&items(3), 2, &residual, &shortfall()).expect("accounted");
    assert_eq!(dropped, 1);
    assert_eq!(manifest.records().len(), 2);
    assert_eq!(manifest.total(), 8);
}

#[test]
fn keeping_everything_leaves_only_the_residual() {
    let (manifest, dropped) = account(&items(3), 3, &residual(), &shortfall()).expect("accounted");
    assert_eq!(dropped, 0);
    assert_eq!(manifest, residual());
}

#[test]
fn the_account_refuses_a_repeated_candidate() {
    let ordered = vec![
        (name("s_1"), SelectionKind::Source),
        (name("s_1"), SelectionKind::Event),
    ];
    assert_eq!(
        account(&ordered, 1, &residual(), &shortfall()),
        Err(BudgetError::Accounting(AccountingError::RepeatedCandidate { id: name("s_1") }))
    );
}

#[test]
fn a_self_measurement_settles_at_its_least_fixed_point() {
    assert_eq!(digits(0), 1);
    assert_eq!(digits(9), 1);
    assert_eq!(digits(10), 2);
    assert_eq!(digits(u64::MAX), 20);
    assert_eq!(settle(8), 9);
    assert_eq!(settle(98), 101);
    assert_eq!(settle(0), 1);
}

#[test]
fn an_array_measures_its_brackets_and_separators() {
    assert_eq!(array_len((0, 0)), 2);
    assert_eq!(array_len((10, 1)), 12);
    assert_eq!(array_len((10, 3)), 14);
}

#[test]
fn a_model_prices_the_prefix_it_is_asked_about() {
    let model = Model::from_parts(100, vec![0, 10, 20], (0, 0), (0, 0), [0; KINDS], [30; KINDS], 40)
        .expect("within bounds");
    let mut dropped = [0u64; KINDS];
    // Keeping both candidates: 100 + (20 + 2 + 1) + 2 + 2 = 127 bytes of content, so the
    // self-measurement settles at 130.
    assert_eq!(model.length(2, &dropped), 130);
    dropped[2] = 1;
    // Dropping one source candidate adds one shortfall record and its query.
    assert_eq!(model.length(1, &dropped), settle(100 + 12 + 33 + 42));
    assert!(Model::from_parts(100, Vec::new(), (0, 0), (0, 0), [0; KINDS], [0; KINDS], 0).is_none());
}

#[test]
fn the_largest_fit_is_the_longest_prefix_under_the_ceiling() {
    let model = Model::from_parts(100, vec![0, 10, 20, 30], (0, 0), (0, 0), [0; KINDS], [30; KINDS], 40)
        .expect("within bounds");
    let kinds = [SelectionKind::Source, SelectionKind::Source, SelectionKind::Source];
    let kept = model.largest_fit(1000, &kinds);
    assert_eq!(kept, 2);
    assert_eq!(model.largest_fit(10, &kinds), 0);
}

#[test]
fn a_model_takes_any_part_whose_sums_stay_in_sixty_four_bits() {
    // A tebibyte-sized fixed part is an ordinary measurement, not a refusal.
    let big: u64 = 1 << 45;
    assert!(Model::from_parts(big, vec![0, 10], (0, 0), (0, 0), [0; KINDS], [30; KINDS], 40).is_some());
    assert!(Model::from_parts(MODEL_BOUND, vec![0], (0, 0), (0, 0), [0; KINDS], [0; KINDS], 0).is_some());
    assert!(Model::from_parts(MODEL_BOUND + 1, vec![0], (0, 0), (0, 0), [0; KINDS], [0; KINDS], 0).is_none());
}

#[test]
fn the_residual_splits_into_plain_records_and_resident_counts() {
    let residual = Manifest::new(vec![
        OmissionRecord::expandable(SelectionKind::Source, 2, OmissionReason::Budget, shortfall()),
        OmissionRecord::irretrievable(SelectionKind::Event, 3, IrretrievableReason::Unsupported),
        OmissionRecord::expandable(
            SelectionKind::Model,
            1,
            OmissionReason::HeuristicCutoff,
            ExpansionQuery::new(ExpansionRelation::SourceSpan, name("m_1")),
        ),
    ])
    .expect("three cells");
    let (records, queries, resident) = residual_parts(&residual, &shortfall());
    let event = r#"{"count":3,"expandable":false,"kind":"event","reason":"unsupported"}"#;
    let model_query = r#"{"anchor":"m_1","relation":"source_span"}"#;
    let model = format!(
        r#"{{"count":1,"expandable":true,"expansion":{model_query},"kind":"model","reason":"heuristic-cutoff"}}"#
    );
    assert_eq!(records, ((event.len() + model.len()) as u64, 2));
    assert_eq!(queries, (model_query.len() as u64, 1));
    let mut expected = [0u64; KINDS];
    expected[slot(SelectionKind::Source)] = 2;
    assert_eq!(resident, expected);
}

#[test]
fn each_shortfall_base_is_its_record_less_one_digit() {
    let bases = shortfall_bases(&shortfall());
    let query = r#"{"anchor":"e_ack","relation":"causal_predecessors"}"#;
    let source = format!(r#"{{"count":0,"expandable":true,"expansion":{query},"kind":"source","reason":"budget"}}"#);
    assert_eq!(bases[slot(SelectionKind::Source)], source.len() as u64 - 1);
}

#[test]
fn the_prefix_sums_start_at_zero() {
    assert_eq!(prefix_sums(&[5, 7, 11]), vec![0, 5, 12, 23]);
    assert_eq!(prefix_sums(&[]), vec![0]);
}

#[test]
fn a_model_is_measured_from_its_inputs() {
    let model = Model::new(100, &[10, 10], &residual(), &shortfall()).expect("within bounds");
    let parts = Model::from_parts(
        100,
        vec![0, 10, 20],
        (0, 0),
        (0, 0),
        {
            let mut resident = [0u64; KINDS];
            resident[slot(SelectionKind::Source)] = 2;
            resident
        },
        shortfall_bases(&shortfall()),
        r#"{"anchor":"e_ack","relation":"causal_predecessors"}"#.len() as u64,
    )
    .expect("within bounds");
    let dropped = [0u64; KINDS];
    for kept in 0..=2 {
        assert_eq!(model.length(kept, &dropped), parts.length(kept, &dropped));
    }
}
