use lib::causal::{CausalError, CausalOrder, ClosureViolation, PartialReason};
use lib::compile::{CausalCompile, CompileError, RedactionPolicy, RedactionReason};
use lib::expansion::{ExpansionQuery, ExpansionRelation};
use lib::guarantee::Guarantee;
use lib::name::{Name, NameSet};
use lib::omission::OmissionReason;
use lib::selection::SelectionKind;

fn name(text: &str) -> Name {
    Name::new(text).expect("well formed")
}

fn ids(names: &[&str]) -> NameSet {
    NameSet::of(names.iter().map(|id| name(id)).collect())
}

fn nodes() -> Vec<(Name, SelectionKind)> {
    vec![
        (name("e_begin"), SelectionKind::Event),
        (name("e_submit"), SelectionKind::Event),
        (name("e_ack"), SelectionKind::Event),
        (name("e_loss"), SelectionKind::Event),
        (name("n_beat_1"), SelectionKind::Event),
        (name("n_beat_2"), SelectionKind::Event),
        (name("n_scrub"), SelectionKind::Event),
        (name("n_telemetry"), SelectionKind::Event),
        (name("s_writer"), SelectionKind::Source),
    ]
}

fn edges() -> Vec<(Name, Name)> {
    vec![
        (name("e_submit"), name("e_begin")),
        (name("e_ack"), name("e_submit")),
        (name("e_loss"), name("e_ack")),
    ]
}

fn order() -> CausalOrder {
    CausalOrder::new(nodes(), edges()).expect("a well-formed order")
}

fn residual() -> ExpansionQuery {
    ExpansionQuery::new(ExpansionRelation::CausalPredecessors, name("e_loss"))
}

fn clean() -> CausalCompile {
    CausalCompile::new(order(), RedactionPolicy::permitting_everything())
}

#[test]
fn a_clean_slice_licenses_causal_closure() {
    let compiled = clean().run(&ids(&["e_loss"]), &residual()).expect("compiles");
    assert_eq!(compiled.selected(), [name("e_ack"), name("e_loss"), name("e_begin"), name("e_submit")]);
    assert!(compiled.is_causally_closed());
    assert_eq!(compiled.closure_violation(), None);
    assert_eq!(compiled.guarantees().members(), [Guarantee::CausallyClosed]);
    assert_eq!(compiled.accounting().manifest().total(), 5);
    for record in compiled.accounting().manifest().records() {
        assert_eq!(record.reason(), OmissionReason::SliceIrrelevant);
        assert!(record.retrievability().is_expandable());
    }
}

#[test]
fn every_compile_reconciles() {
    for roots in [
        ids(&["e_loss"]),
        ids(&["e_ack"]),
        ids(&["e_begin"]),
        ids(&["s_writer"]),
        ids(&["e_loss", "n_scrub"]),
        ids(&[]),
    ] {
        let anchor = roots.members().last().cloned().unwrap_or_else(|| name("e_loss"));
        let query = ExpansionQuery::new(ExpansionRelation::SameOwner, anchor);
        let Ok(compiled) = clean().run(&roots, &query) else {
            continue;
        };
        compiled.accounting().reconcile().expect("the two halves agree");
        assert_eq!(
            u64::from(compiled.accounting().candidate_count()),
            compiled.accounting().manifest().total() + compiled.accounting().selected().len() as u64
        );
    }
}

#[test]
fn a_root_from_outside_the_order_is_refused() {
    assert_eq!(
        clean().run(&ids(&["e_nowhere"]), &residual()),
        Err(CompileError::Causal(CausalError::UnknownEndpoint { id: name("e_nowhere") }))
    );
}

#[test]
fn a_redacted_root_is_not_a_root() {
    let compile = CausalCompile::new(order(), RedactionPolicy::withholding(vec![(name("e_loss"), RedactionReason::Purged)]));
    assert_eq!(
        compile.run(&ids(&["e_loss"]), &residual()),
        Err(CompileError::RedactedRoot { id: name("e_loss"), reason: RedactionReason::Purged })
    );
}

#[test]
fn a_redaction_hole_costs_the_guarantee() {
    let compile = CausalCompile::new(order(), RedactionPolicy::withholding(vec![(name("e_submit"), RedactionReason::Purged)]));
    let compiled = compile.run(&ids(&["e_loss"]), &residual()).expect("compiles");

    assert_eq!(compiled.redaction_gap(), &ids(&["e_submit"]));
    assert!(!compiled.is_causally_closed());
    assert!(compiled.guarantees().members().is_empty());
    assert_eq!(
        compiled.closure_violation(),
        Some(&ClosureViolation::MissingPredecessor { selected: name("e_ack"), predecessor: name("e_submit") })
    );
    let redacted: Vec<_> = compiled
        .accounting()
        .manifest()
        .records()
        .iter()
        .filter(|record| record.reason() == OmissionReason::Redaction)
        .collect();
    assert_eq!(redacted.len(), 1);
    assert_eq!(redacted[0].count(), 1);
    assert!(!redacted[0].retrievability().is_expandable());
    compiled.accounting().reconcile().expect("the two halves agree");
}

#[test]
fn a_redaction_outside_the_slice_does_not_cost_the_guarantee() {
    let compile =
        CausalCompile::new(order(), RedactionPolicy::withholding(vec![(name("n_scrub"), RedactionReason::Summarized)]));
    let compiled = compile.run(&ids(&["e_loss"]), &residual()).expect("compiles");
    assert!(compiled.is_causally_closed());
    assert!(compiled.redaction_gap().is_empty());
    assert_eq!(compiled.accounting().manifest().total(), 5);
}

#[test]
fn a_partial_order_drops_to_heuristic_cutoff() {
    let partial = CausalOrder::partial(nodes(), edges(), PartialReason::InsufficientTelemetry).expect("a well-formed order");
    let compiled = CausalCompile::new(partial, RedactionPolicy::permitting_everything())
        .run(&ids(&["e_loss"]), &residual())
        .expect("compiles");
    assert!(compiled.is_causally_closed());
    for record in compiled.accounting().manifest().records() {
        assert_eq!(record.reason(), OmissionReason::HeuristicCutoff);
    }
}

#[test]
fn a_residual_anchor_outside_the_selection_is_refused() {
    let query = ExpansionQuery::new(ExpansionRelation::CausalPredecessors, name("n_scrub"));
    assert_eq!(
        clean().run(&ids(&["e_loss"]), &query),
        Err(CompileError::AnchorNotSelected { anchor: name("n_scrub") })
    );
}

#[test]
fn an_empty_manifest_needs_no_anchor() {
    let compile = CausalCompile::new(
        CausalOrder::new(
            vec![(name("e_1"), SelectionKind::Event), (name("e_2"), SelectionKind::Event)],
            vec![(name("e_2"), name("e_1"))],
        )
        .expect("a well-formed order"),
        RedactionPolicy::permitting_everything(),
    );
    let query = ExpansionQuery::new(ExpansionRelation::SameOwner, name("e_9999"));
    let compiled = compile.run(&ids(&["e_2"]), &query).expect("compiles");
    assert!(compiled.accounting().manifest().is_empty());
    assert!(compiled.is_causally_closed());
}

#[test]
fn an_empty_root_set_is_a_wrong_pack_and_not_an_unsound_one() {
    assert_eq!(
        clean().run(&ids(&[]), &residual()),
        Err(CompileError::AnchorNotSelected { anchor: name("e_loss") })
    );
}

#[test]
fn a_causally_isolated_root_selects_only_itself() {
    let compiled = clean()
        .run(&ids(&["s_writer"]), &ExpansionQuery::new(ExpansionRelation::SourceSpan, name("s_writer")))
        .expect("compiles");
    assert_eq!(compiled.selected(), [name("s_writer")]);
    assert!(compiled.is_causally_closed());
    assert_eq!(compiled.accounting().manifest().total(), 8);
}

#[test]
fn one_compile_run_twice_gives_one_answer() {
    let one = clean().run(&ids(&["e_loss"]), &residual()).expect("compiles");
    let other = clean().run(&ids(&["e_loss"]), &residual()).expect("compiles");
    assert_eq!(one, other);
}

#[test]
fn the_first_refused_root_in_canonical_order_is_named() {
    let compile = CausalCompile::new(order(), RedactionPolicy::withholding(vec![(name("e_submit"), RedactionReason::Lost)]));
    assert_eq!(
        compile.run(&ids(&["e_submit", "e_zz"]), &residual()),
        Err(CompileError::Causal(CausalError::UnknownEndpoint { id: name("e_zz") }))
    );
    assert_eq!(
        compile.run(&ids(&["e_submit", "e_zzzzzzzz"]), &residual()),
        Err(CompileError::RedactedRoot { id: name("e_submit"), reason: RedactionReason::Lost })
    );
}

#[test]
fn a_policy_keeps_the_last_reason_given_for_an_identity() {
    let policy = RedactionPolicy::withholding(vec![
        (name("b"), RedactionReason::Lost),
        (name("a"), RedactionReason::Summarized),
        (name("b"), RedactionReason::Purged),
    ]);
    assert!(policy.withholds(&name("a")));
    assert!(!policy.withholds(&name("c")));
    assert_eq!(policy.reason(&name("b")), Some(RedactionReason::Purged));
    assert_eq!(policy.reason(&name("c")), None);
    assert_eq!(policy.withheld(), [name("a"), name("b")]);
    assert!(!policy.is_permissive());
    assert!(RedactionPolicy::permitting_everything().is_permissive());
}

#[test]
fn names_order_shortlex() {
    assert!(name("d_zeta").precedes(&name("d_alpha")));
    assert!(name("o_ack").precedes(&name("o_durability")));
    assert!(name("a").precedes(&name("b")));
    assert!(!name("b").precedes(&name("a")));
    assert!(!name("a").precedes(&name("a")));
}

#[test]
fn two_runs_of_one_compile_agree() {
    let one = clean().run(&ids(&["e_loss"]), &residual()).expect("compiles");
    let other = clean().run(&ids(&["e_loss"]), &residual()).expect("compiles");
    assert_eq!(one, other);
    assert_eq!(one.guarantees().to_json(), other.guarantees().to_json());
    assert_eq!(one.accounting().manifest().to_json(), other.accounting().manifest().to_json());
}
