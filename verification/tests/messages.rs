use lib::accounting::AccountingError;
use lib::budget::BudgetError;
use lib::causal::{CausalError, ClosureViolation};
use lib::compile::{CompileError, RedactionReason};
use lib::dependence::Inadmissible;
use lib::expansion::ExpansionError;
use lib::guarantee::GuaranteeError;
use lib::monitor::{Inapplicable, MonitorDisagreement, MonitorVerdict};
use lib::name::Name;
use lib::observer::ProjectionInapplicable;
use lib::omission::{ManifestError, OmissionReason};
use lib::property::{AutomatonError, AutomatonState, AutomatonVerdict};
use lib::scope::{ScopeVerdict, ScopeViolation};
use lib::selection::SelectionKind;

fn name(text: &str) -> Name {
    Name::new(text).expect("well formed")
}

#[test]
fn a_causal_refusal_names_its_node() {
    assert_eq!(CausalError::RepeatedNode { id: name("e_1") }.message(), "`e_1` is declared as a node twice");
    assert_eq!(CausalError::UnknownEndpoint { id: name("e_0") }.message(), "`e_0` is not a node of this causal order");
    assert_eq!(CausalError::SelfEdge { id: name("e_1") }.message(), "`e_1` cannot causally precede itself");
    assert_eq!(
        CausalError::Cyclic { first: name("e_1") }.message(),
        "the edge set has a cycle through `e_1`, so it is not a causal order"
    );
    assert_eq!(
        ClosureViolation::MissingPredecessor { selected: name("e_2"), predecessor: name("e_1") }.message(),
        "`e_2` is selected and its causal predecessor `e_1` is not; an unselected causal predecessor breaks `CausallyClosed`"
    );
}

#[test]
fn an_accounting_refusal_spells_its_counts() {
    assert_eq!(
        AccountingError::Undispositioned { first: name("e_3"), remaining: 2 }.message(),
        "2 candidate(s) have no disposition, starting at `e_3`; a pack that cannot name what it dropped is malformed, not compact"
    );
    assert_eq!(
        AccountingError::DoesNotReconcile { candidates: 4, accounted: 12 }.message(),
        "the candidate set has 4 members and the pack accounts for 12"
    );
    assert_eq!(
        AccountingError::CountOverflow { kind: SelectionKind::Event }.message(),
        "the `event` count does not fit a 32-bit exact count"
    );
    assert_eq!(
        AccountingError::Manifest(ManifestError::RepeatedCell { kind: SelectionKind::Source, reason: OmissionReason::Budget }).message(),
        "two omission records account for the `source`/`budget` cell; the manifest partition would double-count it"
    );
}

#[test]
fn a_compile_refusal_names_the_root_or_the_anchor() {
    assert_eq!(
        CompileError::RedactedRoot { id: name("e_loss"), reason: RedactionReason::Purged }.message(),
        "the root `e_loss` is withheld (purged); a redacted root is not a root, and slicing from one leaks the shape of what it dropped"
    );
    assert_eq!(
        CompileError::Causal(CausalError::UnknownEndpoint { id: name("e_9") }).message(),
        "`e_9` is not a node of this causal order"
    );
    assert!(CompileError::AnchorNotSelected { anchor: name("n_scrub") }.message().starts_with("the residual expansion query anchors at `n_scrub`"));
}

#[test]
fn a_monitor_verdict_explains_itself() {
    assert_eq!(
        MonitorVerdict::Divergent(MonitorDisagreement::VerdictDiverged {
            whole: AutomatonVerdict::Violated,
            slice: AutomatonVerdict::Satisfied,
        })
        .message(),
        "the whole order runs to `violated` and the selection runs to `satisfied`"
    );
    assert!(MonitorVerdict::Inapplicable(Inapplicable::EmptyAlphabet).message().starts_with("the property automaton declares no transitions"));
    assert!(MonitorVerdict::Preserving.message().starts_with("the selection preserves"));
    assert!(MonitorDisagreement::NotCausallyClosed(ClosureViolation::NotInOrder { selected: name("z_9") })
        .message()
        .starts_with("`z_9` is selected but is not a node of the causal order; a slice"));
}

#[test]
fn the_remaining_refusals_explain_themselves() {
    assert!(AutomatonError::TransitionRepeated { state: AutomatonState::new(name("q_0")), symbol: name("e_ack") }
        .message()
        .starts_with("`q_0` declares two transitions on `e_ack`"));
    assert_eq!(
        BudgetError::Exhausted { minimal: 900, ceiling: 512 }.message(),
        "the smallest conforming child measures 900 bytes against a ceiling of 512; a manifest is never what a budget squeezes out"
    );
    assert_eq!(
        ExpansionError::CountDisagrees { counted: 2, held: 1 }.message(),
        "the omission record counts 2 items and was paired with 1; a manifest count is exact"
    );
    assert_eq!(ExpansionError::ZeroDepth.message(), "an expansion depth of zero reaches nothing");
    assert!(GuaranteeError::ReplayWithoutClosure.message().starts_with("`ReplayPreserving` is claimed without `CausallyClosed`"));
    assert_eq!(Inadmissible::NoCorrespondence.message(), "no source correspondence claims this candidate");
    assert!(ProjectionInapplicable::NoNamedObserver.message().starts_with("the intent binds no observer"));
    assert_eq!(
        ScopeVerdict::Justified { observers: vec![name("auditor"), name("client")] }.message(),
        "the reduction is justified relative to 2 named observer(s)"
    );
    assert!(ScopeVerdict::Unjustified(ScopeViolation::ObservedCandidateDropped { id: name("e_ack"), observer: name("client") })
        .message()
        .starts_with("`e_ack` is published by the named observer `client` and was dropped"));
}
