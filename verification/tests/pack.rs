use lib::compile::RedactionReason;
use lib::expansion::{ExpansionQuery, ExpansionRelation};
use lib::guarantee::{Guarantee, GuaranteeSet, License};
use lib::name::Name;
use lib::omission::{IrretrievableReason, Manifest, ManifestError, OmissionReason, OmissionRecord};
use lib::pack::{PackError, PackProfile, RedactionStub, RootPack, Verdict};
use lib::selection::{ItemHeader, SelectionKind};

fn name(text: &str) -> Name {
    Name::new(text).expect("well formed")
}

fn query() -> ExpansionQuery {
    ExpansionQuery::new(ExpansionRelation::SourceSpan, name("e_ack"))
}

fn item(id: &str) -> ItemHeader {
    ItemHeader { id: name(id), kind: SelectionKind::StateDelta }
}

/// The fixture: one selected item, one expandable omission of two, and nothing owed.
fn pack() -> RootPack {
    RootPack {
        snapshot: "ws_root1".to_owned(),
        semantic_epoch: "sem3-root".to_owned(),
        verdict: Verdict::Refuted,
        bounds_engine: None,
        schedules_engine: None,
        selected: vec![item("d_ack")],
        manifest: Manifest::new(vec![OmissionRecord::expandable(
            SelectionKind::StateDelta,
            2,
            OmissionReason::SliceIrrelevant,
            query(),
        )])
        .expect("one cell"),
        candidates: 3,
        unachieved: Vec::new(),
        evidence: vec!["ev_4f2a".to_owned()],
        replay: Some("crash_9c1d".to_owned()),
        guarantees: GuaranteeSet::empty().seal().expect("the empty set seals"),
        profile: PackProfile::Failure,
    }
}

fn violated(pack: RootPack, profile: PackProfile) {
    match pack.check() {
        Err(PackError::ProfileViolation { profile: named, .. }) => assert_eq!(named, profile),
        other => panic!("the {} profile must refuse: {other:?}", profile.as_str()),
    }
}

#[test]
fn an_unreconciled_root_is_refused() {
    let mut root = pack();
    root.candidates = 4;
    assert_eq!(root.check(), Err(PackError::Unreconciled { candidates: 4, accounted: 3 }));
    // Anti-vacuity: the honest count passes.
    assert!(pack().check().is_ok());
}

#[test]
fn an_unachieved_request_is_an_unsupported_omission() {
    let mut root = pack();
    root.unachieved = vec![Guarantee::ReplayPreserving, Guarantee::PropertyPreserving];
    let manifest = root.published_manifest().expect("merges");
    let owed = manifest
        .records()
        .iter()
        .find(|record| record.kind() == SelectionKind::Unknown)
        .expect("rule C1's record");
    assert_eq!(owed.count(), 2);
    assert_eq!(owed.reason(), OmissionReason::Unsupported);
    assert!(
        !owed.retrievability().is_expandable(),
        "no expansion retrieves a claim that was never established"
    );
    assert_eq!(root.published_candidates().expect("counts"), 5);
    assert!(root.check().is_ok());
    assert!(
        !root.guarantees.to_json().contains("ReplayPreserving"),
        "a daemon MUST NOT echo a requested guarantee it did not achieve"
    );
}

#[test]
fn a_replay_preserving_root_without_a_replay_is_refused() {
    let mut guarantees = GuaranteeSet::empty();
    guarantees.claim(License::issue(Guarantee::CausallyClosed));
    guarantees.claim(License::issue(Guarantee::ReplayPreserving));
    let mut root = pack();
    root.guarantees = guarantees.seal().expect("C2 is satisfied");
    root.replay = None;
    assert_eq!(root.check(), Err(PackError::ReplayPreservingWithoutReplay));
    root.replay = Some("crash_9c1d".to_owned());
    assert!(root.check().is_ok());
}

#[test]
fn each_profile_refuses_its_own_violation() {
    // Failure: a satisfied verdict is not a failure pack's question, and a null `replay` is
    // not a failure pack's replay.
    let mut root = pack();
    root.verdict = Verdict::Satisfied;
    violated(root, PackProfile::Failure);
    let mut root = pack();
    root.replay = None;
    violated(root, PackProfile::Failure);
    // Reachability: bounds and schedules must name a producing engine.
    let mut root = pack();
    root.profile = PackProfile::Reachability;
    violated(root, PackProfile::Reachability);
    // Invariant: assumption items are required, and this fixture selects a delta.
    let mut root = pack();
    root.profile = PackProfile::Invariant;
    violated(root, PackProfile::Invariant);
    // Proof-target: `ProofRelevant` or a typed `inconclusive`.
    let mut root = pack();
    root.profile = PackProfile::ProofTarget;
    violated(root, PackProfile::ProofTarget);
    let mut root = pack();
    root.profile = PackProfile::ProofTarget;
    root.verdict = Verdict::Inconclusive;
    assert!(
        root.check().is_ok(),
        "a proof-target pack that states why it cannot claim `ProofRelevant` is admitted"
    );
    // And the honest failure pack still passes.
    assert!(pack().check().is_ok());
}

#[test]
fn a_root_refuses_an_unclassed_handle_an_empty_epoch_and_a_repeated_selection() {
    let mut root = pack();
    root.snapshot = "not_a_snapshot".to_owned();
    assert_eq!(root.check(), Err(PackError::UnclassedHandle { key: "snapshot" }));
    let mut root = pack();
    root.semantic_epoch = "  ".to_owned();
    assert_eq!(root.check(), Err(PackError::EmptyEpoch));
    let mut root = pack();
    root.evidence = vec!["crash_77aa".to_owned()];
    assert_eq!(root.check(), Err(PackError::UnclassedHandle { key: "evidence" }));
    let mut root = pack();
    root.selected = vec![item("d_ack"), item("d_ack")];
    root.candidates = 4;
    assert_eq!(root.check(), Err(PackError::RepeatedSelection { id: name("d_ack") }));
    // A redaction stub with no commitment asserts that nothing stands behind it.
    assert_eq!(
        RedactionStub::new(name("d_x"), RedactionReason::Lost, "   ", "ev"),
        Err(PackError::EmptyCommitment)
    );
}

#[test]
fn the_profiles_are_named_in_order() {
    let names: Vec<&str> = PackProfile::ALL.iter().map(|profile| profile.as_str()).collect();
    assert_eq!(names, ["failure", "reachability", "invariant", "proof-target"]);
}

#[test]
fn the_refusals_come_in_their_declared_order() {
    // An unclassed snapshot is reported before an empty epoch, and an empty epoch before a
    // counting equation that fails.
    let mut root = pack();
    root.snapshot = "ctx_1".to_owned();
    root.semantic_epoch = String::new();
    root.candidates = 9;
    assert_eq!(root.check(), Err(PackError::UnclassedHandle { key: "snapshot" }));
    root.snapshot = "ws_1".to_owned();
    assert_eq!(root.check(), Err(PackError::EmptyEpoch));
    root.semantic_epoch = "sem3".to_owned();
    assert_eq!(root.check(), Err(PackError::Unreconciled { candidates: 9, accounted: 3 }));
}

#[test]
fn an_epoch_of_unicode_white_space_is_empty() {
    let mut root = pack();
    root.semantic_epoch = "\u{3000}\t\u{2028}".to_owned();
    assert_eq!(root.check(), Err(PackError::EmptyEpoch));
    root.semantic_epoch = " x ".to_owned();
    assert!(root.check().is_ok());
}

#[test]
fn a_reachability_pack_naming_both_engines_is_admitted() {
    let mut root = pack();
    root.profile = PackProfile::Reachability;
    root.bounds_engine = Some("tlc".to_owned());
    root.schedules_engine = Some(String::new());
    violated(root, PackProfile::Reachability);
    let mut root = pack();
    root.profile = PackProfile::Reachability;
    root.bounds_engine = Some("tlc".to_owned());
    root.schedules_engine = Some("tlc".to_owned());
    assert!(root.check().is_ok());
}

#[test]
fn an_invariant_pack_carrying_an_assumption_is_admitted() {
    let mut root = pack();
    root.profile = PackProfile::Invariant;
    root.selected = vec![ItemHeader { id: name("a_1"), kind: SelectionKind::Assumption }];
    assert!(root.check().is_ok());
}

#[test]
fn the_owed_record_merges_into_an_existing_unsupported_cell() {
    let mut root = pack();
    root.manifest = Manifest::new(vec![OmissionRecord::irretrievable(
        SelectionKind::Unknown,
        3,
        IrretrievableReason::Unsupported,
    )])
    .expect("one cell");
    root.unachieved = vec![Guarantee::CausallyClosed];
    let manifest = root.published_manifest().expect("merges");
    assert_eq!(manifest.records().len(), 1);
    assert_eq!(manifest.records()[0].count(), 4);
    assert_eq!(manifest.total(), 4);
    // With nothing owed, the published manifest is the compile's own.
    let root = pack();
    let manifest = root.published_manifest().expect("merges");
    assert_eq!(manifest, root.manifest);
    assert_eq!(root.published_candidates(), Ok(3));
}

#[test]
fn an_owed_record_beyond_an_exact_count_is_refused() {
    let mut root = pack();
    root.manifest = Manifest::new(vec![OmissionRecord::irretrievable(
        SelectionKind::Unknown,
        u32::MAX,
        IrretrievableReason::Unsupported,
    )])
    .expect("one cell");
    root.unachieved = vec![Guarantee::CausallyClosed];
    assert_eq!(
        root.published_manifest(),
        Err(PackError::Manifest(ManifestError::CountOverflow {
            kind: SelectionKind::Unknown,
            reason: OmissionReason::Unsupported,
        }))
    );
}

#[test]
fn a_redaction_stub_is_written_as_canonical_json() {
    let stub = RedactionStub::new(name("d_zeta"), RedactionReason::Purged, "blake3-256:zzzz", "ev")
        .expect("a commitment");
    assert_eq!(stub.redacted(), &name("d_zeta"));
    assert_eq!(stub.reason(), RedactionReason::Purged);
    assert_eq!(
        stub.to_json(),
        r#"{"commitment":"blake3-256:zzzz","original_class":"ev","reason":"purged","redacted":true}"#
    );
}

#[test]
fn each_refusal_says_what_it_refused() {
    assert_eq!(
        PackError::Unreconciled { candidates: 4, accounted: 3 }.message(),
        "the counting equation fails: 4 candidates against 3 accounted for by the selection and the manifest; \
         a pack that cannot name what it dropped is malformed, not compact"
    );
    assert_eq!(
        PackError::ProfileViolation {
            profile: PackProfile::Invariant,
            clause: "an invariant pack MUST carry `assumption` items",
        }
        .message(),
        "the invariant profile requires that an invariant pack MUST carry `assumption` items"
    );
    assert_eq!(
        PackError::NegativeBudget { bytes: -12 }.message(),
        "`content_budget.bytes` is -12; a byte budget is not negative"
    );
    assert_eq!(
        PackError::RepeatedSelection { id: name("d_ack") }.message(),
        "`d_ack` is selected twice; a selection is a set"
    );
    assert_eq!(
        PackError::UnclassedHandle { key: "evidence" }.message(),
        "`evidence` names a handle of the wrong artifact class"
    );
}
