use lib::dependence::{
    Admissibility, CorrespondenceClaim, CorrespondenceRef, DependenceError, DependenceJoin,
    ExecutionDependence, Inadmissible, SourceCorrespondence,
};
use lib::name::{Name, NameSet};
use lib::omission::OmissionReason;
use lib::selection::SelectionKind;

fn name(text: &str) -> Name {
    Name::new(text).expect("well formed")
}

fn ids(names: &[&str]) -> NameSet {
    NameSet::of(names.iter().map(|id| name(id)).collect())
}

fn span(file: &str, line: u32) -> Name {
    name(&format!("{file}:{line}:1-{line}:9"))
}

fn source_claim(file: &str, line: u32, anchors: &[&str]) -> CorrespondenceClaim {
    CorrespondenceClaim::new(
        CorrespondenceRef::Source(span(file, line)),
        anchors.iter().map(|id| name(id)).collect(),
    )
}

fn model_claim(action: &str, anchors: &[&str]) -> CorrespondenceClaim {
    CorrespondenceClaim::new(
        CorrespondenceRef::Model(name(action)),
        anchors.iter().map(|id| name(id)).collect(),
    )
}

/// `s_writer` is corroborated on `e_ack`; `m_commit` is claimed on `e_submit` and attested
/// nowhere; `s_ghost` is corroborated on `e_probe`, which the core drops.
fn join() -> DependenceJoin {
    DependenceJoin::new(
        SourceCorrespondence::of(vec![
            (name("s_writer"), source_claim("crates/a/src/lib.rs", 12, &["e_ack"])),
            (name("m_commit"), model_claim("Commit", &["e_submit"])),
            (name("s_ghost"), source_claim("crates/a/src/old.rs", 3, &["e_probe"])),
        ])
        .expect("a well-formed correspondence"),
        ExecutionDependence::attesting(vec![
            (name("s_writer"), ids(&["e_ack"])),
            (name("s_ghost"), ids(&["e_probe"])),
        ])
        .expect("a well-formed execution record"),
    )
}

fn published() -> NameSet {
    ids(&["e_begin", "e_submit", "e_ack", "e_loss"])
}

#[test]
fn a_corroborated_claim_whose_anchor_is_published_is_admissible() {
    let admissibility = join().admissibility(&name("s_writer"), &published());
    assert!(admissibility.is_admissible());
    let admitted = admissibility.admissible().expect("admitted");
    assert_eq!(admitted.anchors(), &ids(&["e_ack"]));
    assert_eq!(admitted.kind(), SelectionKind::Source);
    assert_eq!(admissibility.inadmissible(), None);
}

#[test]
fn an_untrusted_claim_alone_is_not_admissible() {
    let admissibility = join().admissibility(&name("m_commit"), &published());
    assert_eq!(admissibility, Admissibility::Inadmissible(Inadmissible::UncorroboratedSource));
    assert!(!admissibility.is_admissible());
    assert!(admissibility.admissible().is_none());
    assert!(published().contains(&name("e_submit")));
}

#[test]
fn the_same_claim_attested_by_the_execution_is_admissible() {
    let upgraded = DependenceJoin::new(
        SourceCorrespondence::of(vec![(name("m_commit"), model_claim("Commit", &["e_submit"]))])
            .expect("a well-formed correspondence"),
        ExecutionDependence::attesting(vec![(name("m_commit"), ids(&["e_submit"]))])
            .expect("a well-formed execution record"),
    );
    let admissibility = upgraded.admissibility(&name("m_commit"), &published());
    assert!(admissibility.is_admissible());
    assert_eq!(admissibility.admissible().expect("admitted").kind(), SelectionKind::Model);
}

#[test]
fn a_corroborated_claim_whose_anchor_is_unpublished_is_not_admissible() {
    assert_eq!(
        join().admissibility(&name("s_ghost"), &published()),
        Admissibility::Inadmissible(Inadmissible::AnchorNotSelected)
    );
}

#[test]
fn an_unclaimed_candidate_has_no_correspondence() {
    assert_eq!(
        join().admissibility(&name("s_other"), &published()),
        Admissibility::Inadmissible(Inadmissible::NoCorrespondence)
    );
}

#[test]
fn an_anchor_naming_nothing_is_not_corroborated() {
    let fabricated = DependenceJoin::new(
        SourceCorrespondence::of(vec![(name("s_writer"), source_claim("crates/a/src/lib.rs", 1, &["e_nowhere"]))])
            .expect("a well-formed correspondence"),
        ExecutionDependence::none(),
    );
    assert_eq!(
        fabricated.admissibility(&name("s_writer"), &published()),
        Admissibility::Inadmissible(Inadmissible::UncorroboratedSource)
    );
}

#[test]
fn an_execution_attestation_the_correspondence_never_claimed_admits_nothing() {
    let dynamic_only = DependenceJoin::new(
        SourceCorrespondence::none(),
        ExecutionDependence::attesting(vec![(name("s_writer"), ids(&["e_ack"]))]).expect("well formed"),
    );
    assert_eq!(
        dynamic_only.admissibility(&name("s_writer"), &published()),
        Admissibility::Inadmissible(Inadmissible::NoCorrespondence)
    );
}

#[test]
fn a_partly_corroborated_claim_is_admitted_on_its_corroborated_anchor_alone() {
    let mixed = DependenceJoin::new(
        SourceCorrespondence::of(vec![(name("s_writer"), source_claim("crates/a/src/lib.rs", 12, &["e_ack", "e_nowhere"]))])
            .expect("well formed"),
        ExecutionDependence::attesting(vec![(name("s_writer"), ids(&["e_ack"]))]).expect("well formed"),
    );
    let admissibility = mixed.admissibility(&name("s_writer"), &published());
    assert_eq!(admissibility.admissible().expect("admitted").anchors(), &ids(&["e_ack"]));
}

#[test]
fn a_repeated_claim_is_refused() {
    assert_eq!(
        SourceCorrespondence::of(vec![
            (name("s_writer"), source_claim("a.rs", 1, &["e_ack"])),
            (name("s_writer"), source_claim("b.rs", 2, &["e_ack"])),
        ]),
        Err(DependenceError::RepeatedClaim { id: name("s_writer") })
    );
}

#[test]
fn an_anchorless_claim_is_refused() {
    assert_eq!(
        SourceCorrespondence::of(vec![(name("s_writer"), source_claim("a.rs", 1, &[]))]),
        Err(DependenceError::AnchorlessClaim { id: name("s_writer") })
    );
}

#[test]
fn a_repeated_attestation_is_refused() {
    assert_eq!(
        ExecutionDependence::attesting(vec![
            (name("s_writer"), ids(&["e_ack"])),
            (name("s_writer"), ids(&["e_loss"])),
        ]),
        Err(DependenceError::RepeatedAttestation { id: name("s_writer") })
    );
}

#[test]
fn every_decline_is_heuristic_cutoff() {
    for reason in Inadmissible::ALL {
        assert_eq!(reason.omission_reason(), OmissionReason::HeuristicCutoff);
    }
    let mut tokens: Vec<&str> = Inadmissible::ALL.iter().map(|reason| reason.as_str()).collect();
    tokens.sort();
    tokens.dedup();
    assert_eq!(tokens.len(), Inadmissible::ALL.len());
}

#[test]
fn the_join_reports_what_it_claims() {
    let join = join();
    let claimed: Vec<&Name> = join.claimed().iter().collect();
    assert_eq!(claimed, [&name("s_ghost"), &name("m_commit"), &name("s_writer")]);
    assert_eq!(join.correspondence().len(), 3);
    assert!(!join.correspondence().is_empty());
    assert!(SourceCorrespondence::none().is_empty());
    assert!(join.execution().attests(&name("s_writer"), &name("e_ack")));
    assert!(!join.execution().attests(&name("m_commit"), &name("e_submit")));
    assert_eq!(join.execution().anchors(&name("s_writer")), Some(&ids(&["e_ack"])));
    assert_eq!(join.reference(&name("m_commit")).map(|reference| reference.kind()), Some(SelectionKind::Model));
    assert_eq!(join.reference(&name("s_other")), None);
}

#[test]
fn two_joins_of_one_input_agree() {
    assert_eq!(join(), join());
    assert_eq!(
        join().admissibility(&name("s_writer"), &published()),
        join().admissibility(&name("s_writer"), &published())
    );
}

#[test]
fn an_admitted_item_carries_the_claims_reference() {
    let admitted = join().admissibility(&name("s_writer"), &published()).admissible().expect("admitted").clone();
    assert_eq!(admitted.reference().referent(), &span("crates/a/src/lib.rs", 12));
    let claim = join().correspondence().claim(&name("m_commit")).expect("claimed").clone();
    assert_eq!(claim.reference(), &CorrespondenceRef::Model(name("Commit")));
    assert_eq!(claim.anchors(), &ids(&["e_submit"]));
    assert_eq!(
        DependenceError::RepeatedAttestation { id: name("s_writer") }.message(),
        "the execution record attests `s_writer` twice"
    );
}
