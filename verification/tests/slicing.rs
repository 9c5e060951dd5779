use lib::correspondence::CorrespondenceMapping;
use lib::name::Name;
use lib::proof_slicing::ProofSlicing;
use lib::selection::SelectionKind;

fn name(text: &str) -> Name {
    Name::new(text).expect("well formed")
}

#[test]
fn the_obligations_are_carried_in_canonical_order() {
    let slicing = ProofSlicing::over(vec![name("o_durability"), name("o_ack"), name("o_loss")]);
    assert_eq!(
        slicing.obligations().members().to_vec(),
        [name("o_ack"), name("o_loss"), name("o_durability")]
    );
    assert_eq!(slicing.len(), 3);
    assert!(!slicing.is_empty());
}

#[test]
fn a_repeated_obligation_is_one_obligation() {
    let slicing = ProofSlicing::over(vec![name("o_ack"), name("o_ack")]);
    assert_eq!(slicing.len(), 1);
}

#[test]
fn stage_five_decides_the_proof_kind_and_nothing_else() {
    let decided: Vec<SelectionKind> = SelectionKind::ALL
        .into_iter()
        .filter(|kind| ProofSlicing::decides(*kind))
        .collect();
    assert_eq!(decided, [SelectionKind::Proof]);
}

#[test]
fn naming_no_obligation_is_the_empty_slicing() {
    assert_eq!(ProofSlicing::over(Vec::new()), ProofSlicing::nothing_named());
    assert!(ProofSlicing::nothing_named().is_empty());
    assert_eq!(ProofSlicing::nothing_named().len(), 0);
}

#[test]
fn every_subject_is_unmapped_because_nothing_maps() {
    let mapping = CorrespondenceMapping::of(vec![name("e_ack"), name("m_commit")]);
    assert_eq!(mapping.unmapped(), *mapping.subjects());
    assert_eq!(mapping.len(), 2);
    assert!(!mapping.is_empty());
    // The empty case is the empty set rather than "nothing to say".
    assert!(CorrespondenceMapping::nothing_named().unmapped().is_empty());
}

#[test]
fn the_subjects_are_carried_in_canonical_order() {
    let mapping = CorrespondenceMapping::of(vec![name("m_commit"), name("e_ack")]);
    assert_eq!(mapping.subjects().members().to_vec(), [name("e_ack"), name("m_commit")]);
}

#[test]
fn one_mapping_is_equal_to_itself_rebuilt() {
    assert_eq!(
        CorrespondenceMapping::of(vec![name("e_ack")]),
        CorrespondenceMapping::of(vec![name("e_ack"), name("e_ack")])
    );
}
