use lib::causal::CausalOrder;
use lib::guarantee::Guarantee;
use lib::minimality::{
    DimensionAttribution, DimensionSet, MinimalityClass, MinimalityError, MinimalityOutcome,
    MinimalityQuestion, MinimalityRefusal, MinimalitySearch, MinimalityTranscript,
    MinimizedDimension, MinimizerArtifact, SearchBound, WitnessOutcome, MINIMALITY_GUARANTEES,
};
use lib::name::{Name, NameFamily, NameSet};
use lib::property::{AutomatonState, Coverage, PropertyAutomaton};
use lib::selection::SelectionKind;

fn name(text: &str) -> Name {
    Name::new(text).expect("well formed")
}

fn ids(names: &[&str]) -> NameSet {
    NameSet::of(names.iter().map(|id| name(id)).collect())
}

fn family(sets: &[&[&str]]) -> NameFamily {
    let mut family = NameFamily::new();
    for set in sets {
        family.insert(ids(set));
    }
    family
}

/// The chain `e_begin -> e_submit -> e_ack -> e_loss`, plus one isolated noise event.
fn order() -> CausalOrder {
    CausalOrder::new(
        vec![
            (name("e_begin"), SelectionKind::Event),
            (name("e_submit"), SelectionKind::Event),
            (name("e_ack"), SelectionKind::Event),
            (name("e_loss"), SelectionKind::Event),
            (name("n_beat"), SelectionKind::Event),
        ],
        vec![
            (name("e_submit"), name("e_begin")),
            (name("e_ack"), name("e_submit")),
            (name("e_loss"), name("e_ack")),
        ],
    )
    .expect("a well-formed order")
}

fn state(text: &str) -> AutomatonState {
    AutomatonState::new(name(text))
}

/// Steps on all four chain events in sequence and violates only at the end.
fn automaton() -> PropertyAutomaton {
    PropertyAutomaton::new(
        state("q_0"),
        vec![
            (state("q_0"), name("e_begin"), state("q_1")),
            (state("q_1"), name("e_submit"), state("q_2")),
            (state("q_2"), name("e_ack"), state("q_3")),
            (state("q_3"), name("e_loss"), state("q_bad")),
        ],
        vec![state("q_bad")],
        vec![],
        Coverage::Total,
    )
    .expect("a well-formed automaton")
}

fn the_core() -> NameSet {
    ids(&["e_begin", "e_submit", "e_ack", "e_loss"])
}

fn dimensions() -> DimensionSet {
    DimensionSet::of(vec![
        DimensionAttribution::new(
            MinimizedDimension::Value,
            vec![
                (name("e_begin"), name("v_id")),
                (name("e_submit"), name("v_id")),
                (name("e_ack"), name("v_seq")),
                (name("e_loss"), name("v_seq")),
            ],
        ),
        DimensionAttribution::new(
            MinimizedDimension::Owner,
            vec![
                (name("e_begin"), name("o_client")),
                (name("e_submit"), name("o_client")),
                (name("e_ack"), name("o_server")),
                (name("e_loss"), name("o_server")),
            ],
        ),
        DimensionAttribution::new(
            MinimizedDimension::Fault,
            vec![
                (name("e_begin"), name("f_none")),
                (name("e_submit"), name("f_none")),
                (name("e_ack"), name("f_none")),
                (name("e_loss"), name("f_drop")),
            ],
        ),
    ])
}

#[test]
fn the_six_classes_are_the_rfcs_transcript_checkable_ones() {
    let mut licensed: Vec<Guarantee> = MinimalityClass::ALL.iter().map(|class| class.guarantee()).collect();
    licensed.sort();
    licensed.dedup();
    let mut all: Vec<Guarantee> = MINIMALITY_GUARANTEES.to_vec();
    all.sort();
    all.dedup();
    assert_eq!(licensed.len(), 6);
    assert_eq!(all.len(), 7);
    let unmapped: Vec<Guarantee> = all.iter().copied().filter(|g| !licensed.contains(g)).collect();
    assert_eq!(unmapped, [Guarantee::ExplanationMinimal]);
}

#[test]
fn every_class_token_is_distinct_and_names_its_class() {
    let mut tokens: Vec<&str> = MinimalityClass::ALL.iter().map(|class| class.as_str()).collect();
    tokens.sort();
    tokens.dedup();
    assert_eq!(tokens.len(), 6);
    for token in tokens {
        assert_ne!(token, "minimal");
        assert!(token.ends_with("-minimal"), "{token:?}");
        assert!(token.len() > "-minimal".len(), "{token:?}");
    }
}

#[test]
fn each_class_has_its_own_removal_family() {
    let order = order();
    let bound = SearchBound::of(2).expect("a positive bound");
    let families: Vec<NameFamily> = MinimalityClass::ALL
        .iter()
        .map(|class| {
            class
                .removal_family(&order, &the_core(), &dimensions(), Some(bound))
                .expect("every class's family is computable here")
        })
        .collect();
    assert_eq!(families[0].len(), 4);
    assert_eq!(families[1].len(), 10);
    assert_eq!(families[2], family(&[&["e_loss"]]));
    assert_eq!(families[3], family(&[&["e_begin", "e_submit"], &["e_ack", "e_loss"]]));
    assert_eq!(families[4], families[3]);
    assert_eq!(families[5], family(&[&["e_begin", "e_submit", "e_ack"], &["e_loss"]]));
}

#[test]
fn causal_minimality_removes_only_maximal_elements() {
    let found = MinimalityClass::CausallyMinimal
        .removal_family(&order(), &the_core(), &DimensionSet::empty(), None)
        .expect("a chain has a maximal element");
    assert_eq!(found, family(&[&["e_loss"]]));
    let wide = CausalOrder::new(
        vec![
            (name("e_begin"), SelectionKind::Event),
            (name("e_left"), SelectionKind::Event),
            (name("e_right"), SelectionKind::Event),
        ],
        vec![(name("e_left"), name("e_begin")), (name("e_right"), name("e_begin"))],
    )
    .expect("a well-formed order");
    assert_eq!(
        MinimalityClass::CausallyMinimal
            .removal_family(&wide, &ids(&["e_begin", "e_left", "e_right"]), &DimensionSet::empty(), None)
            .expect("two maximal elements"),
        family(&[&["e_left"], &["e_right"]])
    );
}

#[test]
fn cardinality_minimality_without_a_bound_is_refused() {
    assert_eq!(
        MinimalityClass::CardinalityMinimal.removal_family(&order(), &the_core(), &DimensionSet::empty(), None),
        Err(MinimalityRefusal::UnboundedSearch)
    );
    for class in MinimalityClass::ALL {
        if class == MinimalityClass::CardinalityMinimal {
            assert!(class.takes_bound());
            continue;
        }
        assert!(!class.takes_bound());
        assert!(class.removal_family(&order(), &the_core(), &dimensions(), None).is_ok());
    }
}

#[test]
fn a_bound_larger_than_the_core_stops_at_the_core() {
    let found = SearchBound::of(9).expect("positive").subsets_of(&ids(&["a_1", "a_2"]));
    assert_eq!(found, family(&[&["a_1"], &["a_2"], &["a_1", "a_2"]]));
}

#[test]
fn a_dimension_class_needs_its_attribution() {
    assert_eq!(
        MinimalityClass::ValueMinimal.removal_family(&order(), &the_core(), &DimensionSet::empty(), None),
        Err(MinimalityRefusal::DimensionNotDeclared { dimension: MinimizedDimension::Value })
    );
    let partial = DimensionSet::of(vec![DimensionAttribution::new(
        MinimizedDimension::Value,
        vec![(name("e_begin"), name("v_id"))],
    )]);
    assert_eq!(
        MinimalityClass::ValueMinimal.removal_family(&order(), &the_core(), &partial, None),
        Err(MinimalityRefusal::UndeclaredAttribution {
            dimension: MinimizedDimension::Value,
            id: name("e_ack"),
        })
    );
}

#[test]
fn an_empty_core_has_no_family() {
    for class in MinimalityClass::ALL {
        assert_eq!(
            class.removal_family(&order(), &NameSet::new(), &dimensions(), SearchBound::of(1)),
            Err(MinimalityRefusal::EmptyCore)
        );
    }
}

#[test]
fn the_honest_search_records_a_destroyed_witness_everywhere() {
    let transcript = MinimalitySearch::transcribe(
        MinimalityClass::OneMinimal,
        &order(),
        &automaton(),
        &the_core(),
        &DimensionSet::empty(),
        None,
    )
    .expect("the core witnesses the failure");
    assert_eq!(transcript.class(), MinimalityClass::OneMinimal);
    assert_eq!(transcript.selected(), &the_core());
    assert_eq!(transcript.len(), 4);
    assert_eq!(transcript.bound(), None);
    for (_, outcome) in transcript.steps() {
        assert_eq!(outcome, WitnessOutcome::Destroyed);
    }
}

#[test]
fn a_survivable_removal_is_recorded_as_one() {
    let padded = ids(&["e_begin", "e_submit", "e_ack", "e_loss", "n_beat"]);
    let transcript = MinimalitySearch::transcribe(
        MinimalityClass::OneMinimal,
        &order(),
        &automaton(),
        &padded,
        &DimensionSet::empty(),
        None,
    )
    .expect("the core witnesses the failure");
    assert_eq!(transcript.outcome(&ids(&["n_beat"])), Some(WitnessOutcome::Survived));
    assert_eq!(transcript.outcome(&ids(&["e_ack"])), Some(WitnessOutcome::Destroyed));
}

#[test]
fn a_core_that_does_not_witness_the_failure_is_refused() {
    assert_eq!(
        MinimalitySearch::transcribe(
            MinimalityClass::OneMinimal,
            &order(),
            &automaton(),
            &ids(&["e_begin", "e_submit", "e_ack"]),
            &DimensionSet::empty(),
            None,
        ),
        Err(MinimalityRefusal::NoWitness)
    );
}

#[test]
fn a_bound_travels_only_with_the_class_that_takes_one() {
    let bound = SearchBound::of(2).expect("positive");
    let cardinality = MinimalitySearch::transcribe(
        MinimalityClass::CardinalityMinimal,
        &order(),
        &automaton(),
        &the_core(),
        &DimensionSet::empty(),
        Some(bound),
    )
    .expect("bounded");
    assert_eq!(cardinality.bound(), Some(bound));
    assert_eq!(cardinality.len(), 10);
    let one = MinimalitySearch::transcribe(
        MinimalityClass::OneMinimal,
        &order(),
        &automaton(),
        &the_core(),
        &DimensionSet::empty(),
        Some(bound),
    )
    .expect("unbounded classes ignore the offer");
    assert_eq!(one.bound(), None);
}

#[test]
fn an_artifact_files_a_transcript_under_its_own_class() {
    let one = MinimalitySearch::transcribe(
        MinimalityClass::OneMinimal,
        &order(),
        &automaton(),
        &the_core(),
        &DimensionSet::empty(),
        None,
    )
    .expect("transcribed");
    let artifact = MinimizerArtifact::of(vec![(MinimalityClass::OneMinimal, one.clone())]).expect("filed correctly");
    assert_eq!(artifact.classes(), [MinimalityClass::OneMinimal]);
    assert_eq!(artifact.len(), 1);
    assert!(!artifact.is_empty());
    assert!(artifact.transcript(MinimalityClass::ValueMinimal).is_none());
    assert_eq!(
        MinimizerArtifact::of(vec![(MinimalityClass::ValueMinimal, one)]),
        Err(MinimalityError::ClassMismatch {
            filed: MinimalityClass::ValueMinimal,
            recorded: MinimalityClass::OneMinimal,
        })
    );
    assert!(MinimizerArtifact::none().is_empty());
}

#[test]
fn a_question_reports_its_own_shape() {
    assert!(MinimalityQuestion::nothing_asked().is_empty());
    let question = MinimalityQuestion::asking(vec![MinimalityClass::CardinalityMinimal, MinimalityClass::OneMinimal])
        .with_dimensions(dimensions())
        .with_bound(SearchBound::of(2).expect("positive"));
    assert_eq!(question.classes(), [MinimalityClass::OneMinimal, MinimalityClass::CardinalityMinimal]);
    assert_eq!(question.bound(), SearchBound::of(2));
    assert_eq!(question.dimensions().declared(), MinimizedDimension::ALL);
    assert!(!question.dimensions().is_empty());
    assert!(DimensionSet::empty().is_empty());
}

#[test]
fn every_outcome_and_refusal_token_is_a_distinct_token() {
    let mut notes: Vec<&str> = MinimalityOutcome::ALL.iter().map(|outcome| outcome.as_str()).collect();
    notes.sort();
    notes.dedup();
    assert_eq!(notes.len(), 4);
    for note in notes {
        assert!(!note.contains(' '), "{note:?} must be a token");
    }
    let refusals = [
        MinimalityRefusal::NoProperty,
        MinimalityRefusal::NothingAsked,
        MinimalityRefusal::EmptyCore,
        MinimalityRefusal::NoWitness,
        MinimalityRefusal::UnboundedSearch,
        MinimalityRefusal::DimensionNotDeclared { dimension: MinimizedDimension::Value },
        MinimalityRefusal::UndeclaredAttribution { dimension: MinimizedDimension::Owner, id: name("e_ack") },
    ];
    let mut tokens: Vec<&str> = refusals.iter().map(|refusal| refusal.as_str()).collect();
    tokens.sort();
    tokens.dedup();
    assert_eq!(tokens.len(), 7);
    for refusal in &refusals {
        assert!(!refusal.message().is_empty());
    }
}

#[test]
fn the_rendering_carries_the_class_the_core_and_every_step() {
    let transcript = MinimalityTranscript::new(
        MinimalityClass::CardinalityMinimal,
        vec![name("a_2"), name("a_1")],
        SearchBound::of(1),
        vec![
            (ids(&["a_1"]), WitnessOutcome::Destroyed),
            (ids(&["a_2"]), WitnessOutcome::Survived),
        ],
    );
    assert_eq!(
        transcript.to_json(),
        r#"{"bound":1,"class":"cardinality-minimal","core":["a_1","a_2"],"steps":[{"outcome":"destroyed","removed":["a_1"]},{"outcome":"survived","removed":["a_2"]}]}"#
    );
}

#[test]
fn two_searches_over_one_premise_agree() {
    let search = || {
        MinimalitySearch::transcribe(
            MinimalityClass::ValueMinimal,
            &order(),
            &automaton(),
            &the_core(),
            &dimensions(),
            None,
        )
        .expect("transcribed")
    };
    assert_eq!(search(), search());
    assert_eq!(search().to_json(), search().to_json());
    let other = MinimalitySearch::transcribe(
        MinimalityClass::OwnerMinimal,
        &order(),
        &automaton(),
        &the_core(),
        &dimensions(),
        None,
    )
    .expect("transcribed");
    assert_ne!(search().to_json(), other.to_json());
    assert_eq!(search().examined(), other.examined());
}

#[test]
fn insertion_order_does_not_move_a_transcript() {
    let one = MinimalityTranscript::new(
        MinimalityClass::OneMinimal,
        vec![name("a_1"), name("a_2")],
        None,
        vec![
            (ids(&["a_1"]), WitnessOutcome::Destroyed),
            (ids(&["a_2"]), WitnessOutcome::Destroyed),
        ],
    );
    let other = MinimalityTranscript::new(
        MinimalityClass::OneMinimal,
        vec![name("a_2"), name("a_1")],
        None,
        vec![
            (ids(&["a_2"]), WitnessOutcome::Destroyed),
            (ids(&["a_1"]), WitnessOutcome::Destroyed),
        ],
    );
    assert_eq!(one, other);
    assert_eq!(one.to_json(), other.to_json());
    assert!(!one.is_empty());
}

#[test]
fn a_later_step_for_one_removal_replaces_the_earlier() {
    let transcript = MinimalityTranscript::new(
        MinimalityClass::OneMinimal,
        vec![name("a_1")],
        None,
        vec![
            (ids(&["a_1"]), WitnessOutcome::Survived),
            (ids(&["a_1"]), WitnessOutcome::Destroyed),
        ],
    );
    assert_eq!(transcript.len(), 1);
    assert_eq!(transcript.outcome(&ids(&["a_1"])), Some(WitnessOutcome::Destroyed));
    assert_eq!(transcript.outcome(&ids(&["a_2"])), None);
}

#[test]
fn a_bound_of_one_examines_the_single_removals() {
    let bounded = SearchBound::of(1).expect("positive").subsets_of(&the_core());
    let single = MinimalityClass::OneMinimal
        .removal_family(&order(), &the_core(), &DimensionSet::empty(), None)
        .expect("a non-empty core");
    assert_eq!(bounded, single);
}

#[test]
fn an_attribution_names_its_elements_and_keeps_the_last_declaration() {
    let attribution = DimensionAttribution::new(
        MinimizedDimension::Owner,
        vec![
            (name("e_2"), name("o_a")),
            (name("e_1"), name("o_b")),
            (name("e_2"), name("o_c")),
        ],
    );
    assert_eq!(attribution.dimension(), MinimizedDimension::Owner);
    assert_eq!(attribution.element(&name("e_2")), Some(&name("o_c")));
    assert!(attribution.is_attributed(&name("e_1")));
    assert!(!attribution.is_attributed(&name("e_3")));
    assert_eq!(
        attribution.attributed(),
        vec![(name("e_1"), name("o_b")), (name("e_2"), name("o_c"))]
    );
    assert_eq!(attribution.elements_in(&ids(&["e_1", "e_2", "e_3"])), ids(&["o_b", "o_c"]));
    let later = DimensionSet::of(vec![
        DimensionAttribution::new(MinimizedDimension::Owner, vec![(name("e_1"), name("o_a"))]),
        attribution,
    ]);
    assert_eq!(later.declared(), [MinimizedDimension::Owner]);
    assert_eq!(
        later.attribution(MinimizedDimension::Owner).expect("declared").element(&name("e_1")),
        Some(&name("o_b"))
    );
}

#[test]
fn every_refusal_explains_itself() {
    assert_eq!(
        MinimalityRefusal::DimensionNotDeclared { dimension: MinimizedDimension::Fault }.message(),
        "no `fault` attribution was declared, so there is no `fault` domain to reduce along"
    );
    assert!(MinimalityRefusal::UndeclaredAttribution { dimension: MinimizedDimension::Value, id: name("e_7") }
        .message()
        .starts_with("`e_7` carries no declared `value`"));
    assert_eq!(
        MinimalityError::ClassMismatch { filed: MinimalityClass::OwnerMinimal, recorded: MinimalityClass::OneMinimal }
            .message(),
        "a transcript recording `one-minimal` is filed under `owner-minimal`; a minimality class is licensed only by its own transcript"
    );
}
