//! Stage 6: observer projection: which candidates the named observers publish, and the
//! filter that scopes a slice to them.

use vstd::prelude::*;

use crate::causal::{closure_of, downward_closed, is_backward_closure, law_backward_closure_is_unique, CausalError, CausalOrder};
use crate::causal::{first_repeat, repeats_at, Graph};
use crate::json::write_raw;
use crate::name::{
    lemma_ascending_no_duplicates, lemma_insert_ascending, lemma_push_to_set, locate, precedes, spelled,
    lemma_text_order, strictly_ascending, text_precedes, Name, NameSet,
};

verus! {

/// Whether stage 6 can reduce over an order at all.
#[derive(Debug, Clone, Copy, PartialEq, Eq, PartialOrd, Ord, Structural)]
pub enum ProjectionApplicability {
    /// A named observer publishes something here, so scoping is a real reduction.
    Applicable,
    /// It is not, and this is why.
    Inapplicable(ProjectionInapplicable),
}

impl ProjectionApplicability {
    /// Whether stage 6 may narrow.
    pub fn is_applicable(self) -> (applicable: bool)
        ensures
            applicable == (self == ProjectionApplicability::Applicable),
    {
        matches!(self, ProjectionApplicability::Applicable)
    }

    /// The stable token for this applicability.
    pub open spec fn token(self) -> Seq<char> {
        match self {
            ProjectionApplicability::Applicable => "observer-projected"@,
            ProjectionApplicability::Inapplicable(_) => "observer-inapplicable"@,
        }
    }

    /// A stable token for the auditable intermediate's rendering.
    pub fn as_str(self) -> (text: &'static str)
        ensures
            text@ == self.token(),
    {
        match self {
            ProjectionApplicability::Applicable => "observer-projected",
            ProjectionApplicability::Inapplicable(_) => "observer-inapplicable",
        }
    }
}

/// Why observer projection does not apply to an order.
#[derive(Debug, Clone, Copy, PartialEq, Eq, Hash, PartialOrd, Ord, Structural)]
pub enum ProjectionInapplicable {
    /// The intent binds no observer.
    NoNamedObserver,
    /// The intent binds observers, and none of them publishes any candidate of this order.
    NoObservedCandidate,
}

impl ProjectionInapplicable {
    /// Every member, in declaration order.
    pub const ALL: [ProjectionInapplicable; 2] = [
        ProjectionInapplicable::NoNamedObserver,
        ProjectionInapplicable::NoObservedCandidate,
    ];

    /// The member's position in declaration order.
    pub open spec fn rank(self) -> int {
        match self {
            ProjectionInapplicable::NoNamedObserver => 0,
            ProjectionInapplicable::NoObservedCandidate => 1,
        }
    }

    /// `ALL` lists every member at its rank.
    pub proof fn lemma_all_lists(member: ProjectionInapplicable)
        ensures
            0 <= member.rank() < 2,
            ProjectionInapplicable::ALL@[member.rank()] == member,
    {
    }

    /// The member's stable token.
    pub open spec fn token(self) -> Seq<char> {
        match self {
            ProjectionInapplicable::NoNamedObserver => "no-named-observer"@,
            ProjectionInapplicable::NoObservedCandidate => "no-observed-candidate"@,
        }
    }

    /// The member's stable token.
    pub fn as_str(self) -> (text: &'static str)
        ensures
            text@ == self.token(),
    {
        match self {
            ProjectionInapplicable::NoNamedObserver => "no-named-observer",
            ProjectionInapplicable::NoObservedCandidate => "no-observed-candidate",
        }
    }

    /// The token's length and the characters that tell members' tokens apart.
    pub open spec fn signature(self) -> int {
        match self {
            ProjectionInapplicable::NoNamedObserver => 17,
            ProjectionInapplicable::NoObservedCandidate => 21,
        }
    }

    proof fn lemma_signature(member: ProjectionInapplicable)
        ensures
            member.token().len() == member.signature(),
    {
        match member {
            ProjectionInapplicable::NoNamedObserver => reveal_strlit("no-named-observer"),
            ProjectionInapplicable::NoObservedCandidate => reveal_strlit("no-observed-candidate"),
        }
    }

    /// Distinct members have distinct tokens.
    pub proof fn lemma_token_injective(a: ProjectionInapplicable, b: ProjectionInapplicable)
        ensures
            a.token() == b.token() ==> a == b,
    {
        ProjectionInapplicable::lemma_signature(a);
        ProjectionInapplicable::lemma_signature(b);
    }

}

/// Whether a listing of identifiers ascends strictly in the order of text.
pub open spec fn text_ascending(s: Seq<Seq<char>>) -> bool {
    forall|i: int, j: int| 0 <= i < j < s.len() ==> text_precedes(#[trigger] s[i], #[trigger] s[j])
}

/// Inserting an identifier between its neighbours keeps a listing ascending in the order of
/// text and adds exactly that identifier to its set.
proof fn lemma_insert_text_ascending(s: Seq<Seq<char>>, i: int, x: Seq<char>)
    requires
        text_ascending(s),
        0 <= i <= s.len(),
        forall|q: int| 0 <= q < i ==> text_precedes(#[trigger] s[q], x),
        i < s.len() ==> text_precedes(x, s[i]),
    ensures
        text_ascending(s.insert(i, x)),
        s.insert(i, x).to_set() == s.to_set().insert(x),
{
    let t = s.insert(i, x);
    assert forall|a: int, b: int| 0 <= a < b < t.len() implies text_precedes(#[trigger] t[a], #[trigger] t[b]) by {
        if b < i {
            assert(text_precedes(s[a], s[b]));
        } else if b == i {
            assert(text_precedes(s[a], x));
        } else if a < i {
            lemma_text_order(s[a], x, s[b - 1]);
            if b - 1 > i {
                lemma_text_order(x, s[i], s[b - 1]);
                assert(text_precedes(s[i], s[b - 1]));
            }
        } else if a == i {
            if b - 1 > i {
                lemma_text_order(x, s[i], s[b - 1]);
                assert(text_precedes(s[i], s[b - 1]));
            }
        } else {
            assert(text_precedes(s[a - 1], s[b - 1]));
        }
    }
    lemma_push_insert_set(s, i, x);
}

/// Inserting `x` at `i` adds exactly `x` to a listing's set.
proof fn lemma_push_insert_set(s: Seq<Seq<char>>, i: int, x: Seq<char>)
    requires
        0 <= i <= s.len(),
    ensures
        s.insert(i, x).to_set() == s.to_set().insert(x),
{
    let t = s.insert(i, x);
    assert forall|y: Seq<char>| t.to_set().contains(y) <==> s.to_set().insert(x).contains(y) by {
        if t.contains(y) {
            let k = choose|k: int| 0 <= k < t.len() && t[k] == y;
            if k < i {
                assert(s[k] == y);
            } else if k > i {
                assert(s[k - 1] == y);
            }
        }
        if s.contains(y) {
            let k = choose|k: int| 0 <= k < s.len() && s[k] == y;
            if k < i {
                assert(t[k] == y);
            } else {
                assert(t[k + 1] == y);
            }
        }
        if y == x {
            assert(t[i] == y);
        }
    }
    assert(t.to_set() =~= s.to_set().insert(x));
}

/// Add `id` to a list of names ascending in the order of text, keeping it so; nothing
/// changes when it is already there.
fn insert_by_text(ids: &mut Vec<Name>, id: Name)
    requires
        text_ascending(spelled(old(ids)@)),
    ensures
        text_ascending(spelled(final(ids)@)),
        spelled(final(ids)@).to_set() == spelled(old(ids)@).to_set().insert(id@),
{
    let ghost s = spelled(ids@);
    let n = ids.len();
    let mut i: usize = 0;
    while i < n
        invariant
            n == ids@.len(),
            s == spelled(ids@),
            text_ascending(s),
            i <= n,
            forall|q: int| 0 <= q < i ==> text_precedes(#[trigger] s[q], id@),
        ensures
            i <= n,
            forall|q: int| 0 <= q < i ==> text_precedes(#[trigger] s[q], id@),
            i < n ==> !text_precedes(s[i as int], id@),
        decreases n - i,
    {
        proof { assert(s[i as int] == ids@[i as int]@); }
        if !ids[i].text_precedes(&id) {
            break;
        }
        i = i + 1;
    }
    if i < n && ids[i].same(&id) {
        proof {
            assert(s[i as int] == id@);
            assert(s.to_set().contains(id@));
            assert(s.to_set().insert(id@) =~= s.to_set());
        }
        return;
    }
    proof {
        if i < n {
            assert(s[i as int] == ids@[i as int]@);
            lemma_text_order(s[i as int], id@, s[i as int]);
        }
        lemma_insert_text_ascending(s, i as int, id@);
    }
    let ghost before = ids@;
    ids.insert(i, id);
    proof {
        assert(spelled(ids@) =~= s.insert(i as int, id@));
    }
}

/// One observable: a projection field of an observer declaration and an element of it.
#[derive(Debug, PartialEq, Eq)]
pub struct Observation {
    kind: String,
    element: String,
}

impl View for Observation {
    type V = (Seq<char>, Seq<char>);

    closed spec fn view(&self) -> (Seq<char>, Seq<char>) {
        (self.kind@, self.element@)
    }
}

impl Clone for Observation {
    fn clone(&self) -> (copy: Observation)
        ensures
            copy@ == self@,
    {
        Observation { kind: self.kind.clone(), element: self.element.clone() }
    }
}

impl Observation {
    /// The observable `element` of the projection field `kind`.
    pub fn new(kind: &str, element: &str) -> (observation: Observation)
        ensures
            observation@ == (kind@, element@),
    {
        Observation { kind: kind.to_owned(), element: element.to_owned() }
    }

    /// The projection field.
    pub fn kind(&self) -> (kind: &str)
        ensures
            kind@ == self@.0,
    {
        self.kind.as_str()
    }

    /// The element of that field.
    pub fn element(&self) -> (element: &str)
        ensures
            element@ == self@.1,
    {
        self.element.as_str()
    }

    /// Whether two observations name one observable.
    pub fn same(&self, other: &Observation) -> (same: bool)
        ensures
            same == (self@ == other@),
    {
        self.kind == other.kind && self.element == other.element
    }

    /// The observation as `kind:element`.
    pub fn text(&self) -> (text: String)
        ensures
            text@ == self@.0 + seq![':'] + self@.1,
    {
        let mut out = String::new();
        write_raw(&mut out, self.kind.as_str());
        write_raw(&mut out, ":");
        write_raw(&mut out, self.element.as_str());
        proof {
            reveal_strlit(":");
            assert(out@ =~= self@.0 + seq![':'] + self@.1);
        }
        out
    }
}

/// The observables a list of observations names.
pub open spec fn observables(observations: Seq<Observation>) -> Set<(Seq<char>, Seq<char>)> {
    observations.map_values(|o: Observation| o@).to_set()
}

/// A named observer and the observables it publishes.
#[derive(Debug, PartialEq, Eq)]
pub struct Observer {
    id: Name,
    published: Vec<Observation>,
}

impl Observer {
    /// The observer's identifier.
    pub closed spec fn named(&self) -> Seq<char> {
        self.id@
    }

    /// The observables this observer publishes.
    pub closed spec fn publishing(&self) -> Set<(Seq<char>, Seq<char>)> {
        observables(self.published@)
    }

    /// An observer named `id` publishing `published`.
    pub fn new(id: Name, published: Vec<Observation>) -> (observer: Observer)
        ensures
            observer.named() == id@,
            observer.publishing() == observables(published@),
    {
        Observer { id, published }
    }

    /// The observer's identifier.
    pub fn id(&self) -> (id: &Name)
        ensures
            id@ == self.named(),
    {
        &self.id
    }

    /// Whether this observer publishes `observation`.
    pub fn publishes(&self, observation: &Observation) -> (published: bool)
        ensures
            published == self.publishing().contains(observation@),
    {
        let mut i: usize = 0;
        while i < self.published.len()
            invariant
                i <= self.published@.len(),
                forall|j: int| 0 <= j < i ==> (#[trigger] self.published@[j])@ != observation@,
            decreases self.published@.len() - i,
        {
            if self.published[i].same(observation) {
                proof {
                    assert(self.published@.map_values(|o: Observation| o@)[i as int] == observation@);
                }
                return true;
            }
            i = i + 1;
        }
        proof {
            if self.publishing().contains(observation@) {
                let mapped = self.published@.map_values(|o: Observation| o@);
                let k = choose|k: int| 0 <= k < mapped.len() && mapped[k] == observation@;
                assert(self.published@[k]@ == observation@);
            }
        }
        false
    }
}

/// The observers a list of observers holds: each one's identifier and what it publishes.
pub open spec fn roster(observers: Seq<Observer>) -> Seq<(Seq<char>, Set<(Seq<char>, Seq<char>)>)> {
    observers.map_values(|o: Observer| (o.named(), o.publishing()))
}

/// The identifiers of the observers in `roster` that publish `observation`.
pub open spec fn publishers(
    roster: Seq<(Seq<char>, Set<(Seq<char>, Seq<char>)>)>,
    observation: (Seq<char>, Seq<char>),
) -> Set<Seq<char>> {
    Set::new(|o: Seq<char>| exists|i: int| 0 <= i < roster.len() && (#[trigger] roster[i]).0 == o && roster[i].1.contains(observation))
}

/// The observation a list of `(candidate, observation)` pairs declares for each candidate.
pub open spec fn declared_observations(entries: Seq<(Seq<char>, (Seq<char>, Seq<char>))>) -> Map<Seq<char>, (Seq<char>, Seq<char>)>
    decreases entries.len(),
{
    if entries.len() == 0 {
        Map::empty()
    } else {
        declared_observations(entries.drop_last()).insert(entries.last().0, entries.last().1)
    }
}

/// The identifier and observable each `(candidate, observation)` pair names.
pub open spec fn attribution_entries(entries: Seq<(Name, Observation)>) -> Seq<(Seq<char>, (Seq<char>, Seq<char>))> {
    entries.map_values(|e: (Name, Observation)| (e.0@, e.1@))
}

/// The candidates a list of `(candidate, observation)` pairs names, in order.
pub open spec fn attributed_ids(entries: Seq<(Name, Observation)>) -> Seq<Seq<char>> {
    entries.map_values(|e: (Name, Observation)| e.0@)
}

/// The observations parallel listings of candidates and observations spell.
pub open spec fn observations_by_name(
    names: Seq<Seq<char>>,
    observations: Seq<(Seq<char>, Seq<char>)>,
) -> Map<Seq<char>, (Seq<char>, Seq<char>)> {
    Map::new(|id: Seq<char>| names.contains(id), |id: Seq<char>| observations[names.index_of(id)])
}

/// In a listing without repeats, each candidate maps to the observation beside it.
proof fn lemma_observation_at(names: Seq<Seq<char>>, observations: Seq<(Seq<char>, Seq<char>)>, i: int)
    requires
        names.no_duplicates(),
        0 <= i < names.len(),
    ensures
        observations_by_name(names, observations).dom().contains(names[i]),
        observations_by_name(names, observations)[names[i]] == observations[i],
{
    assert(names.contains(names[i]));
    let j = names.index_of(names[i]);
    assert(0 <= j < names.len() && names[j] == names[i]);
}

/// The observations a list of observations names, in order.
pub open spec fn observation_views(observations: Seq<Observation>) -> Seq<(Seq<char>, Seq<char>)> {
    observations.map_values(|o: Observation| o@)
}

/// How the named observers scope candidates: each candidate's declared observation, and the
/// observers that publish it.
#[derive(Debug, PartialEq, Eq)]
pub struct ObserverProjection {
    observers: Vec<Observer>,
    names: Vec<Name>,
    observations: Vec<Observation>,
}

/// A way an observer projection fails to be one.
#[derive(Debug, Clone, PartialEq, Eq)]
pub enum ProjectionError {
    /// One candidate is attributed to two observations.
    RepeatedCandidate {
        /// The candidate attributed twice.
        id: Name,
    },
}

impl ProjectionError {
    /// The refusal's explanation.
    pub open spec fn explanation(&self) -> Seq<char> {
        match self {
            ProjectionError::RepeatedCandidate { id } => "`"@ + id@
                + "` is attributed to two observations; a candidate with two declared observabilities has no single reading"@,
        }
    }

    /// The refusal's explanation.
    pub fn message(&self) -> (text: String)
        ensures
            text@ == self.explanation(),
    {
        let mut out = String::new();
        match self {
            ProjectionError::RepeatedCandidate { id } => {
                write_raw(&mut out, "`");
                write_raw(&mut out, id.as_str());
                write_raw(&mut out,
                    "` is attributed to two observations; a candidate with two declared observabilities has no single reading");
            },
        }
        proof {
            assert(out@ =~= self.explanation());
        }
        out
    }
}

impl ObserverProjection {
    #[verifier::type_invariant]
    spec fn canonical(self) -> bool {
        &&& self.names@.len() == self.observations@.len()
        &&& strictly_ascending(spelled(self.names@))
    }

    /// The named observers, as declared.
    pub closed spec fn roster_view(&self) -> Seq<(Seq<char>, Set<(Seq<char>, Seq<char>)>)> {
        roster(self.observers@)
    }

    /// Each attributed candidate's declared observation.
    pub closed spec fn attribution(&self) -> Map<Seq<char>, (Seq<char>, Seq<char>)> {
        observations_by_name(spelled(self.names@), observation_views(self.observations@))
    }

    /// The observers that publish what `id` was declared to be.
    pub open spec fn observers_of_spec(&self, id: Seq<char>) -> Set<Seq<char>> {
        if self.attribution().dom().contains(id) {
            publishers(self.roster_view(), self.attribution()[id])
        } else {
            Set::empty()
        }
    }

    /// Whether some named observer publishes `id`.
    pub open spec fn publishes_spec(&self, id: Seq<char>) -> bool {
        self.observers_of_spec(id) != Set::<Seq<char>>::empty()
    }

    /// The members of `graph` some named observer publishes.
    pub open spec fn scope_of(&self, graph: Graph) -> Set<Seq<char>> {
        graph.dom().filter(|x: Seq<char>| self.publishes_spec(x))
    }

    /// The observers that publish some member of `graph`.
    pub open spec fn engaged_set(&self, graph: Graph) -> Set<Seq<char>> {
        Set::new(|o: Seq<char>| exists|x: Seq<char>| #[trigger] graph.dom().contains(x) && self.observers_of_spec(x).contains(o))
    }

    /// The candidates some named observer publishes.
    pub open spec fn published_set(&self) -> Set<Seq<char>> {
        Set::new(|x: Seq<char>| self.publishes_spec(x))
    }

    /// Whether the projection applies to `graph`, and if not, why.
    pub open spec fn applicability_of(&self, graph: Graph) -> ProjectionApplicability {
        if self.roster_view().len() == 0 {
            ProjectionApplicability::Inapplicable(ProjectionInapplicable::NoNamedObserver)
        } else if self.scope_of(graph) == Set::<Seq<char>>::empty() {
            ProjectionApplicability::Inapplicable(ProjectionInapplicable::NoObservedCandidate)
        } else {
            ProjectionApplicability::Applicable
        }
    }

    fn facts(&self)
        ensures
            strictly_ascending(spelled(self.names@)),
            spelled(self.names@).no_duplicates(),
            self.attribution().dom() == spelled(self.names@).to_set(),
            self.names@.len() == self.observations@.len(),
            forall|i: int| 0 <= i < self.names@.len() ==> self.attribution()[#[trigger] spelled(self.names@)[i]] == self.observations@[i]@,
    {
        proof {
            use_type_invariant(self);
            let listing = spelled(self.names@);
            lemma_ascending_no_duplicates(listing);
            assert(self.attribution().dom() =~= listing.to_set());
            assert forall|i: int| 0 <= i < self.names@.len() implies self.attribution()[#[trigger] listing[i]] == self.observations@[i]@ by {
                lemma_observation_at(listing, observation_views(self.observations@), i);
            }
        }
    }

    /// A projection of `observers` over the declared `(candidate, observation)` pairs. Refused
    /// at the first candidate, in arrival order, declared a second time.
    pub fn new(observers: Vec<Observer>, attribution: Vec<(Name, Observation)>) -> (projection: Result<ObserverProjection, ProjectionError>)
        ensures
            projection is Ok <==> forall|i: int| 0 <= i < attribution@.len() ==> !#[trigger] repeats_at(attributed_ids(attribution@), i),
            projection matches Ok(p) ==> p.roster_view() == roster(observers@)
                && p.attribution() == declared_observations(attribution_entries(attribution@)),
            projection matches Err(ProjectionError::RepeatedCandidate { id }) ==> exists|i: int|
                first_repeat(attributed_ids(attribution@), i)
                && attribution@[i].0@ == id@,
    {
        let ghost all = attribution_entries(attribution@);
        let ghost ids = attributed_ids(attribution@);
        let n = attribution.len();
        let mut names: Vec<Name> = Vec::new();
        let mut observations: Vec<Observation> = Vec::new();
        let mut i: usize = 0;
        while i < n
            invariant
                n == attribution@.len(),
                all == attribution_entries(attribution@),
                ids == attributed_ids(attribution@),
                i <= n,
                names@.len() == observations@.len(),
                strictly_ascending(spelled(names@)),
                spelled(names@).to_set() == ids.subrange(0, i as int).to_set(),
                forall|j: int| 0 <= j < i ==> !#[trigger] repeats_at(ids, j),
                observations_by_name(spelled(names@), observation_views(observations@)) == declared_observations(all.subrange(0, i as int)),
            decreases n - i,
        {
            let ghost before = observations_by_name(spelled(names@), observation_views(observations@));
            let ghost old_names = spelled(names@);
            let ghost old_observations = observation_views(observations@);
            let id = attribution[i].0.clone();
            let observation = attribution[i].1.clone();
            proof {
                lemma_ascending_no_duplicates(old_names);
                assert(all.subrange(0, i + 1).drop_last() =~= all.subrange(0, i as int));
                assert(all[i as int] == (id@, observation@));
                assert(ids[i as int] == id@);
            }
            match locate(names.as_slice(), &id) {
                Ok(p) => {
                    proof {
                        assert(old_names[p as int] == id@);
                        assert(old_names.to_set().contains(id@));
                        assert(ids.subrange(0, i as int).to_set().contains(id@));
                        assert(repeats_at(ids, i as int));
                        assert(first_repeat(ids, i as int));
                    }
                    return Err(ProjectionError::RepeatedCandidate { id });
                },
                Err(p) => {
                    proof {
                        lemma_insert_ascending(old_names, p as int, id@);
                        assert(!repeats_at(ids, i as int)) by {
                            if ids.subrange(0, i as int).contains(id@) {
                                assert(ids.subrange(0, i as int).to_set().contains(id@));
                                assert(old_names.to_set().contains(id@));
                                let q = choose|q: int| 0 <= q < old_names.len() && old_names[q] == id@;
                                assert(names@[q]@ == id@);
                            }
                        }
                    }
                    names.insert(p, id);
                    observations.insert(p, observation);
                    proof {
                        let now = spelled(names@);
                        let now_observations = observation_views(observations@);
                        assert(now =~= old_names.insert(p as int, id@));
                        assert(now_observations =~= old_observations.insert(p as int, observation@));
                        lemma_ascending_no_duplicates(now);
                        assert(ids.subrange(0, i + 1) =~= ids.subrange(0, i as int).push(id@));
                        lemma_push_to_set(ids.subrange(0, i as int), id@);
                        assert(observations_by_name(now, now_observations) =~= before.insert(id@, observation@)) by {
                            assert forall|x: Seq<char>| observations_by_name(now, now_observations).dom().contains(x)
                                <==> before.insert(id@, observation@).dom().contains(x) by {
                                assert(now.to_set() == old_names.to_set().insert(id@));
                                if now.contains(x) {
                                    assert(now.to_set().contains(x));
                                }
                                if old_names.contains(x) {
                                    assert(old_names.to_set().contains(x));
                                    assert(now.to_set().contains(x));
                                }
                                if x == id@ {
                                    assert(now[p as int] == id@);
                                }
                            }
                            assert forall|x: Seq<char>| #[trigger] observations_by_name(now, now_observations).dom().contains(x)
                                implies observations_by_name(now, now_observations)[x] == before.insert(id@, observation@)[x] by {
                                let q = now.index_of(x);
                                lemma_observation_at(now, now_observations, q);
                                if q < p {
                                    lemma_observation_at(old_names, old_observations, q);
                                } else if q > p {
                                    lemma_observation_at(old_names, old_observations, q - 1);
                                }
                            }
                        }
                    }
                },
            }
            i = i + 1;
        }
        proof {
            assert(all.subrange(0, n as int) =~= all);
        }
        Ok(ObserverProjection { observers, names, observations })
    }

    /// The named observers.
    pub fn observers(&self) -> (observers: &[Observer])
        ensures
            roster(observers@) == self.roster_view(),
    {
        self.observers.as_slice()
    }

    /// The observation `id` was declared to be, where it was declared.
    pub fn observation(&self, id: &Name) -> (observation: Option<&Observation>)
        ensures
            observation is Some <==> self.attribution().dom().contains(id@),
            observation matches Some(o) ==> o@ == self.attribution()[id@],
    {
        self.facts();
        match locate(self.names.as_slice(), id) {
            Ok(p) => {
                proof { assert(spelled(self.names@)[p as int] == id@); }
                Some(&self.observations[p])
            },
            Err(_) => {
                proof {
                    assert forall|q: int| 0 <= q < spelled(self.names@).len() implies spelled(self.names@)[q] != id@ by {
                        assert(spelled(self.names@)[q] == self.names@[q]@);
                    }
                }
                None
            },
        }
    }

    /// Whether `id`'s observability was declared.
    pub fn is_attributed(&self, id: &Name) -> (attributed: bool)
        ensures
            attributed == self.attribution().dom().contains(id@),
    {
        self.observation(id).is_some()
    }

    /// Every declared pair, in canonical order of the candidates.
    pub fn attributed(&self) -> (pairs: Vec<(Name, Observation)>)
        ensures
            pairs@.len() == self.attribution().dom().len(),
            forall|i: int| 0 <= i < pairs@.len() ==> self.attribution().dom().contains((#[trigger] pairs@[i]).0@)
                && self.attribution()[pairs@[i].0@] == pairs@[i].1@,
            forall|i: int, j: int| 0 <= i < j < pairs@.len() ==> precedes((#[trigger] pairs@[i]).0@, (#[trigger] pairs@[j]).0@),
    {
        self.facts();
        proof { spelled(self.names@).unique_seq_to_set(); }
        let n = self.names.len();
        let mut pairs: Vec<(Name, Observation)> = Vec::new();
        let mut i: usize = 0;
        while i < n
            invariant
                n == self.names@.len(),
                n == self.observations@.len(),
                i <= n,
                pairs@.len() == i,
                forall|q: int| 0 <= q < i ==> (#[trigger] pairs@[q]).0@ == self.names@[q]@
                    && pairs@[q].1@ == self.observations@[q]@,
            decreases n - i,
        {
            pairs.push((self.names[i].clone(), self.observations[i].clone()));
            i = i + 1;
        }
        proof {
            let listing = spelled(self.names@);
            assert forall|q: int| 0 <= q < pairs@.len() implies self.attribution().dom().contains((#[trigger] pairs@[q]).0@)
                && self.attribution()[pairs@[q].0@] == pairs@[q].1@ by {
                assert(listing[q] == self.names@[q]@);
                assert(listing.to_set().contains(listing[q]));
            }
            assert forall|a: int, b: int| 0 <= a < b < pairs@.len() implies precedes((#[trigger] pairs@[a]).0@, (#[trigger] pairs@[b]).0@) by {
                assert(listing[a] == self.names@[a]@);
                assert(listing[b] == self.names@[b]@);
            }
        }
        pairs
    }

    /// The observers that publish what `id` was declared to be; none when it was not
    /// declared.
    pub fn observers_of(&self, id: &Name) -> (observers: Vec<Name>)
        ensures
            spelled(observers@).to_set() == self.observers_of_spec(id@),
            text_ascending(spelled(observers@)),
    {
        let observation = match self.observation(id) {
            Some(o) => o,
            None => {
                let none: Vec<Name> = Vec::new();
                proof { assert(spelled(none@).to_set() =~= Set::<Seq<char>>::empty()); }
                return none;
            },
        };
        let ghost list = roster(self.observers@);
        let mut found: Vec<Name> = Vec::new();
        proof { assert(spelled(found@).to_set() =~= publishers(list.subrange(0, 0), observation@)); }
        let mut i: usize = 0;
        while i < self.observers.len()
            invariant
                list == roster(self.observers@),
                list == self.roster_view(),
                observation@ == self.attribution()[id@],
                i <= self.observers@.len(),
                text_ascending(spelled(found@)),
                spelled(found@).to_set() == publishers(list.subrange(0, i as int), observation@),
            decreases self.observers@.len() - i,
        {
            let observer = &self.observers[i];
            let ghost before = spelled(found@).to_set();
            proof { assert(list[i as int] == (observer.named(), observer.publishing())); }
            if observer.publishes(observation) {
                insert_by_text(&mut found, observer.id().clone());
            }
            proof {
                let prefix = list.subrange(0, i as int);
                let grown = list.subrange(0, i + 1);
                assert forall|o: Seq<char>| #[trigger] publishers(grown, observation@).contains(o)
                    <==> spelled(found@).to_set().contains(o) by {
                    if publishers(grown, observation@).contains(o) {
                        let k = choose|k: int| 0 <= k < grown.len() && (#[trigger] grown[k]).0 == o && grown[k].1.contains(observation@);
                        if k < i {
                            assert(prefix[k] == grown[k]);
                        }
                    }
                    if publishers(prefix, observation@).contains(o) {
                        let k = choose|k: int| 0 <= k < prefix.len() && (#[trigger] prefix[k]).0 == o && prefix[k].1.contains(observation@);
                        assert(grown[k] == prefix[k]);
                    }
                    if observer.publishing().contains(observation@) && o == observer.named() {
                        assert(grown[i as int] == list[i as int]);
                    }
                }
                assert(spelled(found@).to_set() =~= publishers(grown, observation@));
            }
            i = i + 1;
        }
        proof {
            assert(list.subrange(0, i as int) =~= list);
        }
        found
    }

    /// Whether some named observer publishes `id`.
    pub fn publishes(&self, id: &Name) -> (published: bool)
        ensures
            published == self.publishes_spec(id@),
    {
        let observers = self.observers_of(id);
        proof {
            if observers@.len() > 0 {
                assert(spelled(observers@)[0] == observers@[0]@);
                assert(spelled(observers@).to_set().contains(observers@[0]@));
            } else {
                assert(spelled(observers@).to_set() =~= Set::<Seq<char>>::empty());
            }
        }
        observers.len() > 0
    }

    /// The candidates of `order` some named observer publishes.
    pub fn scope(&self, order: &CausalOrder) -> (scope: NameSet)
        ensures
            scope.contents() == self.scope_of(order.graph()),
    {
        let nodes = order.nodes();
        let mut scope = NameSet::new();
        let mut i: usize = 0;
        while i < nodes.len()
            invariant
                spelled(nodes@) == order.listing(),
                order.listing().to_set() == order.graph().dom(),
                i <= nodes@.len(),
                scope.contents() == order.listing().subrange(0, i as int).to_set().filter(|x: Seq<char>| self.publishes_spec(x)),
            decreases nodes@.len() - i,
        {
            let ghost x = order.listing()[i as int];
            let ghost before = order.listing().subrange(0, i as int);
            proof {
                assert(x == nodes@[i as int]@);
                assert(order.listing().subrange(0, i + 1) =~= before.push(x));
                lemma_push_to_set(before, x);
            }
            if self.publishes(&nodes[i]) {
                scope.insert(nodes[i].clone());
            }
            proof {
                assert(scope.contents() =~= before.push(x).to_set().filter(|y: Seq<char>| self.publishes_spec(y)));
            }
            i = i + 1;
        }
        proof {
            assert(order.listing().subrange(0, i as int) =~= order.listing());
            assert(scope.contents() =~= self.scope_of(order.graph()));
        }
        scope
    }

    /// The observers that publish some candidate of `order`.
    pub fn engaged_observers(&self, order: &CausalOrder) -> (engaged: Vec<Name>)
        ensures
            text_ascending(spelled(engaged@)),
            spelled(engaged@).to_set() == self.engaged_set(order.graph()),
    {
        let nodes = order.nodes();
        let ghost target = |k: int| Set::new(|o: Seq<char>| exists|x: Seq<char>| #[trigger] order.listing().subrange(0, k).contains(x)
            && self.observers_of_spec(x).contains(o));
        let mut engaged: Vec<Name> = Vec::new();
        let mut i: usize = 0;
        proof { assert(spelled(engaged@).to_set() =~= target(0)); }
        while i < nodes.len()
            invariant
                spelled(nodes@) == order.listing(),
                order.listing().to_set() == order.graph().dom(),
                target == (|k: int| Set::new(|o: Seq<char>| exists|x: Seq<char>| #[trigger] order.listing().subrange(0, k).contains(x)
                    && self.observers_of_spec(x).contains(o))),
                i <= nodes@.len(),
                text_ascending(spelled(engaged@)),
                spelled(engaged@).to_set() == target(i as int),
            decreases nodes@.len() - i,
        {
            let ghost x = order.listing()[i as int];
            proof { assert(x == nodes@[i as int]@); }
            let observers = self.observers_of(&nodes[i]);
            let members = &observers;
            let ghost start = spelled(engaged@).to_set();
            let mut j: usize = 0;
            while j < members.len()
                invariant
                    spelled(members@) == spelled(observers@),
                    j <= members@.len(),
                    text_ascending(spelled(engaged@)),
                    spelled(engaged@).to_set() == start.union(spelled(observers@).subrange(0, j as int).to_set()),
                decreases members@.len() - j,
            {
                let ghost before = spelled(observers@).subrange(0, j as int);
                proof {
                    assert(spelled(observers@)[j as int] == members@[j as int]@);
                    assert(spelled(observers@).subrange(0, j + 1) =~= before.push(spelled(observers@)[j as int]));
                    lemma_push_to_set(before, spelled(observers@)[j as int]);
                }
                insert_by_text(&mut engaged, members[j].clone());
                proof {
                    assert(spelled(engaged@).to_set() =~= start.union(spelled(observers@).subrange(0, j + 1).to_set()));
                }
                j = j + 1;
            }
            proof {
                assert(spelled(observers@).subrange(0, j as int) =~= spelled(observers@));
                let prefix = order.listing().subrange(0, i as int);
                let grown = order.listing().subrange(0, i + 1);
                assert(grown =~= prefix.push(x));
                assert(start == target(i as int));
                assert forall|o: Seq<char>| #[trigger] target(i + 1).contains(o) <==> spelled(engaged@).to_set().contains(o) by {
                    if target(i + 1).contains(o) {
                        let y = choose|y: Seq<char>| #[trigger] grown.contains(y) && self.observers_of_spec(y).contains(o);
                        let k = choose|k: int| 0 <= k < grown.len() && grown[k] == y;
                        if k < i {
                            assert(prefix[k] == y);
                            assert(prefix.contains(y));
                            assert(target(i as int).contains(o));
                            assert(start.contains(o));
                        } else {
                            assert(y == x);
                            assert(spelled(observers@).to_set().contains(o));
                        }
                    }
                    if start.contains(o) {
                        assert(target(i as int).contains(o));
                        let y = choose|y: Seq<char>| #[trigger] prefix.contains(y) && self.observers_of_spec(y).contains(o);
                        let k = choose|k: int| 0 <= k < prefix.len() && prefix[k] == y;
                        assert(grown[k] == y);
                        assert(grown.contains(y));
                    }
                    if spelled(observers@).to_set().contains(o) {
                        assert(grown[i as int] == x);
                        assert(grown.contains(x));
                        assert(self.observers_of_spec(x).contains(o));
                    }
                }
                assert(spelled(engaged@).to_set() =~= target(i + 1));
            }
            i = i + 1;
        }
        proof {
            assert(order.listing().subrange(0, i as int) =~= order.listing());
            assert forall|o: Seq<char>| spelled(engaged@).to_set().contains(o) <==> self.engaged_set(order.graph()).contains(o) by {
                if spelled(engaged@).to_set().contains(o) {
                    let y = choose|y: Seq<char>| #[trigger] order.listing().contains(y) && self.observers_of_spec(y).contains(o);
                    assert(order.listing().to_set().contains(y));
                }
                if self.engaged_set(order.graph()).contains(o) {
                    let y = choose|y: Seq<char>| #[trigger] order.graph().dom().contains(y) && self.observers_of_spec(y).contains(o);
                    assert(order.listing().to_set().contains(y));
                    assert(order.listing().contains(y));
                }
            }
            assert(spelled(engaged@).to_set() =~= self.engaged_set(order.graph()));
        }
        engaged
    }

    /// Whether the projection applies to `order`: refused when no observer is named, and when
    /// no named observer publishes any of its candidates.
    pub fn applicability(&self, order: &CausalOrder) -> (applicability: ProjectionApplicability)
        ensures
            applicability == self.applicability_of(order.graph()),
    {
        if self.observers.len() == 0 {
            return ProjectionApplicability::Inapplicable(ProjectionInapplicable::NoNamedObserver);
        }
        let scope = self.scope(order);
        if scope.is_empty() {
            return ProjectionApplicability::Inapplicable(ProjectionInapplicable::NoObservedCandidate);
        }
        ProjectionApplicability::Applicable
    }
}

/// Stage 6's seeds: the members of `slice` the property protects, whose observability was
/// never declared, or that some named observer publishes.
pub open spec fn observer_seeds(
    slice: Set<Seq<char>>,
    protected: Set<Seq<char>>,
    attributed: Set<Seq<char>>,
    published: Set<Seq<char>>,
) -> Set<Seq<char>> {
    slice.filter(|x: Seq<char>| protected.contains(x) || !attributed.contains(x) || published.contains(x))
}

/// Stage 6's computation: narrow a slice to what the named observers scope, keeping what the
/// property protects.
#[derive(Debug, Clone, Copy, PartialEq, Eq)]
pub struct ObserverFilter;

impl ObserverFilter {
    /// The observer-scoped sub-slice of `slice`: the backward closure of its seeds (members
    /// `protected` holds, members whose observability was never declared, and members a named
    /// observer publishes), intersected back with `slice`. Refuses, naming the first in
    /// canonical order, a member of `slice` that is not a node of `order`.
    pub fn retain(
        projection: &ObserverProjection,
        order: &CausalOrder,
        slice: &NameSet,
        protected: &NameSet,
    ) -> (retained: Result<NameSet, CausalError>)
        ensures
            retained is Ok <==> slice.contents().subset_of(order.graph().dom()),
            retained matches Ok(kept) ==> kept.contents() == closure_of(
                order.graph(),
                observer_seeds(slice.contents(), protected.contents(), projection.attribution().dom(), projection.published_set()),
            ).intersect(slice.contents()),
            retained matches Err(e) ==> e matches CausalError::UnknownEndpoint { id } && {
                &&& slice.contents().contains(id@)
                &&& !order.graph().dom().contains(id@)
                &&& forall|y: Seq<char>| slice.contents().contains(y) && precedes(y, id@) ==> order.graph().dom().contains(y)
            },
    {
        let ghost wanted = observer_seeds(slice.contents(), protected.contents(), projection.attribution().dom(), projection.published_set());
        let members = slice.members();
        let mut k: usize = 0;
        while k < members.len()
            invariant
                spelled(members@) == slice.listing(),
                strictly_ascending(slice.listing()),
                k <= members@.len(),
                forall|m: int| 0 <= m < k ==> order.graph().dom().contains(slice.listing()[m]),
            decreases members@.len() - k,
        {
            proof { assert(spelled(members@)[k as int] == members@[k as int]@); }
            if !order.contains(&members[k]) {
                proof {
                    let id = slice.listing()[k as int];
                    assert(slice.listing().to_set().contains(id));
                    assert forall|y: Seq<char>| slice.contents().contains(y) && precedes(y, id) implies order.graph().dom().contains(y) by {
                        let m = choose|m: int| 0 <= m < slice.listing().len() && slice.listing()[m] == y;
                        if m >= k {
                            if m > k {
                                assert(precedes(slice.listing()[k as int], slice.listing()[m]));
                            }
                            crate::name::lemma_precedes_order(y, id, y);
                        }
                    }
                }
                return Err(CausalError::UnknownEndpoint { id: members[k].clone() });
            }
            k = k + 1;
        }
        proof {
            assert forall|x: Seq<char>| slice.contents().contains(x) implies order.graph().dom().contains(x) by {
                let m = choose|m: int| 0 <= m < slice.listing().len() && slice.listing()[m] == x;
            }
        }
        let mut seeds = NameSet::new();
        let mut i: usize = 0;
        while i < members.len()
            invariant
                spelled(members@) == slice.listing(),
                wanted == observer_seeds(slice.contents(), protected.contents(), projection.attribution().dom(), projection.published_set()),
                i <= members@.len(),
                seeds.contents() == slice.listing().subrange(0, i as int).to_set().filter(
                    |x: Seq<char>| protected.contents().contains(x) || !projection.attribution().dom().contains(x)
                        || projection.published_set().contains(x),
                ),
            decreases members@.len() - i,
        {
            let ghost x = slice.listing()[i as int];
            let ghost before = slice.listing().subrange(0, i as int);
            proof {
                assert(x == members@[i as int]@);
                assert(slice.listing().subrange(0, i + 1) =~= before.push(x));
                lemma_push_to_set(before, x);
            }
            let id = &members[i];
            if protected.contains(id) || !projection.is_attributed(id) || projection.publishes(id) {
                seeds.insert(id.clone());
            }
            proof {
                assert(seeds.contents() =~= before.push(x).to_set().filter(
                    |y: Seq<char>| protected.contents().contains(y) || !projection.attribution().dom().contains(y)
                        || projection.published_set().contains(y),
                ));
            }
            i = i + 1;
        }
        proof {
            assert(slice.listing().subrange(0, i as int) =~= slice.listing());
            assert(seeds.contents() =~= wanted);
            assert(seeds.contents().subset_of(order.graph().dom()));
        }
        let closed = match order.backward_closure(&seeds) {
            Ok(closed) => closed,
            Err(e) => {
                return Err(e);
            },
        };
        proof {
            law_backward_closure_is_unique(order.graph(), seeds.contents(), closed.contents(), closed.contents());
        }
        Ok(closed.intersection(slice))
    }
}

/// Stage 6 keeps its seeds: every member of the slice the property protects, whose
/// observability was never declared, or that a named observer publishes, survives the filter.
pub proof fn law_observer_filter_keeps_its_seeds(
    graph: crate::causal::Graph,
    slice: Set<Seq<char>>,
    protected: Set<Seq<char>>,
    attributed: Set<Seq<char>>,
    published: Set<Seq<char>>,
)
    requires
        exists|c: Set<Seq<char>>| is_backward_closure(graph, observer_seeds(slice, protected, attributed, published), c),
    ensures
        observer_seeds(slice, protected, attributed, published).subset_of(
            closure_of(graph, observer_seeds(slice, protected, attributed, published)).intersect(slice),
        ),
        slice.intersect(protected).subset_of(
            closure_of(graph, observer_seeds(slice, protected, attributed, published)).intersect(slice),
        ),
{
    let seeds = observer_seeds(slice, protected, attributed, published);
    let c = choose|c: Set<Seq<char>>| is_backward_closure(graph, seeds, c);
    law_backward_closure_is_unique(graph, seeds, c, c);
    assert forall|x: Seq<char>| slice.intersect(protected).contains(x) implies seeds.contains(x) by {}
}

/// Stage 6 keeps a downward-closed slice downward closed: over one, it returns its seeds' own
/// closure.
pub proof fn law_observer_filter_preserves_closure(
    graph: crate::causal::Graph,
    slice: Set<Seq<char>>,
    protected: Set<Seq<char>>,
    attributed: Set<Seq<char>>,
    published: Set<Seq<char>>,
)
    requires
        slice.subset_of(graph.dom()),
        downward_closed(graph, slice),
        exists|c: Set<Seq<char>>| is_backward_closure(graph, observer_seeds(slice, protected, attributed, published), c),
    ensures
        downward_closed(graph, closure_of(graph, observer_seeds(slice, protected, attributed, published)).intersect(slice)),
{
    let seeds = observer_seeds(slice, protected, attributed, published);
    let c = choose|c: Set<Seq<char>>| is_backward_closure(graph, seeds, c);
    law_backward_closure_is_unique(graph, seeds, c, c);
    assert(seeds.subset_of(slice));
    assert(c.subset_of(slice));
    assert(c.intersect(slice) =~= c);
}


impl ProjectionInapplicable {
    /// Why the projection does not apply, as a sentence.
    pub open spec fn explanation(self) -> Seq<char> {
        match self {
            ProjectionInapplicable::NoNamedObserver =>
                "the intent binds no observer, so every observer-scoped reduction it would justify is vacuous"@,
            ProjectionInapplicable::NoObservedCandidate =>
                "no named observer publishes any candidate of this causal order, so scoping reduces nothing that was justified"@,
        }
    }

    /// Why the projection does not apply, as a sentence.
    pub fn message(self) -> (text: String)
        ensures
            text@ == self.explanation(),
    {
        let mut out = String::new();
        match self {
            ProjectionInapplicable::NoNamedObserver => write_raw(&mut out,
                "the intent binds no observer, so every observer-scoped reduction it would justify is vacuous"),
            ProjectionInapplicable::NoObservedCandidate => write_raw(&mut out,
                "no named observer publishes any candidate of this causal order, so scoping reduces nothing that was justified"),
        }
        out
    }
}

} // verus!
