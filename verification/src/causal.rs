//! The engine-independent causal order stage 2 slices over, the independent closure checker,
//! and the declared completeness that decides what a stage-2 drop is recorded as.

use vstd::prelude::*;

use crate::name::{lemma_ascending_no_duplicates, lemma_precedes_order, precedes, spelled, strictly_ascending, Name, NameSet};
use crate::omission::OmissionReason;
use crate::selection::SelectionKind;

verus! {

/// Whether the causal order names every causal edge among its candidates.
#[derive(Debug, Clone, Copy, PartialEq, Eq, PartialOrd, Ord, Structural)]
pub enum Completeness {
    /// The producer declares the edge set exhaustive: non-ancestry is then a proof.
    Complete,
    /// The producer declares the edge set partial, and names why.
    Partial {
        /// Why the order is incomplete.
        reason: PartialReason,
    },
}

impl Completeness {
    /// The manifest reason a stage-2 drop is recorded under: `slice-irrelevant` only under a
    /// complete order, since non-ancestry in a partial one proves nothing.
    pub open spec fn drop_reason(self) -> OmissionReason {
        if self == Completeness::Complete {
            OmissionReason::SliceIrrelevant
        } else {
            OmissionReason::HeuristicCutoff
        }
    }

    /// The manifest reason a stage-2 drop is recorded under, given this declaration.
    pub fn omission_reason(&self) -> (reason: OmissionReason)
        ensures
            reason == self.drop_reason(),
    {
        match self {
            Completeness::Complete => OmissionReason::SliceIrrelevant,
            Completeness::Partial { .. } => OmissionReason::HeuristicCutoff,
        }
    }

    /// Whether non-ancestry under this order is a proof of irrelevance.
    pub fn is_complete(&self) -> (complete: bool)
        ensures
            complete == (*self == Completeness::Complete),
    {
        matches!(self, Completeness::Complete)
    }
}

/// Why a causal order is only partial.
#[derive(Debug, Clone, Copy, PartialEq, Eq, Hash, PartialOrd, Ord, Structural)]
pub enum PartialReason {
    /// The producing engine does not compute the causal order for this semantics.
    UnsupportedSemantics,
    /// The order was truncated by a bound the producer declared.
    Truncated,
    /// The telemetry the order is derived from is incomplete.
    InsufficientTelemetry,
}

impl PartialReason {
    /// Every member, in declaration order.
    pub const ALL: [PartialReason; 3] = [
        PartialReason::UnsupportedSemantics,
        PartialReason::Truncated,
        PartialReason::InsufficientTelemetry,
    ];

    /// The member's position in declaration order.
    pub open spec fn rank(self) -> int {
        match self {
            PartialReason::UnsupportedSemantics => 0,
            PartialReason::Truncated => 1,
            PartialReason::InsufficientTelemetry => 2,
        }
    }

    /// `ALL` lists every member at its rank.
    pub proof fn lemma_all_lists(member: PartialReason)
        ensures
            0 <= member.rank() < 3,
            PartialReason::ALL@[member.rank()] == member,
    {
    }

    /// The member's stable token.
    pub open spec fn token(self) -> Seq<char> {
        match self {
            PartialReason::UnsupportedSemantics => "unsupported-semantics"@,
            PartialReason::Truncated => "truncated"@,
            PartialReason::InsufficientTelemetry => "insufficient-telemetry"@,
        }
    }

    /// The member's stable token.
    pub fn as_str(self) -> (text: &'static str)
        ensures
            text@ == self.token(),
    {
        match self {
            PartialReason::UnsupportedSemantics => "unsupported-semantics",
            PartialReason::Truncated => "truncated",
            PartialReason::InsufficientTelemetry => "insufficient-telemetry",
        }
    }

    /// The token's length and the characters that tell members' tokens apart.
    pub open spec fn signature(self) -> int {
        match self {
            PartialReason::UnsupportedSemantics => 21,
            PartialReason::Truncated => 9,
            PartialReason::InsufficientTelemetry => 22,
        }
    }

    proof fn lemma_signature(member: PartialReason)
        ensures
            member.token().len() == member.signature(),
    {
        match member {
            PartialReason::UnsupportedSemantics => reveal_strlit("unsupported-semantics"),
            PartialReason::Truncated => reveal_strlit("truncated"),
            PartialReason::InsufficientTelemetry => reveal_strlit("insufficient-telemetry"),
        }
    }

    /// Distinct members have distinct tokens.
    pub proof fn lemma_token_injective(a: PartialReason, b: PartialReason)
        ensures
            a.token() == b.token() ==> a == b,
    {
        PartialReason::lemma_signature(a);
        PartialReason::lemma_signature(b);
    }

}


/// A causal graph: each node's set of immediate causal predecessors.
pub type Graph = Map<Seq<char>, Set<Seq<char>>>;

/// Whether `rank` strictly increases along every edge: every predecessor ranks below the
/// event it precedes.
pub open spec fn ranks_strictly(graph: Graph, rank: spec_fn(Seq<char>) -> int) -> bool {
    forall|e: Seq<char>, p: Seq<char>|
        graph.dom().contains(e) && #[trigger] graph[e].contains(p) ==> rank(p) < rank(e)
}

/// Whether the edge relation is a strict partial order: some ranking strictly increases along
/// every edge, which is the same as the edges having no cycle.
pub open spec fn acyclic(graph: Graph) -> bool {
    exists|rank: spec_fn(Seq<char>) -> int| ranks_strictly(graph, rank)
}

/// Whether `selection` holds every immediate predecessor of each of its nodes.
pub open spec fn downward_closed(graph: Graph, selection: Set<Seq<char>>) -> bool {
    forall|e: Seq<char>, p: Seq<char>|
        selection.contains(e) && graph.dom().contains(e) && #[trigger] graph[e].contains(p) ==> selection.contains(p)
}

/// The graph a listing of nodes and their predecessor sets spell.
pub open spec fn graph_of(listing: Seq<Seq<char>>, predecessors: Seq<Set<Seq<char>>>) -> Graph {
    Map::new(|x: Seq<char>| listing.contains(x), |x: Seq<char>| predecessors[listing.index_of(x)])
}

/// In a listing without repeats, the graph's entry for the `i`th node is the `i`th set.
pub proof fn lemma_graph_of_at(listing: Seq<Seq<char>>, predecessors: Seq<Set<Seq<char>>>, i: int)
    requires
        listing.no_duplicates(),
        0 <= i < listing.len(),
    ensures
        graph_of(listing, predecessors).dom().contains(listing[i]),
        graph_of(listing, predecessors)[listing[i]] == predecessors[i],
        listing.index_of(listing[i]) == i,
{
    assert(listing.contains(listing[i]));
    let j = listing.index_of(listing[i]);
    assert(0 <= j < listing.len() && listing[j] == listing[i]);
}

/// The identifiers a list of declared nodes names, in declaration order.
pub open spec fn node_names(nodes: Seq<(Name, SelectionKind)>) -> Seq<Seq<char>> {
    nodes.map_values(|node: (Name, SelectionKind)| node.0@)
}

/// The `(event, predecessor)` identifier pairs a list of declared edges names.
pub open spec fn edge_names(edges: Seq<(Name, Name)>) -> Seq<(Seq<char>, Seq<char>)> {
    edges.map_values(|edge: (Name, Name)| (edge.0@, edge.1@))
}

/// Whether the `i`th declared identifier was already declared before it.
pub open spec fn repeats_at(names: Seq<Seq<char>>, i: int) -> bool {
    names.subrange(0, i).contains(names[i])
}

/// Whether a declared edge fails to be one: an endpoint that is not a node, or an event
/// preceding itself.
pub open spec fn edge_fault(names: Set<Seq<char>>, edge: (Seq<char>, Seq<char>)) -> bool {
    !names.contains(edge.0) || !names.contains(edge.1) || edge.0 == edge.1
}

/// The graph a declaration spells: each node, with the predecessors its edges name.
pub open spec fn declared_graph(names: Seq<Seq<char>>, edges: Seq<(Seq<char>, Seq<char>)>) -> Graph {
    Map::new(|x: Seq<char>| names.contains(x), |x: Seq<char>| Set::new(|p: Seq<char>| edges.contains((x, p))))
}

/// A finite causal order over named, kinded candidates: the premise stage 2 slices against.
#[derive(Debug, PartialEq, Eq)]
pub struct CausalOrder {
    nodes: NameSet,
    kinds: Vec<SelectionKind>,
    predecessors: Vec<NameSet>,
    completeness: Completeness,
}

/// The predecessor sets a list of name sets holds.
pub open spec fn contents_of(sets: Seq<NameSet>) -> Seq<Set<Seq<char>>> {
    sets.map_values(|set: NameSet| set.contents())
}

impl CausalOrder {
    #[verifier::type_invariant]
    spec fn well_formed(self) -> bool {
        let listing = self.nodes.listing();
        &&& strictly_ascending(listing)
        &&& self.kinds@.len() == listing.len()
        &&& self.predecessors@.len() == listing.len()
        &&& forall|i: int| 0 <= i < listing.len() ==> self.predecessors@[i].contents().subset_of(listing.to_set())
        &&& acyclic(graph_of(listing, contents_of(self.predecessors@)))
    }

    /// The order as a graph: each node with its immediate causal predecessors.
    pub closed spec fn graph(&self) -> Graph {
        graph_of(self.nodes.listing(), contents_of(self.predecessors@))
    }

    /// The nodes, in canonical order.
    pub closed spec fn listing(&self) -> Seq<Seq<char>> {
        self.nodes.listing()
    }

    /// The kind of each node.
    pub closed spec fn kind_of(&self, id: Seq<char>) -> SelectionKind {
        self.kinds@[self.nodes.listing().index_of(id)]
    }

    /// The completeness the producer declared.
    pub closed spec fn declared_completeness(&self) -> Completeness {
        self.completeness
    }
}


impl CausalOrder {
    /// The listing holds each node once, and the graph's nodes are exactly the listed ones.
    fn facts(&self)
        ensures
            strictly_ascending(self.listing()),
            self.listing().no_duplicates(),
            self.graph().dom() == self.listing().to_set(),
            self.kinds@.len() == self.listing().len(),
            self.predecessors@.len() == self.listing().len(),
            forall|i: int| 0 <= i < self.listing().len() ==> self.graph()[self.listing()[i]]
                == #[trigger] self.predecessors@[i].contents(),
            forall|i: int| 0 <= i < self.listing().len() ==> self.kind_of(self.listing()[i])
                == #[trigger] self.kinds@[i],
            forall|e: Seq<char>| #[trigger] self.graph().dom().contains(e) ==> self.graph()[e].subset_of(self.graph().dom()),
            acyclic(self.graph()),
    {
        proof {
            use_type_invariant(self);
            let listing = self.listing();
            lemma_ascending_no_duplicates(listing);
            assert(self.graph().dom() =~= listing.to_set());
            assert forall|i: int| 0 <= i < listing.len() implies self.graph()[listing[i]]
                == #[trigger] self.predecessors@[i].contents() by {
                lemma_graph_of_at(listing, contents_of(self.predecessors@), i);
            }
            assert forall|i: int| 0 <= i < listing.len() implies self.kind_of(listing[i])
                == #[trigger] self.kinds@[i] by {
                lemma_graph_of_at(listing, contents_of(self.predecessors@), i);
            }
            assert forall|e: Seq<char>| #[trigger] self.graph().dom().contains(e) implies self.graph()[e].subset_of(self.graph().dom()) by {
                let i = listing.index_of(e);
                lemma_graph_of_at(listing, contents_of(self.predecessors@), i);
            }
        }
    }

    /// How many candidates the order holds.
    pub fn len(&self) -> (count: usize)
        ensures
            count == self.graph().dom().len(),
    {
        self.facts();
        proof { self.listing().unique_seq_to_set(); }
        self.nodes.len()
    }

    /// Whether the order is empty.
    pub fn is_empty(&self) -> (empty: bool)
        ensures
            empty == (self.graph().dom() == Set::<Seq<char>>::empty()),
    {
        self.facts();
        let empty = self.nodes.is_empty();
        proof {
            if !empty {
                assert(self.graph().dom().contains(self.listing()[0]));
            } else {
                assert(self.graph().dom() =~= Set::<Seq<char>>::empty());
            }
        }
        empty
    }

    /// The completeness the producer declared.
    pub fn completeness(&self) -> (completeness: &Completeness)
        ensures
            *completeness == self.declared_completeness(),
    {
        &self.completeness
    }

    /// Whether `id` is a node of this order.
    pub fn contains(&self, id: &Name) -> (member: bool)
        ensures
            member == self.graph().dom().contains(id@),
    {
        self.facts();
        self.nodes.contains(id)
    }

    /// The kind of one node.
    pub fn kind(&self, id: &Name) -> (kind: Option<SelectionKind>)
        ensures
            kind is Some <==> self.graph().dom().contains(id@),
            kind matches Some(k) ==> k == self.kind_of(id@),
    {
        self.facts();
        match self.nodes.position(id) {
            Some(i) => Some(self.kinds[i]),
            None => None,
        }
    }

    /// Every node, in canonical order.
    pub fn nodes(&self) -> (nodes: &[Name])
        ensures
            spelled(nodes@) == self.listing(),
            strictly_ascending(self.listing()),
            self.listing().to_set() == self.graph().dom(),
    {
        self.facts();
        self.nodes.members()
    }

    /// The immediate causal predecessors of one node.
    pub fn immediate_predecessors(&self, id: &Name) -> (predecessors: Option<&NameSet>)
        ensures
            predecessors is Some <==> self.graph().dom().contains(id@),
            predecessors matches Some(p) ==> p.contents() == self.graph()[id@],
    {
        self.facts();
        match self.nodes.position(id) {
            Some(i) => Some(&self.predecessors[i]),
            None => None,
        }
    }
}


/// Whether `order` lists every node of `graph` once, each after all of its predecessors.
pub open spec fn topologically_sorted(graph: Graph, order: Seq<Seq<char>>) -> bool {
    &&& order.no_duplicates()
    &&& order.to_set() == graph.dom()
    &&& forall|k: int, p: Seq<char>|
        0 <= k < order.len() && #[trigger] graph[order[k]].contains(p) ==> order.subrange(0, k).contains(p)
}

/// A graph with a topological order is acyclic: position in the order is a strict ranking.
pub proof fn lemma_sorted_is_acyclic(graph: Graph, order: Seq<Seq<char>>)
    requires
        topologically_sorted(graph, order),
    ensures
        acyclic(graph),
{
    let rank = |x: Seq<char>| order.index_of(x);
    assert forall|e: Seq<char>, p: Seq<char>| graph.dom().contains(e) && #[trigger] graph[e].contains(p)
        implies rank(p) < rank(e) by {
        assert(order.to_set().contains(e));
        let k = order.index_of(e);
        assert(order[k] == e);
        assert(order.subrange(0, k).contains(p));
        let m = choose|m: int| 0 <= m < k && order.subrange(0, k)[m] == p;
        assert(order[m] == p);
        assert(order.index_of(p) == m);
    }
    assert(ranks_strictly(graph, rank));
}

/// Whether the `i`th listed node has no remaining predecessor.
pub open spec fn ready(listing: Seq<Seq<char>>, graph: Graph, remaining: Seq<bool>, i: int) -> bool {
    forall|p: Seq<char>| #[trigger] graph[listing[i]].contains(p) ==> !remaining[listing.index_of(p)]
}

/// Among the remaining nodes below `upto`, one of least rank.
proof fn lemma_least_remaining(
    listing: Seq<Seq<char>>,
    remaining: Seq<bool>,
    rank: spec_fn(Seq<char>) -> int,
    upto: int,
) -> (least: int)
    requires
        0 < upto <= listing.len(),
        remaining.len() == listing.len(),
        exists|i: int| 0 <= i < upto && remaining[i],
    ensures
        0 <= least < upto,
        remaining[least],
        forall|j: int| 0 <= j < upto && remaining[j] ==> rank(listing[least]) <= rank(listing[j]),
    decreases upto,
{
    if upto == 1 {
        0
    } else if exists|i: int| 0 <= i < upto - 1 && remaining[i] {
        let below = lemma_least_remaining(listing, remaining, rank, upto - 1);
        if remaining[upto - 1] && rank(listing[upto - 1]) < rank(listing[below]) {
            upto - 1
        } else {
            below
        }
    } else {
        upto - 1
    }
}

/// When no remaining node is ready and some node remains, the graph has a cycle.
proof fn lemma_stuck_is_cyclic(listing: Seq<Seq<char>>, graph: Graph, remaining: Seq<bool>)
    requires
        listing.no_duplicates(),
        graph.dom() == listing.to_set(),
        forall|e: Seq<char>| #[trigger] graph.dom().contains(e) ==> graph[e].subset_of(graph.dom()),
        remaining.len() == listing.len(),
        exists|i: int| 0 <= i < listing.len() && remaining[i],
        forall|i: int| 0 <= i < listing.len() && remaining[i] ==> !ready(listing, graph, remaining, i),
    ensures
        !acyclic(graph),
{
    if acyclic(graph) {
        let rank = choose|rank: spec_fn(Seq<char>) -> int| ranks_strictly(graph, rank);
        let m = lemma_least_remaining(listing, remaining, rank, listing.len() as int);
        assert(!ready(listing, graph, remaining, m));
        let p = choose|p: Seq<char>| #[trigger] graph[listing[m]].contains(p) && remaining[listing.index_of(p)];
        assert(listing.to_set().contains(listing[m]));
        assert(graph[listing[m]].contains(p));
        assert(rank(p) < rank(listing[m]));
        assert(graph.dom().contains(p));
        let j = listing.index_of(p);
        assert(listing[j] == p);
        assert(rank(listing[m]) <= rank(listing[j]));
    }
}

/// Whether the `i`th node has no remaining predecessor.
fn is_ready(nodes: &NameSet, predecessors: &Vec<NameSet>, remaining: &Vec<bool>, i: usize) -> (ready_now: bool)
    requires
        strictly_ascending(nodes.listing()),
        nodes.listing().no_duplicates(),
        predecessors@.len() == nodes.listing().len(),
        remaining@.len() == nodes.listing().len(),
        i < nodes.listing().len(),
        predecessors@[i as int].contents().subset_of(nodes.listing().to_set()),
    ensures
        ready_now == ready(nodes.listing(), graph_of(nodes.listing(), contents_of(predecessors@)), remaining@, i as int),
{
    let ghost listing = nodes.listing();
    let ghost graph = graph_of(listing, contents_of(predecessors@));
    proof { lemma_graph_of_at(listing, contents_of(predecessors@), i as int); }
    let preds = predecessors[i].members();
    let mut k: usize = 0;
    while k < preds.len()
        invariant
            spelled(preds@) == predecessors@[i as int].listing(),
            graph[listing[i as int]] == predecessors@[i as int].contents(),
            predecessors@[i as int].contents().subset_of(listing.to_set()),
            remaining@.len() == listing.len(),
            listing == nodes.listing(),
            listing.no_duplicates(),
            i < listing.len(),
            graph == graph_of(nodes.listing(), contents_of(predecessors@)),
            k <= preds@.len(),
            forall|j: int| 0 <= j < k ==> !remaining@[listing.index_of(#[trigger] spelled(preds@)[j])],
        decreases preds@.len() - k,
    {
        let q = &preds[k];
        proof {
            assert(spelled(preds@)[k as int] == q@);
            assert(predecessors@[i as int].contents().contains(q@));
        }
        match nodes.position(q) {
            Some(at) => {
                proof {
                    lemma_graph_of_at(listing, contents_of(predecessors@), at as int);
                    assert(listing[at as int] == q@);
                }
                if remaining[at] {
                    proof {
                        assert(graph[listing[i as int]].contains(q@));
                        assert(listing.index_of(q@) == at);
                        assert(!ready(listing, graph, remaining@, i as int));
                        assert(!ready(nodes.listing(), graph_of(nodes.listing(), contents_of(predecessors@)), remaining@, i as int));
                    }
                    return false;
                }
            }
            None => {
                proof { assert(false); }
            }
        }
        k = k + 1;
    }
    proof {
        assert forall|p: Seq<char>| #[trigger] graph[listing[i as int]].contains(p) implies !remaining@[listing.index_of(p)] by {
            assert(predecessors@[i as int].contents().contains(p));
            let j = choose|j: int| 0 <= j < spelled(preds@).len() && spelled(preds@)[j] == p;
        }
    }
    true
}

/// The first remaining node, in canonical order, with no remaining predecessor.
fn first_ready(nodes: &NameSet, predecessors: &Vec<NameSet>, remaining: &Vec<bool>) -> (found: Option<usize>)
    requires
        strictly_ascending(nodes.listing()),
        nodes.listing().no_duplicates(),
        predecessors@.len() == nodes.listing().len(),
        remaining@.len() == nodes.listing().len(),
        forall|i: int| 0 <= i < nodes.listing().len() ==> predecessors@[i].contents().subset_of(nodes.listing().to_set()),
    ensures
        found matches Some(i) ==> i < nodes.listing().len() && remaining@[i as int]
            && ready(nodes.listing(), graph_of(nodes.listing(), contents_of(predecessors@)), remaining@, i as int)
            && forall|j: int| 0 <= j < i && remaining@[j]
                ==> !ready(nodes.listing(), graph_of(nodes.listing(), contents_of(predecessors@)), remaining@, j),
        found is None ==> forall|i: int| 0 <= i < nodes.listing().len() && remaining@[i]
            ==> !ready(nodes.listing(), graph_of(nodes.listing(), contents_of(predecessors@)), remaining@, i),
{
    let n = nodes.len();
    let mut i: usize = 0;
    while i < n
        invariant
            n == nodes.listing().len(),
            i <= n,
            strictly_ascending(nodes.listing()),
            nodes.listing().no_duplicates(),
            predecessors@.len() == n,
            remaining@.len() == n,
            forall|j: int| 0 <= j < n ==> predecessors@[j].contents().subset_of(nodes.listing().to_set()),
            forall|j: int| 0 <= j < i && remaining@[j]
                ==> !ready(nodes.listing(), graph_of(nodes.listing(), contents_of(predecessors@)), remaining@, j),
        decreases n - i,
    {
        if remaining[i] && is_ready(nodes, predecessors, remaining, i) {
            return Some(i);
        }
        i = i + 1;
    }
    None
}

/// Whether `x` is a node not yet placed whose predecessors all are.
pub open spec fn ready_after(graph: Graph, placed: Seq<Seq<char>>, x: Seq<char>) -> bool {
    &&& graph.dom().contains(x)
    &&& !placed.contains(x)
    &&& forall|p: Seq<char>| #[trigger] graph[x].contains(p) ==> placed.contains(p)
}

/// Whether each node of `order` is, among the nodes ready after those before it, the least in
/// canonical order: Kahn's algorithm taking the least ready node each round.
pub open spec fn takes_least_ready(graph: Graph, order: Seq<Seq<char>>) -> bool {
    forall|k: int, x: Seq<char>|
        0 <= k < order.len() && #[trigger] ready_after(graph, order.subrange(0, k), x) ==> !crate::name::precedes(x, order[k])
}

/// Kahn's algorithm over the canonically ordered nodes: a deterministic topological order
/// when one exists, and the first node it cannot place when none does.
fn kahn(nodes: &NameSet, predecessors: &Vec<NameSet>) -> (result: Result<Vec<Name>, Name>)
    requires
        strictly_ascending(nodes.listing()),
        nodes.listing().no_duplicates(),
        predecessors@.len() == nodes.listing().len(),
        forall|i: int| 0 <= i < nodes.listing().len() ==> predecessors@[i].contents().subset_of(nodes.listing().to_set()),
    ensures
        result matches Ok(order) ==> topologically_sorted(graph_of(nodes.listing(), contents_of(predecessors@)), spelled(order@)),
        result matches Ok(order) ==> takes_least_ready(graph_of(nodes.listing(), contents_of(predecessors@)), spelled(order@)),
        result matches Err(first) ==> nodes.listing().contains(first@)
            && !acyclic(graph_of(nodes.listing(), contents_of(predecessors@))),
{
    let ghost listing = nodes.listing();
    let ghost graph = graph_of(listing, contents_of(predecessors@));
    let n = nodes.len();
    let members = nodes.members();
    let mut remaining: Vec<bool> = vec![true; n];
    let mut ordered: Vec<Name> = Vec::new();
    let mut left: usize = n;
    proof {
        assert(graph.dom() =~= listing.to_set());
        assert forall|e: Seq<char>| #[trigger] graph.dom().contains(e) implies graph[e].subset_of(graph.dom()) by {
            let i = listing.index_of(e);
            lemma_graph_of_at(listing, contents_of(predecessors@), i);
        }
    }
    loop
        invariant
            n == listing.len(),
            listing == nodes.listing(),
            spelled(members@) == listing,
            graph == graph_of(listing, contents_of(predecessors@)),
            strictly_ascending(listing),
            listing.no_duplicates(),
            predecessors@.len() == n,
            forall|i: int| 0 <= i < n ==> predecessors@[i].contents().subset_of(listing.to_set()),
            graph.dom() == listing.to_set(),
            forall|e: Seq<char>| #[trigger] graph.dom().contains(e) ==> graph[e].subset_of(graph.dom()),
            remaining@.len() == n,
            left + ordered@.len() == n,
            forall|i: int| 0 <= i < n ==> (!remaining@[i] <==> spelled(ordered@).contains(listing[i])),
            spelled(ordered@).no_duplicates(),
            spelled(ordered@).to_set().subset_of(listing.to_set()),
            forall|k: int, p: Seq<char>| 0 <= k < ordered@.len() && #[trigger] graph[spelled(ordered@)[k]].contains(p)
                ==> spelled(ordered@).subrange(0, k).contains(p),
            takes_least_ready(graph, spelled(ordered@)),
        decreases left,
    {
        match first_ready(nodes, predecessors, &remaining) {
            None => {
                if left == 0 {
                    proof {
                        assert(spelled(ordered@).to_set() =~= listing.to_set()) by {
                            spelled(ordered@).unique_seq_to_set();
                            listing.unique_seq_to_set();
                            vstd::set_lib::lemma_len_subset(spelled(ordered@).to_set(), listing.to_set());
                            assert forall|x: Seq<char>| listing.to_set().contains(x) implies spelled(ordered@).to_set().contains(x) by {
                                if !spelled(ordered@).to_set().contains(x) {
                                    let smaller = listing.to_set().remove(x);
                                    assert(spelled(ordered@).to_set().subset_of(smaller));
                                    vstd::set_lib::lemma_len_subset(spelled(ordered@).to_set(), smaller);
                                }
                            }
                        }
                        assert(topologically_sorted(graph, spelled(ordered@)));
                    }
                    return Ok(ordered);
                }
                let mut first: usize = 0;
                proof {
                    assert(exists|i: int| 0 <= i < n && remaining@[i]) by {
                        if forall|i: int| 0 <= i < n ==> !remaining@[i] {
                            assert forall|x: Seq<char>| listing.to_set().contains(x) implies spelled(ordered@).to_set().contains(x) by {
                                let i = listing.index_of(x);
                                assert(!remaining@[i]);
                            }
                            assert(spelled(ordered@).to_set() =~= listing.to_set());
                            spelled(ordered@).unique_seq_to_set();
                            listing.unique_seq_to_set();
                        }
                    }
                    lemma_stuck_is_cyclic(listing, graph, remaining@);
                }
                while first < n && !remaining[first]
                    invariant
                        first <= n,
                        remaining@.len() == n,
                        exists|i: int| first <= i < n && remaining@[i],
                    decreases n - first,
                {
                    first = first + 1;
                }
                proof { assert(spelled(members@)[first as int] == members@[first as int]@); }
                return Err(members[first].clone());
            }
            Some(i) => {
                let ghost before = ordered@;
                proof {
                    assert(!spelled(before).contains(listing[i as int]));
                    assert(spelled(before).to_set().subset_of(listing.to_set().remove(listing[i as int])));
                    spelled(before).unique_seq_to_set();
                    listing.unique_seq_to_set();
                    vstd::set_lib::lemma_len_subset(spelled(before).to_set(), listing.to_set().remove(listing[i as int]));
                }
                let ghost rem_before = remaining@;
                remaining.set(i, false);
                let placed = members[i].clone();
                proof { assert(spelled(members@)[i as int] == members@[i as int]@); }
                ordered.push(placed);
                left = left - 1;
                proof {
                    let after = spelled(ordered@);
                    assert(after =~= spelled(before).push(listing[i as int]));
                    crate::name::lemma_push_to_set(spelled(before), listing[i as int]);
                    assert forall|j: int| 0 <= j < n implies (!remaining@[j] <==> after.contains(listing[j])) by {
                        if j == i {
                            assert(after[before.len() as int] == listing[j]);
                        } else {
                            assert(listing[j] != listing[i as int]);
                            if spelled(before).contains(listing[j]) {
                                assert(after.to_set().contains(listing[j]));
                            }
                            if after.contains(listing[j]) {
                                assert(after.to_set().contains(listing[j]));
                                assert(spelled(before).to_set().contains(listing[j]));
                            }
                        }
                    }
                    assert forall|k: int, p: Seq<char>| 0 <= k < ordered@.len() && #[trigger] graph[after[k]].contains(p)
                        implies after.subrange(0, k).contains(p) by {
                        if k < before.len() {
                            assert(after[k] == spelled(before)[k]);
                            assert(after.subrange(0, k) =~= spelled(before).subrange(0, k));
                        } else {
                            assert(after[k] == listing[i as int]);
                            assert(after.subrange(0, k) =~= spelled(before));
                            assert(graph[listing[i as int]].contains(p));
                            assert(graph[listing[i as int]].subset_of(graph.dom()));
                            assert(!rem_before[listing.index_of(p)]);
                            let j = listing.index_of(p);
                            assert(listing[j] == p);
                            assert(spelled(before).contains(listing[j]));
                        }
                    }
                    assert forall|k: int, x: Seq<char>| 0 <= k < after.len() && #[trigger] ready_after(graph, after.subrange(0, k), x)
                        implies !crate::name::precedes(x, after[k]) by {
                        if k < before.len() {
                            assert(after.subrange(0, k) =~= spelled(before).subrange(0, k));
                            assert(after[k] == spelled(before)[k]);
                        } else {
                            assert(after.subrange(0, k) =~= spelled(before));
                            assert(after[k] == listing[i as int]);
                            assert(listing.to_set().contains(x));
                            let j = listing.index_of(x);
                            assert(listing[j] == x);
                            assert(rem_before[j]);
                            assert(ready(listing, graph, rem_before, j)) by {
                                assert forall|p: Seq<char>| #[trigger] graph[listing[j]].contains(p) implies !rem_before[listing.index_of(p)] by {
                                    assert(graph[listing[j]].subset_of(graph.dom()));
                                    let q = listing.index_of(p);
                                    assert(listing[q] == p);
                                    assert(spelled(before).contains(p));
                                }
                            }
                            if crate::name::precedes(x, listing[i as int]) {
                                if j > i {
                                    assert(crate::name::precedes(listing[i as int], listing[j]));
                                    crate::name::lemma_precedes_order(x, listing[i as int], x);
                                }
                                if j == i {
                                    crate::name::lemma_precedes_order(x, x, x);
                                }
                            }
                        }
                    }
                    assert(after.no_duplicates()) by {
                        assert forall|a: int, b: int| 0 <= a < after.len() && 0 <= b < after.len() && a != b implies after[a] != after[b] by {
                            if a < before.len() && b < before.len() {
                            } else if a == before.len() {
                                assert(spelled(before).contains(after[b]) || b == a);
                            } else {
                                assert(spelled(before).contains(after[a]));
                            }
                        }
                    }
                }
            }
        }
    }
}


/// Whether the `i`th declared identifier is the first one declared twice.
pub open spec fn first_repeat(names: Seq<Seq<char>>, i: int) -> bool {
    &&& 0 <= i < names.len()
    &&& repeats_at(names, i)
    &&& forall|j: int| 0 <= j < i ==> !repeats_at(names, j)
}

/// Whether the `j`th declared edge is the first one that fails to be an edge.
pub open spec fn first_edge_fault(names: Set<Seq<char>>, edges: Seq<(Seq<char>, Seq<char>)>, j: int) -> bool {
    &&& 0 <= j < edges.len()
    &&& edge_fault(names, edges[j])
    &&& forall|k: int| 0 <= k < j ==> !edge_fault(names, edges[k])
}

/// The kind a declaration gives `id`.
pub open spec fn declared_kind(nodes: Seq<(Name, SelectionKind)>, id: Seq<char>) -> SelectionKind {
    nodes[node_names(nodes).index_of(id)].1
}

/// A sequence no member of which repeats an earlier one has no duplicates.
proof fn lemma_no_repeats(names: Seq<Seq<char>>)
    requires
        forall|i: int| 0 <= i < names.len() ==> !repeats_at(names, i),
    ensures
        names.no_duplicates(),
{
    assert forall|a: int, b: int| 0 <= a < names.len() && 0 <= b < names.len() && a != b implies names[a] != names[b] by {
        if a < b {
            assert(!repeats_at(names, b));
            assert(names.subrange(0, b)[a] == names[a]);
        } else {
            assert(!repeats_at(names, a));
            assert(names.subrange(0, a)[b] == names[b]);
        }
    }
}

/// Gather the declared nodes, refusing the first identity declared twice.
fn collect_nodes(nodes: &Vec<(Name, SelectionKind)>) -> (collected: Result<NameSet, CausalError>)
    ensures
        collected is Ok <==> node_names(nodes@).no_duplicates(),
        collected matches Ok(set) ==> set.contents() == node_names(nodes@).to_set(),
        collected matches Err(e) ==> e matches CausalError::RepeatedNode { id }
            && exists|i: int| first_repeat(node_names(nodes@), i) && node_names(nodes@)[i] == id@,
{
    let ghost names = node_names(nodes@);
    let mut set = NameSet::new();
    let mut i: usize = 0;
    while i < nodes.len()
        invariant
            names == node_names(nodes@),
            i <= nodes@.len(),
            set.contents() == names.subrange(0, i as int).to_set(),
            forall|j: int| 0 <= j < i ==> !repeats_at(names, j),
        decreases nodes@.len() - i,
    {
        let id = &nodes[i].0;
        proof { assert(names[i as int] == id@); }
        if set.contains(id) {
            proof {
                assert(repeats_at(names, i as int));
                assert(first_repeat(names, i as int));
                assert(!names.no_duplicates()) by {
                    let k = choose|k: int| 0 <= k < i && names.subrange(0, i as int)[k] == names[i as int];
                    assert(names[k] == names[i as int]);
                }
            }
            return Err(CausalError::RepeatedNode { id: id.clone() });
        }
        set.insert(id.clone());
        proof {
            assert(names.subrange(0, i + 1) =~= names.subrange(0, i as int).push(names[i as int]));
            crate::name::lemma_push_to_set(names.subrange(0, i as int), names[i as int]);
        }
        i = i + 1;
    }
    proof {
        assert(names.subrange(0, i as int) =~= names);
        lemma_no_repeats(names);
    }
    Ok(set)
}

/// The declared kind of each node, in the set's canonical order.
fn kinds_in_order(nodes: &Vec<(Name, SelectionKind)>, set: &NameSet) -> (kinds: Vec<SelectionKind>)
    requires
        node_names(nodes@).no_duplicates(),
        set.contents() == node_names(nodes@).to_set(),
    ensures
        kinds@.len() == set.listing().len(),
        forall|j: int| 0 <= j < kinds@.len() ==> kinds@[j] == declared_kind(nodes@, set.listing()[j]),
{
    let ghost names = node_names(nodes@);
    let members = set.members();
    let mut kinds: Vec<SelectionKind> = Vec::new();
    let mut j: usize = 0;
    while j < members.len()
        invariant
            names == node_names(nodes@),
            names.no_duplicates(),
            set.contents() == names.to_set(),
            spelled(members@) == set.listing(),
            j <= members@.len(),
            kinds@.len() == j,
            forall|m: int| 0 <= m < j ==> kinds@[m] == declared_kind(nodes@, set.listing()[m]),
        decreases members@.len() - j,
    {
        let target = &members[j];
        proof {
            assert(spelled(members@)[j as int] == target@);
            assert(set.listing().to_set().contains(target@));
        }
        let mut k: usize = 0;
        while k < nodes.len()
            invariant
                names == node_names(nodes@),
                names.to_set().contains(target@),
                k <= nodes@.len(),
                forall|m: int| 0 <= m < k ==> names[m] != target@,
            ensures
                k <= nodes@.len(),
                forall|m: int| 0 <= m < k ==> names[m] != target@,
                k < nodes@.len() ==> names[k as int] == target@,
            decreases nodes@.len() - k,
        {
            if nodes[k].0.same(target) {
                proof { assert(names[k as int] == nodes@[k as int].0@); }
                break;
            }
            proof { assert(names[k as int] == nodes@[k as int].0@); }
            k = k + 1;
        }
        if k >= nodes.len() {
            proof {
                let w = choose|w: int| 0 <= w < names.len() && names[w] == target@;
                assert(false);
            }
            return kinds;
        }
        proof {
            assert(names[k as int] == target@);
            assert(names.index_of(target@) == k) by {
                let w = names.index_of(target@);
                assert(names.contains(target@));
                assert(names[w] == target@);
            }
        }
        kinds.push(nodes[k].1);
        j = j + 1;
    }
    kinds
}


/// The first way a selection is not downward-closed.
#[derive(Debug, Clone, PartialEq, Eq)]
pub enum ClosureViolation {
    /// A selected item is not a node of the order at all.
    NotInOrder {
        /// The selected item.
        selected: Name,
    },
    /// A selected item's immediate causal predecessor is not selected.
    MissingPredecessor {
        /// The selected item.
        selected: Name,
        /// The predecessor the selection lacks.
        predecessor: Name,
    },
}

/// A way a causal order fails to be one.
#[derive(Debug, Clone, PartialEq, Eq)]
pub enum CausalError {
    /// One identity is declared as a node twice.
    RepeatedNode {
        /// The repeated identity.
        id: Name,
    },
    /// An edge, or a root, names something that is not a node.
    UnknownEndpoint {
        /// The identity that is not in the order.
        id: Name,
    },
    /// An event declared as its own causal predecessor.
    SelfEdge {
        /// The identity on both ends.
        id: Name,
    },
    /// The edge set is not a strict partial order.
    Cyclic {
        /// The first node, in canonical order, the topological sort could not place.
        first: Name,
    },
}


/// The refusal the first faulty edge earns: its event when that is not a node, else its
/// predecessor when that is not a node, else the event that precedes itself.
pub open spec fn edge_refusal(names: Set<Seq<char>>, edge: (Seq<char>, Seq<char>), error: CausalError) -> bool {
    if !names.contains(edge.0) {
        error matches CausalError::UnknownEndpoint { id } && id@ == edge.0
    } else if !names.contains(edge.1) {
        error matches CausalError::UnknownEndpoint { id } && id@ == edge.1
    } else {
        error matches CausalError::SelfEdge { id } && id@ == edge.0
    }
}

/// The predecessors `edges` give `event`.
pub open spec fn predecessors_in(edges: Seq<(Seq<char>, Seq<char>)>, event: Seq<char>) -> Set<Seq<char>> {
    Set::new(|p: Seq<char>| edges.contains((event, p)))
}

/// Record each declared edge against its event, refusing the first one that is not an edge.
fn link_edges(set: &NameSet, edges: &Vec<(Name, Name)>) -> (linked: Result<Vec<NameSet>, CausalError>)
    ensures
        linked is Ok <==> forall|j: int| 0 <= j < edges@.len() ==> !edge_fault(set.contents(), edge_names(edges@)[j]),
        linked matches Ok(preds) ==> preds@.len() == set.listing().len() && forall|i: int|
            0 <= i < set.listing().len() ==> (#[trigger] preds@[i]).contents() == predecessors_in(edge_names(edges@), set.listing()[i]),
        linked matches Err(e) ==> exists|j: int| first_edge_fault(set.contents(), edge_names(edges@), j)
            && edge_refusal(set.contents(), edge_names(edges@)[j], e),
{
    let ghost pairs = edge_names(edges@);
    let ghost listing = set.listing();
    let n = set.len();
    let members = set.members();
    let mut preds: Vec<NameSet> = Vec::new();
    let mut i: usize = 0;
    while i < n
        invariant
            n == listing.len(),
            i <= n,
            preds@.len() == i,
            forall|m: int| 0 <= m < i ==> (#[trigger] preds@[m]).contents() == Set::<Seq<char>>::empty(),
        decreases n - i,
    {
        preds.push(NameSet::new());
        i = i + 1;
    }
    let mut j: usize = 0;
    while j < edges.len()
        invariant
            pairs == edge_names(edges@),
            listing == set.listing(),
            spelled(members@) == listing,
            listing.no_duplicates(),
            listing.to_set() == set.contents(),
            n == listing.len(),
            preds@.len() == n,
            j <= edges@.len(),
            forall|k: int| 0 <= k < j ==> !edge_fault(set.contents(), pairs[k]),
            forall|m: int| 0 <= m < n ==> (#[trigger] preds@[m]).contents() == predecessors_in(pairs.subrange(0, j as int), listing[m]),
        decreases edges@.len() - j,
    {
        let event = &edges[j].0;
        let pred = &edges[j].1;
        proof { assert(pairs[j as int] == (event@, pred@)); }
        let at = match set.position(event) {
            Some(at) => at,
            None => {
                proof { assert(first_edge_fault(set.contents(), pairs, j as int)); }
                return Err(CausalError::UnknownEndpoint { id: event.clone() });
            }
        };
        if !set.contains(pred) {
            proof {
                assert(set.contents().contains(event@)) by { assert(listing[at as int] == event@); }
                assert(first_edge_fault(set.contents(), pairs, j as int));
            }
            return Err(CausalError::UnknownEndpoint { id: pred.clone() });
        }
        proof { assert(set.contents().contains(event@)) by { assert(listing[at as int] == event@); } }
        if event.same(pred) {
            proof { assert(first_edge_fault(set.contents(), pairs, j as int)); }
            return Err(CausalError::SelfEdge { id: event.clone() });
        }
        let mut updated = preds[at].clone();
        updated.insert(pred.clone());
        let ghost before = preds@;
        preds.set(at, updated);
        proof {
            let prefix = pairs.subrange(0, j as int);
            let next = pairs.subrange(0, j + 1);
            assert(next =~= prefix.push((event@, pred@)));
            assert forall|m: int| 0 <= m < n implies (#[trigger] preds@[m]).contents() == predecessors_in(next, listing[m]) by {
                assert forall|p: Seq<char>| next.contains((listing[m], p)) <==> (prefix.contains((listing[m], p))
                    || (listing[m] == event@ && p == pred@)) by {
                    if next.contains((listing[m], p)) {
                        let w = choose|w: int| 0 <= w < next.len() && next[w] == (listing[m], p);
                        if w < prefix.len() {
                            assert(prefix[w] == (listing[m], p));
                        }
                    }
                    if prefix.contains((listing[m], p)) {
                        let w = choose|w: int| 0 <= w < prefix.len() && prefix[w] == (listing[m], p);
                        assert(next[w] == (listing[m], p));
                    }
                    if listing[m] == event@ && p == pred@ {
                        assert(next[j as int] == (listing[m], p));
                    }
                }
                if m == at {
                    assert(listing[m] == event@);
                    assert(preds@[m].contents() =~= predecessors_in(next, listing[m]));
                } else {
                    assert(listing[m] != event@) by {
                        assert(listing[at as int] == event@);
                    }
                    assert(preds@[m] == before[m]);
                    assert(preds@[m].contents() =~= predecessors_in(next, listing[m]));
                }
            }
        }
        j = j + 1;
    }
    proof {
        assert(pairs.subrange(0, j as int) =~= pairs);
    }
    Ok(preds)
}


/// What declaring `nodes` and `edges` under `completeness` yields: the order they spell when
/// the identities are distinct, every edge joins two distinct nodes and the edges have no cycle;
/// otherwise the first of those to fail, in that order.
pub open spec fn declaration_outcome(
    nodes: Seq<(Name, SelectionKind)>,
    edges: Seq<(Name, Name)>,
    completeness: Completeness,
    outcome: Result<CausalOrder, CausalError>,
) -> bool {
    let names = node_names(nodes);
    let members = names.to_set();
    let pairs = edge_names(edges);
    let well_declared = names.no_duplicates() && forall|j: int| 0 <= j < pairs.len() ==> !edge_fault(members, pairs[j]);
    match outcome {
        Ok(order) => {
            &&& well_declared
            &&& acyclic(declared_graph(names, pairs))
            &&& order.graph() == declared_graph(names, pairs)
            &&& forall|x: Seq<char>| members.contains(x) ==> order.kind_of(x) == declared_kind(nodes, x)
            &&& order.declared_completeness() == completeness
        },
        Err(error) => {
            if !names.no_duplicates() {
                error matches CausalError::RepeatedNode { id } && exists|i: int| first_repeat(names, i) && names[i] == id@
            } else if !well_declared {
                exists|j: int| first_edge_fault(members, pairs, j) && edge_refusal(members, pairs[j], error)
            } else {
                &&& error matches CausalError::Cyclic { first }
                &&& members.contains(first@)
                &&& !acyclic(declared_graph(names, pairs))
                &&& on_cycle(declared_graph(names, pairs), first@)
                &&& forall|y: Seq<char>| #[trigger] on_cycle(declared_graph(names, pairs), y) ==> !precedes(y, first@)
            }
        },
    }
}

impl CausalOrder {
    /// Build a complete causal order: `nodes` and their immediate-predecessor edges, each
    /// `(event, predecessor)`.
    pub fn new(nodes: Vec<(Name, SelectionKind)>, edges: Vec<(Name, Name)>) -> (order: Result<CausalOrder, CausalError>)
        ensures
            declaration_outcome(nodes@, edges@, Completeness::Complete, order),
    {
        CausalOrder::declared(nodes, edges, Completeness::Complete)
    }

    /// Build a causal order the producer declares partial, naming why.
    pub fn partial(
        nodes: Vec<(Name, SelectionKind)>,
        edges: Vec<(Name, Name)>,
        reason: PartialReason,
    ) -> (order: Result<CausalOrder, CausalError>)
        ensures
            declaration_outcome(nodes@, edges@, Completeness::Partial { reason }, order),
    {
        CausalOrder::declared(nodes, edges, Completeness::Partial { reason })
    }

    fn declared(
        nodes: Vec<(Name, SelectionKind)>,
        edges: Vec<(Name, Name)>,
        completeness: Completeness,
    ) -> (order: Result<CausalOrder, CausalError>)
        ensures
            declaration_outcome(nodes@, edges@, completeness, order),
    {
        let ghost names = node_names(nodes@);
        let ghost pairs = edge_names(edges@);
        let set = match collect_nodes(&nodes) {
            Ok(set) => set,
            Err(error) => return Err(error),
        };
        let kinds = kinds_in_order(&nodes, &set);
        let predecessors = match link_edges(&set, &edges) {
            Ok(predecessors) => predecessors,
            Err(error) => return Err(error),
        };
        let members = set.members();
        let ghost listing = set.listing();
        proof {
            assert(listing.to_set() == names.to_set());
            assert forall|i: int| 0 <= i < listing.len() implies predecessors@[i].contents().subset_of(listing.to_set()) by {
                assert forall|p: Seq<char>| predecessors@[i].contents().contains(p) implies listing.to_set().contains(p) by {
                    assert(pairs.contains((listing[i], p)));
                    let w = choose|w: int| 0 <= w < pairs.len() && pairs[w] == (listing[i], p);
                    assert(!edge_fault(names.to_set(), pairs[w]));
                }
            }
            assert(graph_of(listing, contents_of(predecessors@)) =~= declared_graph(names, pairs)) by {
                assert forall|x: Seq<char>| #[trigger] listing.contains(x) implies graph_of(listing, contents_of(predecessors@))[x]
                    == declared_graph(names, pairs)[x] by {
                    let i = listing.index_of(x);
                    lemma_graph_of_at(listing, contents_of(predecessors@), i);
                    assert(listing.to_set().contains(x));
                    assert(names.to_set().contains(x));
                }
                assert forall|x: Seq<char>| listing.contains(x) <==> names.contains(x) by {
                    assert(listing.to_set().contains(x) == names.to_set().contains(x));
                }
            }
        }
        match kahn(&set, &predecessors) {
            Ok(topological) => {
                proof { lemma_sorted_is_acyclic(graph_of(listing, contents_of(predecessors@)), spelled(topological@)); }
                let order = CausalOrder { nodes: set, kinds, predecessors, completeness };
                proof {
                    assert forall|x: Seq<char>| names.to_set().contains(x) implies order.kind_of(x) == declared_kind(nodes@, x) by {
                        assert(listing.to_set().contains(x));
                        let i = listing.index_of(x);
                        lemma_graph_of_at(listing, contents_of(order.predecessors@), i);
                    }
                }
                Ok(order)
            },
            Err(_) => {
                let first = first_on_cycle(&set, &predecessors);
                Err(CausalError::Cyclic { first })
            },
        }
    }

    /// A deterministic topological order: every node after all of its predecessors, ties
    /// broken by canonical order.
    pub fn topological_order(&self) -> (order: Vec<Name>)
        ensures
            topologically_sorted(self.graph(), spelled(order@)),
            takes_least_ready(self.graph(), spelled(order@)),
            spelled(order@) == canonical_order(self.graph()),
    {
        self.facts();
        proof { use_type_invariant(self); }
        let members = self.nodes.members();
        match kahn(&self.nodes, &self.predecessors) {
            Ok(order) => {
                proof {
                    let graph = self.graph();
                    let found = spelled(order@);
                    assert(topologically_sorted(graph, found) && takes_least_ready(graph, found));
                    let chosen = canonical_order(graph);
                    law_topological_order_is_unique(graph, chosen, found);
                }
                order
            },
            Err(_) => {
                proof { assert(false); }
                Vec::new()
            },
        }
    }
}


/// Whether `closed` is the backward closure of `roots` in `graph`: it holds the roots, only
/// nodes, every predecessor of each member, and lies inside every set that does as much.
pub open spec fn is_backward_closure(graph: Graph, roots: Set<Seq<char>>, closed: Set<Seq<char>>) -> bool {
    &&& roots.subset_of(closed)
    &&& closed.subset_of(graph.dom())
    &&& downward_closed(graph, closed)
    &&& forall|s: Set<Seq<char>>| roots.subset_of(s) && #[trigger] downward_closed(graph, s) ==> closed.subset_of(s)
}

/// Whether `x` is where `selection` fails to be downward-closed.
pub open spec fn violates(graph: Graph, selection: Set<Seq<char>>, x: Seq<char>) -> bool {
    selection.contains(x) && (!graph.dom().contains(x) || !graph[x].subset_of(selection))
}

/// What the independent closure check reports on `selection`, listed canonically: nothing
/// when it is a downward-closed set of nodes, else the first member where it fails and,
/// for a missing predecessor, the first one missing.
pub open spec fn closure_report(
    graph: Graph,
    selection: Set<Seq<char>>,
    listed: Seq<Seq<char>>,
    report: Option<ClosureViolation>,
) -> bool {
    match report {
        None => selection.subset_of(graph.dom()) && downward_closed(graph, selection),
        Some(ClosureViolation::NotInOrder { selected }) => exists|k: int| {
            &&& 0 <= k < listed.len()
            &&& listed[k] == selected@
            &&& !graph.dom().contains(selected@)
            &&& forall|m: int| 0 <= m < k ==> !violates(graph, selection, listed[m])
        },
        Some(ClosureViolation::MissingPredecessor { selected, predecessor }) => exists|k: int| {
            &&& 0 <= k < listed.len()
            &&& listed[k] == selected@
            &&& graph.dom().contains(selected@)
            &&& forall|m: int| 0 <= m < k ==> !violates(graph, selection, listed[m])
            &&& graph[selected@].contains(predecessor@)
            &&& !selection.contains(predecessor@)
            &&& forall|q: Seq<char>| graph[selected@].contains(q) && crate::name::precedes(q, predecessor@)
                ==> selection.contains(q)
        },
    }
}

/// The backward closure of `roots` in the graph `nodes` and `predecessors` spell: the roots
/// plus every ancestor of any of them.
fn closure_in(nodes: &NameSet, predecessors: &Vec<NameSet>, roots: &NameSet) -> (closed: NameSet)
    requires
        strictly_ascending(nodes.listing()),
        predecessors@.len() == nodes.listing().len(),
        forall|i: int| 0 <= i < nodes.listing().len() ==> predecessors@[i].contents().subset_of(nodes.listing().to_set()),
        roots.contents().subset_of(nodes.listing().to_set()),
    ensures
        is_backward_closure(graph_of(nodes.listing(), contents_of(predecessors@)), roots.contents(), closed.contents()),
{
    let ghost graph = graph_of(nodes.listing(), contents_of(predecessors@));
    proof {
        let listing = nodes.listing();
        lemma_ascending_no_duplicates(listing);
        assert(graph.dom() =~= listing.to_set());
        assert forall|i: int| 0 <= i < listing.len() implies graph[listing[i]] == #[trigger] predecessors@[i].contents() by {
            lemma_graph_of_at(listing, contents_of(predecessors@), i);
        }
        assert forall|e: Seq<char>| #[trigger] graph.dom().contains(e) implies graph[e].subset_of(graph.dom()) by {
            let i = listing.index_of(e);
            lemma_graph_of_at(listing, contents_of(predecessors@), i);
        }
    }
    let seeds = roots.members();
        let mut closed = NameSet::new();
        let mut frontier: Vec<Name> = Vec::new();
        let mut k: usize = 0;
        while k < seeds.len()
            invariant
                spelled(seeds@) == roots.listing(),
                k <= seeds@.len(),
                spelled(frontier@) =~= roots.listing().subrange(0, k as int),
            decreases seeds@.len() - k,
        {
            let ghost before = frontier@;
            frontier.push(seeds[k].clone());
            proof {
                assert(spelled(frontier@) =~= spelled(before).push(seeds@[k as int]@));
                assert(spelled(seeds@)[k as int] == seeds@[k as int]@);
            }
            k = k + 1;
        }
        proof {
            assert(roots.listing().subrange(0, k as int) =~= roots.listing());
        }
        loop
            invariant
                graph == graph,
                graph.dom() == nodes.listing().to_set(),
                nodes.listing().no_duplicates(),
                predecessors@.len() == nodes.listing().len(),
                forall|i: int| 0 <= i < nodes.listing().len() ==> graph[nodes.listing()[i]] == #[trigger] predecessors@[i].contents(),
                forall|e: Seq<char>| #[trigger] graph.dom().contains(e) ==> graph[e].subset_of(graph.dom()),
                roots.contents().subset_of(graph.dom()),
                closed.contents().subset_of(graph.dom()),
                spelled(frontier@).to_set().subset_of(graph.dom()),
                roots.contents().subset_of(closed.contents().union(spelled(frontier@).to_set())),
                forall|x: Seq<char>| #[trigger] closed.contents().contains(x)
                    ==> graph[x].subset_of(closed.contents().union(spelled(frontier@).to_set())),
                forall|s: Set<Seq<char>>| roots.contents().subset_of(s) && #[trigger] downward_closed(graph, s)
                    ==> closed.contents().subset_of(s) && spelled(frontier@).to_set().subset_of(s),
            ensures
                frontier@.len() == 0,
                closed.contents().subset_of(graph.dom()),
                roots.contents().subset_of(closed.contents().union(spelled(frontier@).to_set())),
                forall|x: Seq<char>| #[trigger] closed.contents().contains(x)
                    ==> graph[x].subset_of(closed.contents().union(spelled(frontier@).to_set())),
                forall|s: Set<Seq<char>>| roots.contents().subset_of(s) && #[trigger] downward_closed(graph, s)
                    ==> closed.contents().subset_of(s),
            decreases graph.dom().len() - closed.contents().len(), frontier@.len(),
        {
            let ghost closed_before = closed.contents();
            let ghost frontier_before = spelled(frontier@);
            let id = match frontier.pop() {
                None => break,
                Some(id) => id,
            };
            proof {
                assert(frontier_before =~= spelled(frontier@).push(id@));
                crate::name::lemma_push_to_set(spelled(frontier@), id@);
                nodes.listing().unique_seq_to_set();
                let _ = closed.listing();
            }
            let ghost closed_len_before = closed.listing().len();
            let fresh = closed.insert(id.clone());
            if fresh {
                let at = match nodes.position(&id) {
                    Some(at) => at,
                    None => {
                        proof { assert(false); }
                        return closed;
                    },
                };
                let preds = predecessors[at].members();
                proof {
                    assert(nodes.listing()[at as int] == id@);
                    assert(graph[id@] == predecessors@[at as int].contents());
                }
                let mut m: usize = 0;
                let ghost frontier_mid = spelled(frontier@);
                while m < preds.len()
                    invariant
                        spelled(preds@) == predecessors@[at as int].listing(),
                        m <= preds@.len(),
                        spelled(frontier@) == frontier_mid + spelled(preds@).subrange(0, m as int),
                    decreases preds@.len() - m,
                {
                    let ghost before = frontier@;
                    frontier.push(preds[m].clone());
                    proof {
                        assert(spelled(frontier@) =~= spelled(before).push(preds@[m as int]@));
                        assert(spelled(preds@)[m as int] == preds@[m as int]@);
                        assert(spelled(preds@).subrange(0, m + 1) =~= spelled(preds@).subrange(0, m as int).push(preds@[m as int]@));
                    }
                    m = m + 1;
                }
                proof {
                    let added = spelled(preds@);
                    assert(added.subrange(0, m as int) =~= added);
                    assert(spelled(frontier@) == frontier_mid + added);
                    assert forall|x: Seq<char>| spelled(frontier@).to_set().contains(x)
                        <==> (frontier_mid.to_set().contains(x) || graph[id@].contains(x)) by {
                        let f = spelled(frontier@);
                        if f.contains(x) {
                            let w = choose|w: int| 0 <= w < f.len() && f[w] == x;
                            if w < frontier_mid.len() {
                                assert(frontier_mid[w] == x);
                            } else {
                                assert(added[w - frontier_mid.len()] == x);
                            }
                        }
                        if frontier_mid.contains(x) {
                            let w = choose|w: int| 0 <= w < frontier_mid.len() && frontier_mid[w] == x;
                            assert(f[w] == x);
                        }
                        if graph[id@].contains(x) {
                            assert(added.contains(x));
                            let w = choose|w: int| 0 <= w < added.len() && added[w] == x;
                            assert(f[frontier_mid.len() + w] == x);
                        }
                    }
                    assert(graph.dom().contains(id@));
                    assert(closed_before.subset_of(graph.dom().remove(id@)));
                    vstd::set_lib::lemma_len_subset(closed_before, graph.dom().remove(id@));
                    assert forall|s: Set<Seq<char>>| roots.contents().subset_of(s) && #[trigger] downward_closed(graph, s)
                        implies closed.contents().subset_of(s) && spelled(frontier@).to_set().subset_of(s) by {
                        assert(frontier_before.to_set().subset_of(s));
                        assert(s.contains(id@));
                        assert forall|x: Seq<char>| graph[id@].contains(x) implies s.contains(x) by {}
                    }
                    assert forall|x: Seq<char>| #[trigger] closed.contents().contains(x)
                        implies graph[x].subset_of(closed.contents().union(spelled(frontier@).to_set())) by {
                        if x == id@ {
                            assert forall|y: Seq<char>| graph[id@].contains(y) implies closed.contents().union(spelled(frontier@).to_set()).contains(y) by {
                                let added = spelled(preds@);
                                assert(predecessors@[at as int].contents().contains(y));
                                assert(added.contains(y));
                                let w = choose|w: int| 0 <= w < added.len() && added[w] == y;
                                assert(spelled(frontier@)[frontier_mid.len() + w] == y);
                                assert(spelled(frontier@).contains(y));
                            }
                        }
                        if x != id@ {
                            assert(closed_before.contains(x));
                            assert forall|y: Seq<char>| graph[x].contains(y) implies closed.contents().union(spelled(frontier@).to_set()).contains(y) by {
                                assert(closed_before.union(frontier_before.to_set()).contains(y));
                                if frontier_before.to_set().contains(y) && y != id@ {
                                    assert(frontier_mid.to_set().contains(y));
                                }
                            }
                        }
                    }
                    assert forall|x: Seq<char>| roots.contents().contains(x) implies closed.contents().union(spelled(frontier@).to_set()).contains(x) by {
                        assert(closed_before.union(frontier_before.to_set()).contains(x));
                        if frontier_before.to_set().contains(x) && x != id@ {
                            assert(frontier_mid.to_set().contains(x));
                        }
                    }
                }
            } else {
                proof {
                    assert(closed.contents() == closed_before);
                    assert(closed_before.contains(id@));
                    assert forall|s: Set<Seq<char>>| roots.contents().subset_of(s) && #[trigger] downward_closed(graph, s)
                        implies closed.contents().subset_of(s) && spelled(frontier@).to_set().subset_of(s) by {
                        assert(frontier_before.to_set().subset_of(s));
                    }
                    assert forall|x: Seq<char>| #[trigger] closed.contents().contains(x)
                        implies graph[x].subset_of(closed.contents().union(spelled(frontier@).to_set())) by {
                        assert forall|y: Seq<char>| graph[x].contains(y) implies closed.contents().union(spelled(frontier@).to_set()).contains(y) by {
                            assert(closed_before.union(frontier_before.to_set()).contains(y));
                        }
                    }
                    assert forall|x: Seq<char>| roots.contents().contains(x) implies closed.contents().union(spelled(frontier@).to_set()).contains(x) by {
                        assert(closed_before.union(frontier_before.to_set()).contains(x));
                    }
                }
            }
        }
        proof {
            assert(spelled(frontier@).to_set() =~= Set::<Seq<char>>::empty());
            assert(closed.contents().union(spelled(frontier@).to_set()) =~= closed.contents());
        }
        closed
}

/// Whether `x` lies on a cycle: it is a node and among the ancestors of its own immediate
/// predecessors.
pub open spec fn on_cycle(graph: Graph, x: Seq<char>) -> bool {
    graph.dom().contains(x) && closure_of(graph, graph[x]).contains(x)
}

/// A graph over finitely many nodes in which no node lies on a cycle is acyclic: the size of a
/// node's strict ancestry ranks it above each of its predecessors.
proof fn lemma_no_cycle_is_acyclic(graph: Graph)
    requires
        graph.dom().finite(),
        forall|e: Seq<char>| #[trigger] graph.dom().contains(e) ==> graph[e].subset_of(graph.dom()),
        forall|x: Seq<char>| #[trigger] graph.dom().contains(x) ==> exists|c: Set<Seq<char>>| is_backward_closure(graph, graph[x], c),
        forall|x: Seq<char>| #[trigger] graph.dom().contains(x) ==> !on_cycle(graph, x),
    ensures
        acyclic(graph),
{
    let rank = |x: Seq<char>| closure_of(graph, graph[x]).len() as int;
    assert forall|e: Seq<char>, p: Seq<char>| graph.dom().contains(e) && #[trigger] graph[e].contains(p) implies rank(p) < rank(e) by {
        assert(graph.dom().contains(p));
        let ce = choose|c: Set<Seq<char>>| is_backward_closure(graph, graph[e], c);
        let cp = choose|c: Set<Seq<char>>| is_backward_closure(graph, graph[p], c);
        assert(is_backward_closure(graph, graph[e], ce));
        assert(is_backward_closure(graph, graph[p], cp));
        let b = closure_of(graph, graph[e]);
        let a = closure_of(graph, graph[p]);
        law_backward_closure_is_unique(graph, graph[e], ce, b);
        law_backward_closure_is_unique(graph, graph[p], cp, a);
        assert(b.contains(p));
        assert(graph[p].subset_of(b)) by {
            assert forall|q: Seq<char>| graph[p].contains(q) implies b.contains(q) by {
                assert(downward_closed(graph, b));
            }
        }
        assert(a.subset_of(b));
        assert(!a.contains(p));
        assert(a.subset_of(b.remove(p)));
        vstd::set_lib::lemma_len_subset(b, graph.dom());
        vstd::set_lib::lemma_len_subset(a, b.remove(p));
    }
    assert(ranks_strictly(graph, rank));
}

/// The least node, in canonical order, that lies on a cycle of a graph that has one.
fn first_on_cycle(nodes: &NameSet, predecessors: &Vec<NameSet>) -> (first: Name)
    requires
        strictly_ascending(nodes.listing()),
        predecessors@.len() == nodes.listing().len(),
        forall|i: int| 0 <= i < nodes.listing().len() ==> predecessors@[i].contents().subset_of(nodes.listing().to_set()),
        !acyclic(graph_of(nodes.listing(), contents_of(predecessors@))),
    ensures
        on_cycle(graph_of(nodes.listing(), contents_of(predecessors@)), first@),
        forall|y: Seq<char>| #[trigger] on_cycle(graph_of(nodes.listing(), contents_of(predecessors@)), y)
            ==> !precedes(y, first@),
{
    let ghost listing = nodes.listing();
    let ghost graph = graph_of(listing, contents_of(predecessors@));
    let members = nodes.members();
    proof {
        lemma_ascending_no_duplicates(listing);
        assert(graph.dom() =~= listing.to_set());
        assert forall|k: int| 0 <= k < listing.len() implies graph[listing[k]] == #[trigger] predecessors@[k].contents() by {
            lemma_graph_of_at(listing, contents_of(predecessors@), k);
        }
    }
    let mut i: usize = 0;
    while i < members.len()
        invariant
            spelled(members@) == listing,
            listing == nodes.listing(),
            graph == graph_of(listing, contents_of(predecessors@)),
            strictly_ascending(listing),
            listing.no_duplicates(),
            graph.dom() == listing.to_set(),
            predecessors@.len() == listing.len(),
            forall|k: int| 0 <= k < listing.len() ==> predecessors@[k].contents().subset_of(listing.to_set()),
            forall|k: int| 0 <= k < listing.len() ==> graph[listing[k]] == #[trigger] predecessors@[k].contents(),
            i <= members@.len(),
            forall|k: int| 0 <= k < i ==> !#[trigger] on_cycle(graph, listing[k]),
            forall|k: int| 0 <= k < i ==> is_backward_closure(graph, #[trigger] graph[listing[k]], closure_of(graph, graph[listing[k]])),
        decreases members@.len() - i,
    {
        proof { assert(spelled(members@)[i as int] == members@[i as int]@); }
        let closed = closure_in(nodes, predecessors, &predecessors[i]);
        proof {
            assert(graph[listing[i as int]] == predecessors@[i as int].contents());
            assert(is_backward_closure(graph, graph[listing[i as int]], closed.contents()));
            assert(is_backward_closure(graph, graph[listing[i as int]], closure_of(graph, graph[listing[i as int]])));
            law_backward_closure_is_unique(graph, graph[listing[i as int]], closed.contents(), closure_of(graph, graph[listing[i as int]]));
        }
        if closed.contains(&members[i]) {
            proof {
                assert(listing.to_set().contains(listing[i as int]));
                assert forall|y: Seq<char>| #[trigger] on_cycle(graph, y) implies !precedes(y, members@[i as int]@) by {
                    assert(listing.to_set().contains(y));
                    let m = choose|m: int| 0 <= m < listing.len() && listing[m] == y;
                    if m >= i {
                        if m > i {
                            assert(precedes(listing[i as int], listing[m]));
                        }
                        lemma_precedes_order(y, listing[i as int], y);
                    }
                }
            }
            return members[i].clone();
        }
        i = i + 1;
    }
    proof {
        assert forall|e: Seq<char>| #[trigger] graph.dom().contains(e) implies graph[e].subset_of(graph.dom()) by {
            let k = listing.index_of(e);
        }
        assert forall|x: Seq<char>| #[trigger] graph.dom().contains(x) implies exists|c: Set<Seq<char>>| is_backward_closure(graph, graph[x], c) && !on_cycle(graph, x) by {
            assert(listing.contains(x));
            let k = listing.index_of(x);
            assert(listing[k] == x);
            assert(is_backward_closure(graph, graph[listing[k]], closure_of(graph, graph[listing[k]])));
        }
        lemma_no_cycle_is_acyclic(graph);
    }
    members[0].clone()
}

impl CausalOrder {
    /// The backward closure of `roots`: the roots plus every causal ancestor of any of them.
    /// Refuses, naming the first in canonical order, a root that is not a node.
    pub fn backward_closure(&self, roots: &NameSet) -> (closure: Result<NameSet, CausalError>)
        ensures
            closure is Ok <==> roots.contents().subset_of(self.graph().dom()),
            closure matches Ok(closed) ==> is_backward_closure(self.graph(), roots.contents(), closed.contents()),
            closure matches Err(e) ==> e matches CausalError::UnknownEndpoint { id } && exists|k: int| {
                &&& 0 <= k < roots.listing().len()
                &&& roots.listing()[k] == id@
                &&& !self.graph().dom().contains(id@)
                &&& forall|m: int| 0 <= m < k ==> self.graph().dom().contains(roots.listing()[m])
            },
    {
        self.facts();
        let ghost graph = self.graph();
        let seeds = roots.members();
        let mut k: usize = 0;
        while k < seeds.len()
            invariant
                spelled(seeds@) == roots.listing(),
                graph == self.graph(),
                k <= seeds@.len(),
                forall|m: int| 0 <= m < k ==> graph.dom().contains(roots.listing()[m]),
            decreases seeds@.len() - k,
        {
            proof { assert(spelled(seeds@)[k as int] == seeds@[k as int]@); }
            if !self.contains(&seeds[k]) {
                return Err(CausalError::UnknownEndpoint { id: seeds[k].clone() });
            }
            k = k + 1;
        }
        proof {
            assert forall|x: Seq<char>| roots.contents().contains(x) implies graph.dom().contains(x) by {
                let m = choose|m: int| 0 <= m < roots.listing().len() && roots.listing()[m] == x;
            }
        }
        proof {
            assert forall|x: Seq<char>| roots.contents().contains(x) implies self.listing().to_set().contains(x) by {}
        }
        let closed = closure_in(&self.nodes, &self.predecessors, roots);
        Ok(closed)
    }

    /// The independent closure check: the first way `selection` fails to be downward-closed
    /// under this order, in canonical order, or `None` when it is closed.
    pub fn closure_violation(&self, selection: &NameSet) -> (report: Option<ClosureViolation>)
        ensures
            closure_report(self.graph(), selection.contents(), selection.listing(), report),
    {
        self.facts();
        let ghost graph = self.graph();
        let selected = selection.members();
        let mut k: usize = 0;
        while k < selected.len()
            invariant
                graph == self.graph(),
                spelled(selected@) == selection.listing(),
                self.listing().no_duplicates(),
                self.predecessors@.len() == self.listing().len(),
                forall|i: int| 0 <= i < self.listing().len() ==> graph[self.listing()[i]] == #[trigger] self.predecessors@[i].contents(),
                graph.dom() == self.listing().to_set(),
                k <= selected@.len(),
                forall|m: int| 0 <= m < k ==> !violates(graph, selection.contents(), selection.listing()[m]),
            decreases selected@.len() - k,
        {
            let item = &selected[k];
            proof { assert(spelled(selected@)[k as int] == item@); }
            let at = match self.nodes.position(item) {
                Some(at) => at,
                None => {
                    let report = Some(ClosureViolation::NotInOrder { selected: item.clone() });
                    proof {
                        assert(selection.listing()[k as int] == item@);
                        assert(closure_report(graph, selection.contents(), selection.listing(), report));
                    }
                    return report;
                },
            };
            proof {
                assert(self.listing()[at as int] == item@);
                assert(graph.dom().contains(item@));
            }
            let preds = self.predecessors[at].members();
            let mut m: usize = 0;
            while m < preds.len()
                invariant
                    spelled(preds@) == self.predecessors@[at as int].listing(),
                    crate::name::strictly_ascending(spelled(preds@)),
                    graph[item@] == self.predecessors@[at as int].contents(),
                    graph == self.graph(),
                    graph.dom().contains(item@),
                    spelled(selected@) == selection.listing(),
                    k < selected@.len(),
                    item@ == selection.listing()[k as int],
                    forall|j: int| 0 <= j < k ==> !violates(graph, selection.contents(), selection.listing()[j]),
                    m <= preds@.len(),
                    forall|j: int| 0 <= j < m ==> selection.contents().contains(spelled(preds@)[j]),
                decreases preds@.len() - m,
            {
                let p = &preds[m];
                proof { assert(spelled(preds@)[m as int] == p@); }
                if !selection.contains(p) {
                    proof {
                        assert(graph[item@].contains(p@));
                        assert forall|q: Seq<char>| graph[item@].contains(q) && crate::name::precedes(q, p@)
                            implies selection.contents().contains(q) by {
                            let w = choose|w: int| 0 <= w < spelled(preds@).len() && spelled(preds@)[w] == q;
                            if w >= m {
                                if w > m {
                                    crate::name::lemma_precedes_order(p@, q, p@);
                                }
                                crate::name::lemma_precedes_order(q, q, q);
                            }
                        }
                        assert(selection.listing()[k as int] == item@);
                    }
                    let report = Some(ClosureViolation::MissingPredecessor { selected: item.clone(), predecessor: p.clone() });
                    proof {
                        assert(closure_report(graph, selection.contents(), selection.listing(), report));
                    }
                    return report;
                }
                m = m + 1;
            }
            proof {
                assert forall|q: Seq<char>| graph[item@].contains(q) implies selection.contents().contains(q) by {
                    let w = choose|w: int| 0 <= w < spelled(preds@).len() && spelled(preds@)[w] == q;
                }
            }
            k = k + 1;
        }
        proof {
            assert forall|x: Seq<char>| selection.contents().contains(x) implies graph.dom().contains(x) && graph[x].subset_of(selection.contents()) by {
                let w = choose|w: int| 0 <= w < selection.listing().len() && selection.listing()[w] == x;
                assert(!violates(graph, selection.contents(), selection.listing()[w]));
            }
        }
        None
    }

    /// Whether `selection` is a downward-closed set of this order's nodes.
    pub fn is_downward_closed(&self, selection: &NameSet) -> (closed: bool)
        ensures
            closed == (selection.contents().subset_of(self.graph().dom()) && downward_closed(self.graph(), selection.contents())),
    {
        let report = self.closure_violation(selection);
        proof { lemma_report_none_iff_closed(self.graph(), selection.contents(), selection.listing(), report); }
        report.is_none()
    }
}

/// The closure check reports nothing exactly when the selection is a downward-closed set of
/// nodes.
pub proof fn lemma_report_none_iff_closed(
    graph: Graph,
    selection: Set<Seq<char>>,
    listed: Seq<Seq<char>>,
    report: Option<ClosureViolation>,
)
    requires
        closure_report(graph, selection, listed, report),
        listed.to_set() == selection,
    ensures
        report is None <==> (selection.subset_of(graph.dom()) && downward_closed(graph, selection)),
{
    match report {
        Some(ClosureViolation::NotInOrder { selected }) => {
            let k = choose|k: int| {
                &&& 0 <= k < listed.len()
                &&& listed[k] == selected@
                &&& !graph.dom().contains(selected@)
                &&& forall|m: int| 0 <= m < k ==> !violates(graph, selection, listed[m])
            };
            assert(listed.to_set().contains(listed[k]));
        },
        Some(ClosureViolation::MissingPredecessor { selected, predecessor }) => {
            let k = choose|k: int| {
                &&& 0 <= k < listed.len()
                &&& listed[k] == selected@
                &&& graph.dom().contains(selected@)
                &&& forall|m: int| 0 <= m < k ==> !violates(graph, selection, listed[m])
                &&& graph[selected@].contains(predecessor@)
                &&& !selection.contains(predecessor@)
                &&& forall|q: Seq<char>| graph[selected@].contains(q) && crate::name::precedes(q, predecessor@)
                    ==> selection.contains(q)
            };
            assert(listed.to_set().contains(listed[k]));
        },
        None => {},
    }
}

/// The backward closure of `roots` in `graph`.
pub open spec fn closure_of(graph: Graph, roots: Set<Seq<char>>) -> Set<Seq<char>> {
    choose|closed: Set<Seq<char>>| is_backward_closure(graph, roots, closed)
}

/// Two backward closures of one set of roots are one set: stage 2 is a function of the order
/// and the roots alone.
pub proof fn law_backward_closure_is_unique(graph: Graph, roots: Set<Seq<char>>, a: Set<Seq<char>>, b: Set<Seq<char>>)
    requires
        is_backward_closure(graph, roots, a),
        is_backward_closure(graph, roots, b),
    ensures
        a == b,
        closure_of(graph, roots) == a,
{
    assert(downward_closed(graph, a));
    assert(downward_closed(graph, b));
    assert(a.subset_of(b));
    assert(b.subset_of(a));
    assert(a =~= b);
    let c = closure_of(graph, roots);
    assert(is_backward_closure(graph, roots, c));
    assert(downward_closed(graph, c));
    assert(c.subset_of(a) && a.subset_of(c));
    assert(c =~= a);
}

/// What stage 2 slices always passes the independent closure check: a backward closure is a
/// downward-closed set of nodes.
pub proof fn law_backward_closure_is_causally_closed(graph: Graph, roots: Set<Seq<char>>, closed: Set<Seq<char>>)
    requires
        is_backward_closure(graph, roots, closed),
    ensures
        closed.subset_of(graph.dom()),
        downward_closed(graph, closed),
{
}

/// A downward-closed set of nodes is its own backward closure: slicing a slice changes nothing.
pub proof fn law_closed_set_is_its_own_closure(graph: Graph, selection: Set<Seq<char>>)
    requires
        selection.subset_of(graph.dom()),
        downward_closed(graph, selection),
    ensures
        is_backward_closure(graph, selection, selection),
{
}

/// More roots never slice less.
pub proof fn law_backward_closure_is_monotone(
    graph: Graph,
    fewer: Set<Seq<char>>,
    more: Set<Seq<char>>,
    small: Set<Seq<char>>,
    large: Set<Seq<char>>,
)
    requires
        fewer.subset_of(more),
        is_backward_closure(graph, fewer, small),
        is_backward_closure(graph, more, large),
    ensures
        small.subset_of(large),
{
    assert(downward_closed(graph, large));
}

/// The topological order of a graph that has one: every node after all of its predecessors,
/// the least ready node in canonical order taken each round.
pub open spec fn canonical_order(graph: Graph) -> Seq<Seq<char>> {
    choose|order: Seq<Seq<char>>| topologically_sorted(graph, order) && takes_least_ready(graph, order)
}

/// The topological order is one sequence: two orders that each list every node after its
/// predecessors, taking the least ready node each round, are the same order.
pub proof fn law_topological_order_is_unique(graph: Graph, a: Seq<Seq<char>>, b: Seq<Seq<char>>)
    requires
        topologically_sorted(graph, a),
        topologically_sorted(graph, b),
        takes_least_ready(graph, a),
        takes_least_ready(graph, b),
    ensures
        a == b,
{
    a.unique_seq_to_set();
    b.unique_seq_to_set();
    assert(a.len() == b.len());
    lemma_least_ready_prefix(graph, a, b, a.len() as int);
    assert(a =~= b);
}

/// Two least-ready topological orders agree on their first `k` nodes.
proof fn lemma_least_ready_prefix(graph: Graph, a: Seq<Seq<char>>, b: Seq<Seq<char>>, k: int)
    requires
        topologically_sorted(graph, a),
        topologically_sorted(graph, b),
        takes_least_ready(graph, a),
        takes_least_ready(graph, b),
        a.len() == b.len(),
        0 <= k <= a.len(),
    ensures
        forall|i: int| 0 <= i < k ==> a[i] == b[i],
    decreases k,
{
    if k > 0 {
        lemma_least_ready_prefix(graph, a, b, k - 1);
        let m = k - 1;
        let prefix = a.subrange(0, m);
        assert(prefix =~= b.subrange(0, m));
        assert forall|x: Seq<char>| (x == a[m] || x == b[m]) implies ready_after(graph, prefix, x) by {
            if x == a[m] {
                assert(a.to_set().contains(x));
                assert forall|p: Seq<char>| #[trigger] graph[x].contains(p) implies prefix.contains(p) by {}
                if prefix.contains(x) {
                    let j = choose|j: int| 0 <= j < prefix.len() && prefix[j] == x;
                    assert(a[j] == a[m]);
                }
            } else {
                assert(b.to_set().contains(x));
                assert forall|p: Seq<char>| #[trigger] graph[x].contains(p) implies prefix.contains(p) by {
                    assert(b.subrange(0, m).contains(p));
                }
                if prefix.contains(x) {
                    let j = choose|j: int| 0 <= j < prefix.len() && prefix[j] == x;
                    assert(b[j] == b[m]);
                }
            }
        }
        assert(ready_after(graph, a.subrange(0, m), b[m]));
        assert(ready_after(graph, b.subrange(0, m), a[m]));
        crate::name::lemma_precedes_order(a[m], b[m], a[m]);
    }
}


impl ClosureViolation {
    /// The violation's explanation.
    pub open spec fn explanation(&self) -> Seq<char> {
        match self {
            ClosureViolation::NotInOrder { selected } =>
                "`"@ + selected@ + "` is selected but is not a node of the causal order"@,
            ClosureViolation::MissingPredecessor { selected, predecessor } =>
                "`"@ + selected@ + "` is selected and its causal predecessor `"@ + predecessor@
                    + "` is not; an unselected causal predecessor breaks `CausallyClosed`"@,
        }
    }

    /// The violation's explanation.
    pub fn message(&self) -> (text: String)
        ensures
            text@ == self.explanation(),
    {
        let mut out = String::new();
        match self {
            ClosureViolation::NotInOrder { selected } => {
                crate::json::write_raw(&mut out, "`");
                crate::json::write_raw(&mut out, selected.as_str());
                crate::json::write_raw(&mut out, "` is selected but is not a node of the causal order");
            },
            ClosureViolation::MissingPredecessor { selected, predecessor } => {
                crate::json::write_raw(&mut out, "`");
                crate::json::write_raw(&mut out, selected.as_str());
                crate::json::write_raw(&mut out, "` is selected and its causal predecessor `");
                crate::json::write_raw(&mut out, predecessor.as_str());
                crate::json::write_raw(&mut out, "` is not; an unselected causal predecessor breaks `CausallyClosed`");
            },
        }
        proof { assert(out@ =~= self.explanation()); }
        out
    }
}

impl CausalError {
    /// The refusal's explanation.
    pub open spec fn explanation(&self) -> Seq<char> {
        match self {
            CausalError::RepeatedNode { id } => "`"@ + id@ + "` is declared as a node twice"@,
            CausalError::UnknownEndpoint { id } => "`"@ + id@ + "` is not a node of this causal order"@,
            CausalError::SelfEdge { id } => "`"@ + id@ + "` cannot causally precede itself"@,
            CausalError::Cyclic { first } => "the edge set has a cycle through `"@ + first@ + "`, so it is not a causal order"@,
        }
    }

    /// The refusal's explanation.
    pub fn message(&self) -> (text: String)
        ensures
            text@ == self.explanation(),
    {
        let mut out = String::new();
        match self {
            CausalError::RepeatedNode { id } => {
                crate::json::write_raw(&mut out, "`");
                crate::json::write_raw(&mut out, id.as_str());
                crate::json::write_raw(&mut out, "` is declared as a node twice");
            },
            CausalError::UnknownEndpoint { id } => {
                crate::json::write_raw(&mut out, "`");
                crate::json::write_raw(&mut out, id.as_str());
                crate::json::write_raw(&mut out, "` is not a node of this causal order");
            },
            CausalError::SelfEdge { id } => {
                crate::json::write_raw(&mut out, "`");
                crate::json::write_raw(&mut out, id.as_str());
                crate::json::write_raw(&mut out, "` cannot causally precede itself");
            },
            CausalError::Cyclic { first } => {
                crate::json::write_raw(&mut out, "the edge set has a cycle through `");
                crate::json::write_raw(&mut out, first.as_str());
                crate::json::write_raw(&mut out, "`, so it is not a causal order");
            },
        }
        proof { assert(out@ =~= self.explanation()); }
        out
    }
}

} // verus!
