//! Closed accounting: every candidate a compile considered is either selected or counted into
//! the manifest, so nothing is dropped silently and the counting equation holds by
//! construction.

use vstd::prelude::*;

use crate::expansion::ExpansionQuery;
use crate::name::{lemma_insert_ascending, locate, precedes, spelled, strictly_ascending, Name};
use crate::omission::{
    cell_total, covers, overflows_at, partitions, prefix_tally, tally_sum, Cell, IrretrievableReason, Manifest,
    ManifestError, OmissionReason, OmissionRecord, QueryView,
};
use crate::selection::SelectionKind;

verus! {

/// A candidate as identifiers: its name and its kind.
pub type Entry = (Seq<char>, SelectionKind);

/// The identifiers a sequence of named, kinded candidates spells.
pub open spec fn entries_of(candidates: Seq<(Name, SelectionKind)>) -> Seq<Entry> {
    candidates.map_values(|c: (Name, SelectionKind)| (c.0@, c.1))
}

/// Whether candidates stand in strictly increasing order of their names.
pub open spec fn names_ascending(entries: Seq<Entry>) -> bool {
    forall|i: int, j: int| 0 <= i < j < entries.len() ==> precedes(#[trigger] entries[i].0, #[trigger] entries[j].0)
}

/// Whether the candidate at `j` repeats the name of an earlier one.
pub open spec fn repeats_earlier(entries: Seq<Entry>, j: int) -> bool {
    exists|i: int| 0 <= i < j && #[trigger] entries[i].0 == entries[j].0
}

/// In a listing ascending by name, a name sits at one place only.
pub proof fn lemma_names_unique(entries: Seq<Entry>, a: int, b: int)
    requires
        names_ascending(entries),
        0 <= a < entries.len(),
        0 <= b < entries.len(),
        entries[a].0 == entries[b].0,
    ensures
        a == b,
{
    crate::name::lemma_precedes_order(entries[a].0, entries[b].0, entries[a].0);
    if a < b {
        assert(precedes(entries[a].0, entries[b].0));
    } else if b < a {
        assert(precedes(entries[b].0, entries[a].0));
    }
}

/// Everything a compile considered: the candidate set, each candidate named and kinded.
#[derive(Debug, PartialEq, Eq)]
pub struct CandidateSet {
    names: Vec<Name>,
    kinds: Vec<SelectionKind>,
}

impl CandidateSet {
    #[verifier::type_invariant]
    spec fn aligned(self) -> bool {
        &&& self.names@.len() == self.kinds@.len()
        &&& strictly_ascending(spelled(self.names@))
    }

    /// The candidates, in canonical order of their names.
    pub closed spec fn entries(&self) -> Seq<Entry> {
        Seq::new(self.names@.len(), |i: int| (self.names@[i]@, self.kinds@[i]))
    }

    proof fn lemma_entries_ascending(&self)
        requires
            self.aligned(),
        ensures
            names_ascending(self.entries()),
    {
        let s = spelled(self.names@);
        assert forall|i: int, j: int| 0 <= i < j < self.entries().len()
            implies precedes(#[trigger] self.entries()[i].0, #[trigger] self.entries()[j].0) by {
            assert(precedes(s[i], s[j]));
        }
    }

    /// Build a candidate set, refusing a name that appears twice.
    pub fn new(candidates: Vec<(Name, SelectionKind)>) -> (set: Result<CandidateSet, AccountingError>)
        ensures
            set is Err <==> exists|j: int| 0 <= j < candidates@.len() && repeats_earlier(entries_of(candidates@), j),
            set matches Err(e) ==> exists|j: int| {
                &&& 0 <= j < candidates@.len()
                &&& repeats_earlier(entries_of(candidates@), j)
                &&& forall|k: int| 0 <= k < j ==> !repeats_earlier(entries_of(candidates@), k)
                &&& (match e {
                    AccountingError::RepeatedCandidate { id } => id@ == candidates@[j].0@,
                    _ => false,
                })
            },
            set matches Ok(s) ==> {
                &&& s.entries().len() == candidates@.len()
                &&& names_ascending(s.entries())
                &&& forall|k: int| 0 <= k < candidates@.len() ==> s.entries().contains(#[trigger] entries_of(candidates@)[k])
                &&& forall|p: int| 0 <= p < s.entries().len() ==> entries_of(candidates@).contains(#[trigger] s.entries()[p])
            },
    {
        let ghost all = entries_of(candidates@);
        let n = candidates.len();
        let mut set = CandidateSet { names: Vec::new(), kinds: Vec::new() };
        let mut i: usize = 0;
        while i < n
            invariant
                n == candidates@.len(),
                all == entries_of(candidates@),
                i <= n,
                set.entries().len() == i,
                forall|k: int| 0 <= k < i ==> set.entries().contains(#[trigger] all[k]),
                forall|p: int| 0 <= p < set.entries().len() ==> exists|k: int| 0 <= k < i && all[k] == #[trigger] set.entries()[p],
                forall|k: int| 0 <= k < i ==> !repeats_earlier(all, k),
            decreases n - i,
        {
            proof { use_type_invariant(&set); }
            let id = candidates[i].0.clone();
            let kind = candidates[i].1;
            assert(all[i as int] == (id@, kind));
            match locate(set.names.as_slice(), &id) {
                Ok(p) => {
                    proof {
                        assert(set.entries()[p as int].0 == id@);
                        let k = choose|k: int| 0 <= k < i && all[k] == #[trigger] set.entries()[p as int];
                        assert(all[k].0 == all[i as int].0);
                        assert(repeats_earlier(all, i as int));
                    }
                    return Err(AccountingError::RepeatedCandidate { id });
                },
                Err(p) => {
                    let ghost before = set.entries();
                    proof {
                        assert forall|k: int| 0 <= k < i implies #[trigger] all[k].0 != all[i as int].0 by {
                            let q = choose|q: int| 0 <= q < before.len() && before[q] == all[k];
                            assert(set.names@[q]@ == before[q].0);
                        }
                        lemma_insert_ascending(spelled(set.names@), p as int, id@);
                    }
                    let ghost old_names = set.names@;
                    let CandidateSet { mut names, mut kinds } = set;
                    names.insert(p, id);
                    kinds.insert(p, kind);
                    proof {
                        assert(spelled(names@) =~= spelled(old_names).insert(p as int, id@));
                    }
                    set = CandidateSet { names, kinds };
                    proof {
                        assert(set.entries() =~= before.insert(p as int, all[i as int]));
                        assert forall|k: int| 0 <= k < i + 1 implies set.entries().contains(#[trigger] all[k]) by {
                            if k == i {
                                assert(set.entries()[p as int] == all[k]);
                            } else {
                                let q = choose|q: int| 0 <= q < before.len() && before[q] == all[k];
                                if q < p {
                                    assert(set.entries()[q] == all[k]);
                                } else {
                                    assert(set.entries()[q + 1] == all[k]);
                                }
                            }
                        }
                        assert forall|q: int| 0 <= q < set.entries().len() implies exists|k: int|
                            0 <= k < i + 1 && all[k] == #[trigger] set.entries()[q] by {
                            if q < p {
                                assert(set.entries()[q] == before[q]);
                            } else if q == p {
                                assert(set.entries()[q] == all[i as int]);
                            } else {
                                assert(set.entries()[q] == before[q - 1]);
                            }
                        }
                    }
                },
            }
            i = i + 1;
        }
        proof {
            use_type_invariant(&set);
            set.lemma_entries_ascending();
            assert forall|p: int| 0 <= p < set.entries().len() implies all.contains(#[trigger] set.entries()[p]) by {
                let k = choose|k: int| 0 <= k < i && all[k] == #[trigger] set.entries()[p];
            }
        }
        Ok(set)
    }
}

impl Clone for CandidateSet {
    fn clone(&self) -> (copy: CandidateSet)
        ensures
            copy.entries() == self.entries(),
    {
        proof { use_type_invariant(self); }
        let n = self.names.len();
        let mut names: Vec<Name> = Vec::new();
        let mut kinds: Vec<SelectionKind> = Vec::new();
        let mut i: usize = 0;
        while i < n
            invariant
                n == self.names@.len(),
                n == self.kinds@.len(),
                i <= n,
                names@.len() == i,
                kinds@ == self.kinds@.subrange(0, i as int),
                spelled(names@) == spelled(self.names@).subrange(0, i as int),
            decreases n - i,
        {
            let name = self.names[i].clone();
            let ghost before = names@;
            names.push(name);
            kinds.push(self.kinds[i]);
            proof {
                assert(spelled(names@) =~= spelled(before).push(name@));
                assert(spelled(names@) =~= spelled(self.names@).subrange(0, i + 1));
                assert(kinds@ =~= self.kinds@.subrange(0, i + 1));
            }
            i = i + 1;
        }
        proof {
            assert(spelled(names@) =~= spelled(self.names@));
            assert(kinds@ =~= self.kinds@);
        }
        let copy = CandidateSet { names, kinds };
        proof {
            assert forall|q: int| 0 <= q < n implies #[trigger] copy.entries()[q] == self.entries()[q] by {
                assert(spelled(copy.names@)[q] == spelled(self.names@)[q]);
            }
            assert(copy.entries() =~= self.entries());
        }
        copy
    }
}

impl CandidateSet {
    /// How many candidates there are.
    pub fn len(&self) -> (count: usize)
        ensures
            count == self.entries().len(),
            names_ascending(self.entries()),
    {
        proof {
            use_type_invariant(self);
            self.lemma_entries_ascending();
        }
        self.names.len()
    }

    /// Whether the set is empty.
    pub fn is_empty(&self) -> (empty: bool)
        ensures
            empty == (self.entries().len() == 0),
    {
        self.names.len() == 0
    }

    /// Where a candidate sits in canonical order, if it is one.
    fn position(&self, id: &Name) -> (at: Option<usize>)
        ensures
            at matches Some(p) ==> p < self.entries().len() && self.entries()[p as int].0 == id@,
            at is None ==> forall|q: int| 0 <= q < self.entries().len() ==> #[trigger] self.entries()[q].0 != id@,
    {
        proof { use_type_invariant(self); }
        match locate(self.names.as_slice(), id) {
            Ok(p) => Some(p),
            Err(_) => {
                proof {
                    assert forall|q: int| 0 <= q < self.entries().len() implies #[trigger] self.entries()[q].0 != id@ by {
                        assert(self.names@[q]@ != id@);
                    }
                }
                None
            },
        }
    }

    /// The kind of one candidate, if it is one.
    pub fn kind(&self, id: &Name) -> (kind: Option<SelectionKind>)
        ensures
            kind matches Some(k) ==> self.entries().contains((id@, k)),
            kind is None ==> forall|q: int| 0 <= q < self.entries().len() ==> #[trigger] self.entries()[q].0 != id@,
    {
        proof { use_type_invariant(self); }
        match self.position(id) {
            Some(p) => {
                proof { assert(self.entries()[p as int] == (id@, self.kinds@[p as int])); }
                Some(self.kinds[p])
            },
            None => None,
        }
    }
}

/// Where an omitted candidate is placed: the reason it is recorded under, and the query
/// that retrieves it when one does.
pub type Placement = (OmissionReason, Option<QueryView>);

/// Why a candidate was not selected, and how it is retrieved.
#[derive(Debug, PartialEq, Eq)]
pub enum Omitted {
    /// Dropped for `reason`, and `query` retrieves it.
    Expandable {
        /// Any of the five reasons.
        reason: OmissionReason,
        /// The query that retrieves the group this candidate falls in.
        query: ExpansionQuery,
    },
    /// Gone, for one of the two reasons that explain irretrievability.
    Irretrievable(IrretrievableReason),
}

impl Clone for Omitted {
    fn clone(&self) -> (copy: Omitted)
        ensures
            copy.placement() == self.placement(),
    {
        match self {
            Omitted::Expandable { reason, query } => Omitted::Expandable { reason: *reason, query: query.clone() },
            Omitted::Irretrievable(reason) => Omitted::Irretrievable(*reason),
        }
    }
}

impl Omitted {
    /// Where this omission places its candidate.
    pub open spec fn placement(&self) -> Placement {
        match self {
            Omitted::Expandable { reason, query } => (*reason, Some((query.relation_spec(), query.anchor_spec()))),
            Omitted::Irretrievable(reason) => (reason.as_reason(), None),
        }
    }

    /// The manifest reason this omission is recorded under.
    pub fn reason(&self) -> (reason: OmissionReason)
        ensures
            reason == self.placement().0,
    {
        match self {
            Omitted::Expandable { reason, .. } => *reason,
            Omitted::Irretrievable(reason) => reason.reason(),
        }
    }
}

/// What happened to one candidate.
#[derive(Debug, PartialEq, Eq)]
pub enum Disposition {
    /// It is in the pack.
    Selected,
    /// It is in the manifest.
    Omitted(Omitted),
}

/// What has been decided about one candidate, as identifiers.
pub enum Decision {
    /// Nothing yet.
    Open,
    /// It is in the pack.
    Selected,
    /// It is in the manifest, placed so.
    Omitted(Placement),
}

impl Clone for Disposition {
    fn clone(&self) -> (copy: Disposition)
        ensures
            copy.decision() == self.decision(),
    {
        match self {
            Disposition::Selected => Disposition::Selected,
            Disposition::Omitted(omitted) => Disposition::Omitted(omitted.clone()),
        }
    }
}

impl Disposition {
    /// The decision this disposition records.
    pub open spec fn decision(&self) -> Decision {
        match self {
            Disposition::Selected => Decision::Selected,
            Disposition::Omitted(omitted) => Decision::Omitted(omitted.placement()),
        }
    }
}

/// The decision a slot of the ledger records.
pub open spec fn decided(slot: Option<Disposition>) -> Decision {
    match slot {
        None => Decision::Open,
        Some(disposition) => disposition.decision(),
    }
}

/// A compile in progress: the candidate set, and a disposition for each candidate decided so
/// far.
#[derive(Debug, PartialEq, Eq)]
pub struct Accounting {
    candidates: CandidateSet,
    dispositions: Vec<Option<Disposition>>,
}

impl Accounting {
    #[verifier::type_invariant]
    spec fn ledger_covers_candidates(self) -> bool {
        self.dispositions@.len() == self.candidates.entries().len()
    }

    /// The candidates, in canonical order.
    pub closed spec fn candidates(&self) -> Seq<Entry> {
        self.candidates.entries()
    }

    /// What has been decided about each candidate, in the same order.
    pub closed spec fn decisions(&self) -> Seq<Decision> {
        self.dispositions@.map_values(|slot: Option<Disposition>| decided(slot))
    }

    /// Begin accounting over a candidate set, with nothing decided.
    pub fn over(candidates: CandidateSet) -> (accounting: Accounting)
        ensures
            accounting.candidates() == candidates.entries(),
            accounting.decisions() == Seq::new(candidates.entries().len(), |i: int| Decision::Open),
            names_ascending(accounting.candidates()),
    {
        proof {
            use_type_invariant(&candidates);
            candidates.lemma_entries_ascending();
        }
        let n = candidates.len();
        let mut dispositions: Vec<Option<Disposition>> = Vec::new();
        let mut i: usize = 0;
        while i < n
            invariant
                i <= n,
                dispositions@.len() == i,
                forall|q: int| 0 <= q < i ==> #[trigger] dispositions@[q] is None,
            decreases n - i,
        {
            dispositions.push(None);
            i = i + 1;
        }
        let accounting = Accounting { candidates, dispositions };
        proof {
            assert(accounting.decisions() =~= Seq::new(n as nat, |i: int| Decision::Open));
        }
        accounting
    }

    /// Record a decision about one candidate.
    fn disposition(&mut self, id: &Name, disposition: Disposition) -> (outcome: Result<(), AccountingError>)
        ensures
            final(self).candidates() == old(self).candidates(),
            names_ascending(final(self).candidates()),
            final(self).decisions().len() == final(self).candidates().len(),
            decision_outcome(old(self).candidates(), old(self).decisions(), id@, disposition.decision(),
                final(self).decisions(), outcome),
    {
        proof {
            use_type_invariant(&*self);
            use_type_invariant(&self.candidates);
            self.candidates.lemma_entries_ascending();
        }
        let ghost before = self.decisions();
        let ghost entries = self.candidates();
        match self.candidates.position(id) {
            None => {
                proof {
                    use_type_invariant(&*self);
                    use_type_invariant(&self.candidates);
                    self.candidates.lemma_entries_ascending();
                }
                Err(AccountingError::UnknownCandidate { id: id.clone() })
            },
            Some(p) => {
                proof {
                    assert forall|q: int| 0 <= q < entries.len() && #[trigger] entries[q].0 == id@ implies q == p by {
                        lemma_names_unique(entries, q, p as int);
                    }
                }
                if self.dispositions[p].is_some() {
                    proof { assert(before[p as int] !is Open); }
                    return Err(AccountingError::AlreadyDispositioned { id: id.clone() });
                }
                let ghost decision = disposition.decision();
                let mut ledger = Accounting {
                    candidates: CandidateSet { names: Vec::new(), kinds: Vec::new() },
                    dispositions: Vec::new(),
                };
                std::mem::swap(self, &mut ledger);
                let Accounting { candidates, mut dispositions } = ledger;
                dispositions.set(p, Some(disposition));
                *self = Accounting { candidates, dispositions };
                proof {
                    assert(self.decisions() =~= before.update(p as int, decision));
                }
                Ok(())
            },
        }
    }

    /// Put a candidate in the pack.
    pub fn select(&mut self, id: &Name) -> (outcome: Result<(), AccountingError>)
        ensures
            final(self).candidates() == old(self).candidates(),
            names_ascending(final(self).candidates()),
            final(self).decisions().len() == final(self).candidates().len(),
            decision_outcome(old(self).candidates(), old(self).decisions(), id@, Decision::Selected,
                final(self).decisions(), outcome),
    {
        self.disposition(id, Disposition::Selected)
    }

    /// Put a candidate in the manifest.
    pub fn omit(&mut self, id: &Name, omitted: Omitted) -> (outcome: Result<(), AccountingError>)
        ensures
            final(self).candidates() == old(self).candidates(),
            names_ascending(final(self).candidates()),
            final(self).decisions().len() == final(self).candidates().len(),
            decision_outcome(old(self).candidates(), old(self).decisions(), id@,
                Decision::Omitted(omitted.placement()), final(self).decisions(), outcome),
    {
        self.disposition(id, Disposition::Omitted(omitted))
    }
}

impl Clone for Accounting {
    fn clone(&self) -> (copy: Accounting)
        ensures
            copy.candidates() == self.candidates(),
            copy.decisions() == self.decisions(),
    {
        proof { use_type_invariant(self); }
        let candidates = self.candidates.clone();
        let n = self.dispositions.len();
        let mut dispositions: Vec<Option<Disposition>> = Vec::new();
        let mut i: usize = 0;
        while i < n
            invariant
                n == self.dispositions@.len(),
                i <= n,
                dispositions@.len() == i,
                forall|k: int| 0 <= k < i ==> decided(#[trigger] dispositions@[k]) == decided(self.dispositions@[k]),
            decreases n - i,
        {
            let slot = match &self.dispositions[i] {
                None => None,
                Some(disposition) => Some(disposition.clone()),
            };
            dispositions.push(slot);
            i = i + 1;
        }
        let copy = Accounting { candidates, dispositions };
        proof {
            assert(copy.decisions() =~= self.decisions());
        }
        copy
    }
}

/// The candidates still waiting for a decision stand in canonical order, so the first of them
/// is the least.
pub proof fn law_undecided_candidates_ascend(candidates: Seq<Entry>, decisions: Seq<Decision>)
    requires
        names_ascending(candidates),
        decisions.len() == candidates.len(),
    ensures
        strictly_ascending(pending(candidates, decisions)),
{
    lemma_pending_ascend(candidates, decisions, candidates.len() as int);
}

proof fn lemma_pending_ascend(candidates: Seq<Entry>, decisions: Seq<Decision>, n: int)
    requires
        names_ascending(candidates),
        decisions.len() == candidates.len(),
        0 <= n <= candidates.len(),
    ensures
        strictly_ascending(pending_upto(candidates, decisions, n)),
        forall|k: int, m: int| 0 <= k < pending_upto(candidates, decisions, n).len() && n <= m < candidates.len()
            ==> precedes(#[trigger] pending_upto(candidates, decisions, n)[k], #[trigger] candidates[m].0),
    decreases n,
{
    if n > 0 {
        lemma_pending_ascend(candidates, decisions, n - 1);
        let before = pending_upto(candidates, decisions, n - 1);
        let now = pending_upto(candidates, decisions, n);
        if decisions[n - 1] is Open {
            assert(now == before + seq![candidates[n - 1].0]);
            assert forall|a: int, b: int| 0 <= a < b < now.len() implies precedes(now[a], now[b]) by {
                if b < before.len() {
                    assert(now[a] == before[a] && now[b] == before[b]);
                } else {
                    assert(now[a] == before[a]);
                    assert(precedes(before[a], candidates[n - 1].0));
                }
            }
            assert forall|k: int, m: int| 0 <= k < now.len() && n <= m < candidates.len()
                implies precedes(#[trigger] now[k], #[trigger] candidates[m].0) by {
                if k < before.len() {
                    assert(now[k] == before[k]);
                    assert(precedes(before[k], candidates[m].0));
                } else {
                    assert(now[k] == candidates[n - 1].0);
                    assert(precedes(candidates[n - 1].0, candidates[m].0));
                }
            }
        } else {
            assert(now =~= before);
            assert forall|k: int, m: int| 0 <= k < now.len() && n <= m < candidates.len()
                implies precedes(#[trigger] now[k], #[trigger] candidates[m].0) by {
                assert(now[k] == before[k]);
                assert(precedes(before[k], candidates[m].0));
            }
        }
    }
}

/// An empty manifest asserts completeness: where the counting equation holds and nothing was
/// omitted, the selection is the whole candidate set.
pub proof fn law_empty_manifest_means_complete(closed: ClosedAccounting)
    requires
        closed.reconciles(),
        closed.records().len() == 0,
    ensures
        closed.selection().len() == closed.count(),
{
}

/// What recording `decision` about `id` does: refuse a name that is not a candidate, refuse
/// a candidate already decided, and otherwise record the decision in that candidate's slot
/// alone.
pub open spec fn decision_outcome(
    candidates: Seq<Entry>,
    before: Seq<Decision>,
    id: Seq<char>,
    decision: Decision,
    after: Seq<Decision>,
    outcome: Result<(), AccountingError>,
) -> bool {
    if forall|q: int| 0 <= q < candidates.len() ==> #[trigger] candidates[q].0 != id {
        &&& after == before
        &&& (match outcome {
            Err(AccountingError::UnknownCandidate { id: named }) => named@ == id,
            _ => false,
        })
    } else {
        forall|p: int| 0 <= p < candidates.len() && #[trigger] candidates[p].0 == id ==> {
            if before[p] is Open {
                &&& outcome is Ok
                &&& after == before.update(p, decision)
            } else {
                &&& after == before
                &&& (match outcome {
                    Err(AccountingError::AlreadyDispositioned { id: named }) => named@ == id,
                    _ => false,
                })
            }
        }
    }
}

/// The names, in canonical order, of the first `n` candidates nothing is decided about.
pub open spec fn pending_upto(candidates: Seq<Entry>, decisions: Seq<Decision>, n: int) -> Seq<Seq<char>>
    decreases n,
{
    if n <= 0 {
        Seq::empty()
    } else {
        pending_upto(candidates, decisions, n - 1) + if decisions[n - 1] is Open {
            seq![candidates[n - 1].0]
        } else {
            Seq::empty()
        }
    }
}

/// The names, in canonical order, of the first `n` candidates put in the pack.
pub open spec fn chosen_upto(candidates: Seq<Entry>, decisions: Seq<Decision>, n: int) -> Seq<Seq<char>>
    decreases n,
{
    if n <= 0 {
        Seq::empty()
    } else {
        chosen_upto(candidates, decisions, n - 1) + if decisions[n - 1] is Selected {
            seq![candidates[n - 1].0]
        } else {
            Seq::empty()
        }
    }
}

/// The partition cells, in canonical order of their candidates, of the first `n` candidates
/// put in the manifest.
pub open spec fn omitted_upto(candidates: Seq<Entry>, decisions: Seq<Decision>, n: int) -> Seq<Cell>
    decreases n,
{
    if n <= 0 {
        Seq::empty()
    } else {
        omitted_upto(candidates, decisions, n - 1) + match decisions[n - 1] {
            Decision::Omitted(placement) => seq![(candidates[n - 1].1, placement.0, placement.1)],
            _ => Seq::empty(),
        }
    }
}

/// The candidates nothing is decided about, in canonical order.
pub open spec fn pending(candidates: Seq<Entry>, decisions: Seq<Decision>) -> Seq<Seq<char>> {
    pending_upto(candidates, decisions, candidates.len() as int)
}

/// The candidates put in the pack, in canonical order.
pub open spec fn chosen(candidates: Seq<Entry>, decisions: Seq<Decision>) -> Seq<Seq<char>> {
    chosen_upto(candidates, decisions, candidates.len() as int)
}

/// The partition cells of the candidates put in the manifest, one per candidate.
pub open spec fn omitted_cells(candidates: Seq<Entry>, decisions: Seq<Decision>) -> Seq<Cell> {
    omitted_upto(candidates, decisions, candidates.len() as int)
}

/// How many of the first `n` cells are `cell`.
pub open spec fn occurrences(cells: Seq<Cell>, cell: Cell, n: int) -> nat
    decreases n,
{
    if n <= 0 {
        0
    } else {
        occurrences(cells, cell, n - 1) + if cells[n - 1] == cell {
            1nat
        } else {
            0nat
        }
    }
}

/// Whether counting the omission at `i` into its cell leaves the exact-count width.
pub open spec fn crowds_cell(cells: Seq<Cell>, i: int) -> bool {
    occurrences(cells, cells[i], i + 1) > u32::MAX
}

/// The chosen names of the first `n` candidates stand in canonical order, and are exactly
/// the names of those candidates put in the pack.
pub proof fn lemma_chosen_listing(candidates: Seq<Entry>, decisions: Seq<Decision>, n: int)
    requires
        names_ascending(candidates),
        0 <= n <= candidates.len(),
    ensures
        strictly_ascending(chosen_upto(candidates, decisions, n)),
        forall|x: Seq<char>| chosen_upto(candidates, decisions, n).contains(x) <==> exists|q: int|
            0 <= q < n && #[trigger] candidates[q].0 == x && decisions[q] is Selected,
        forall|x: Seq<char>| #[trigger] chosen_upto(candidates, decisions, n).contains(x) ==> exists|q: int|
            0 <= q < n && #[trigger] candidates[q].0 == x,
    decreases n,
{
    if n > 0 {
        lemma_chosen_listing(candidates, decisions, n - 1);
        let before = chosen_upto(candidates, decisions, n - 1);
        let after = chosen_upto(candidates, decisions, n);
        if decisions[n - 1] is Selected {
            let x = candidates[n - 1].0;
            assert(after =~= before.push(x));
            assert forall|i: int, j: int| 0 <= i < j < after.len() implies precedes(after[i], after[j]) by {
                if j == after.len() - 1 {
                    assert(before.contains(after[i]));
                    let q = choose|q: int| 0 <= q < n - 1 && #[trigger] candidates[q].0 == after[i];
                    assert(precedes(candidates[q].0, candidates[n - 1].0));
                } else {
                    assert(precedes(before[i], before[j]));
                }
            }
            assert forall|y: Seq<char>| after.contains(y) <==> exists|q: int|
                0 <= q < n && #[trigger] candidates[q].0 == y && decisions[q] is Selected by {
                if after.contains(y) {
                    let k = choose|k: int| 0 <= k < after.len() && after[k] == y;
                    if k < before.len() {
                        assert(before.contains(y));
                    }
                }
                if exists|q: int| 0 <= q < n && #[trigger] candidates[q].0 == y && decisions[q] is Selected {
                    let q = choose|q: int| 0 <= q < n && #[trigger] candidates[q].0 == y && decisions[q] is Selected;
                    if q < n - 1 {
                        assert(before.contains(y));
                        let k = choose|k: int| 0 <= k < before.len() && before[k] == y;
                        assert(after[k] == y);
                    } else {
                        assert(after[after.len() - 1] == y);
                    }
                }
            }
            assert forall|y: Seq<char>| #[trigger] after.contains(y) implies exists|q: int|
                0 <= q < n && #[trigger] candidates[q].0 == y by {
                let k = choose|k: int| 0 <= k < after.len() && after[k] == y;
                if k < before.len() {
                    assert(before.contains(y));
                } else {
                    assert(candidates[n - 1].0 == y);
                }
            }
        } else {
            assert(after =~= before);
            assert forall|y: Seq<char>| after.contains(y) <==> exists|q: int|
                0 <= q < n && #[trigger] candidates[q].0 == y && decisions[q] is Selected by {
                if exists|q: int| 0 <= q < n && #[trigger] candidates[q].0 == y && decisions[q] is Selected {
                    let q = choose|q: int| 0 <= q < n && #[trigger] candidates[q].0 == y && decisions[q] is Selected;
                    assert(q < n - 1);
                }
            }
        }
    }
}

/// A candidate set built from a list already in canonical order keeps that list as it is.
pub proof fn lemma_sorted_input_kept(input: Seq<Entry>, entries: Seq<Entry>)
    requires
        names_ascending(input),
        names_ascending(entries),
        entries.len() == input.len(),
        forall|k: int| 0 <= k < input.len() ==> entries.contains(#[trigger] input[k]),
        forall|p: int| 0 <= p < entries.len() ==> input.contains(#[trigger] entries[p]),
    ensures
        entries == input,
{
    let a = input.map_values(|e: Entry| e.0);
    let b = entries.map_values(|e: Entry| e.0);
    assert forall|i: int, j: int| 0 <= i < j < a.len() implies precedes(a[i], a[j]) by {
        assert(precedes(input[i].0, input[j].0));
    }
    assert forall|i: int, j: int| 0 <= i < j < b.len() implies precedes(b[i], b[j]) by {
        assert(precedes(entries[i].0, entries[j].0));
    }
    assert forall|x: Seq<char>| a.to_set().contains(x) <==> b.to_set().contains(x) by {
        if a.contains(x) {
            let k = choose|k: int| 0 <= k < a.len() && a[k] == x;
            assert(entries.contains(input[k]));
            let p = choose|p: int| 0 <= p < entries.len() && entries[p] == input[k];
            assert(b[p] == x);
        }
        if b.contains(x) {
            let p = choose|p: int| 0 <= p < b.len() && b[p] == x;
            assert(input.contains(entries[p]));
            let k = choose|k: int| 0 <= k < input.len() && input[k] == entries[p];
            assert(a[k] == x);
        }
    }
    assert(a.to_set() =~= b.to_set());
    crate::name::lemma_ascending_unique(a, b);
    assert forall|p: int| 0 <= p < entries.len() implies #[trigger] entries[p] == input[p] by {
        assert(input.contains(entries[p]));
        let k = choose|k: int| 0 <= k < input.len() && input[k] == entries[p];
        assert(a[k] == b[p]);
        assert(a[p] == b[p]);
        lemma_names_unique(input, k, p);
    }
    assert(entries =~= input);
}

/// Where every candidate is decided, nothing is pending.
pub proof fn lemma_nothing_pending(candidates: Seq<Entry>, decisions: Seq<Decision>, n: int)
    requires
        forall|k: int| 0 <= k < n ==> !(#[trigger] decisions[k] is Open),
    ensures
        pending_upto(candidates, decisions, n).len() == 0,
    decreases n,
{
    if n > 0 {
        lemma_nothing_pending(candidates, decisions, n - 1);
        assert(!(decisions[n - 1] is Open));
    }
}

/// Recording a decision about an undecided candidate, named by its own place in an ascending
/// ledger, succeeds and fills that place alone.
pub proof fn lemma_decide_at(
    entries: Seq<Entry>,
    before: Seq<Decision>,
    i: int,
    decision: Decision,
    after: Seq<Decision>,
    outcome: Result<(), AccountingError>,
)
    requires
        names_ascending(entries),
        0 <= i < entries.len(),
        before[i] is Open,
        decision_outcome(entries, before, entries[i].0, decision, after, outcome),
    ensures
        outcome is Ok,
        after == before.update(i, decision),
{
    assert(entries[i].0 == entries[i].0);
}

/// Occurrences among the first `n` cells never outnumber them.
pub proof fn lemma_occurrences_bounded(cells: Seq<Cell>, cell: Cell, n: int)
    requires
        0 <= n,
    ensures
        occurrences(cells, cell, n) <= n,
    decreases n,
{
    if n > 0 {
        lemma_occurrences_bounded(cells, cell, n - 1);
    }
}

/// Each candidate is pending, chosen or omitted, and only one of them.
pub proof fn lemma_dispositions_partition(candidates: Seq<Entry>, decisions: Seq<Decision>, n: int)
    requires
        0 <= n,
    ensures
        pending_upto(candidates, decisions, n).len() + chosen_upto(candidates, decisions, n).len()
            + omitted_upto(candidates, decisions, n).len() == n,
        pending_upto(candidates, decisions, n).len() == 0 ==> forall|k: int| 0 <= k < n ==> !(#[trigger] decisions[k] is Open),
    decreases n,
{
    if n > 0 {
        lemma_dispositions_partition(candidates, decisions, n - 1);
    }
}

/// Records of one item each, cell for cell, total their cells as the cells occur.
proof fn lemma_units_count(units: Seq<OmissionRecord>, cells: Seq<Cell>, cell: Cell, n: int)
    requires
        0 <= n <= units.len(),
        units.len() == cells.len(),
        forall|k: int| 0 <= k < units.len() ==> #[trigger] units[k].cell() == cells[k] && units[k].tally() == 1,
    ensures
        cell_total(units, cell, n) == occurrences(cells, cell, n),
        prefix_tally(units, n) == n,
    decreases n,
{
    if n > 0 {
        lemma_units_count(units, cells, cell, n - 1);
        assert(units[n - 1].cell() == cells[n - 1]);
    }
}

/// The one-item record of an omitted candidate of `kind`.
fn unit(kind: SelectionKind, omitted: &Omitted) -> (record: OmissionRecord)
    ensures
        record.cell() == (kind, omitted.placement().0, omitted.placement().1),
        record.tally() == 1,
{
    match omitted {
        Omitted::Expandable { reason, query } => OmissionRecord::expandable(kind, 1, *reason, query.clone()),
        Omitted::Irretrievable(reason) => OmissionRecord::irretrievable(kind, 1, *reason),
    }
}

impl Accounting {
    /// The candidates no decision has been recorded for, in canonical order.
    pub fn undecided(&self) -> (waiting: Vec<Name>)
        ensures
            spelled(waiting@) == pending(self.candidates(), self.decisions()),
    {
        proof {
            use_type_invariant(self);
            use_type_invariant(&self.candidates);
        }
        let n = self.dispositions.len();
        let mut waiting: Vec<Name> = Vec::new();
        let mut i: usize = 0;
        while i < n
            invariant
                n == self.dispositions@.len(),
                n == self.candidates.names@.len(),
                i <= n,
                spelled(waiting@) == pending_upto(self.candidates(), self.decisions(), i as int),
            decreases n - i,
        {
            if self.dispositions[i].is_none() {
                let name = self.candidates.names[i].clone();
                let ghost before = waiting@;
                waiting.push(name);
                proof {
                    assert(self.decisions()[i as int] is Open);
                    assert(spelled(waiting@) =~= spelled(before).push(name@));
                    assert(self.candidates()[i as int].0 == name@);
                    assert(pending_upto(self.candidates(), self.decisions(), i + 1)
                        =~= pending_upto(self.candidates(), self.decisions(), i as int).push(name@));
                }
            } else {
                proof {
                    assert(!(self.decisions()[i as int] is Open));
                    assert(pending_upto(self.candidates(), self.decisions(), i + 1)
                        =~= pending_upto(self.candidates(), self.decisions(), i as int));
                }
            }
            i = i + 1;
        }
        waiting
    }

    /// Close the accounting: every candidate decided, the selection and the manifest read off
    /// the one ledger.
    ///
    /// Refuses, in this order: a candidate with no decision, naming the first in canonical
    /// order and how many there are; a partition cell holding more omissions than an exact
    /// count can name, naming the kind of the candidate at which that happens; and a candidate
    /// set larger than an exact count can name.
    pub fn close(self) -> (closed: Result<ClosedAccounting, AccountingError>)
        ensures
            pending(self.candidates(), self.decisions()).len() > 0 ==> (match closed {
                Err(AccountingError::Undispositioned { first, remaining }) => {
                    &&& first@ == pending(self.candidates(), self.decisions())[0]
                    &&& forall|k: int| 0 < k < pending(self.candidates(), self.decisions()).len()
                        ==> precedes(first@, #[trigger] pending(self.candidates(), self.decisions())[k])
                    &&& remaining == pending(self.candidates(), self.decisions()).len()
                },
                _ => false,
            }),
            pending(self.candidates(), self.decisions()).len() == 0 && (exists|i: int|
                0 <= i < omitted_cells(self.candidates(), self.decisions()).len()
                && crowds_cell(omitted_cells(self.candidates(), self.decisions()), i)) ==> exists|i: int| {
                &&& 0 <= i < omitted_cells(self.candidates(), self.decisions()).len()
                &&& crowds_cell(omitted_cells(self.candidates(), self.decisions()), i)
                &&& forall|k: int| 0 <= k < i ==> !crowds_cell(omitted_cells(self.candidates(), self.decisions()), k)
                &&& (match closed {
                    Err(AccountingError::CountOverflow { kind }) => kind == omitted_cells(self.candidates(), self.decisions())[i].0,
                    _ => false,
                })
            },
            pending(self.candidates(), self.decisions()).len() == 0 && (forall|i: int|
                0 <= i < omitted_cells(self.candidates(), self.decisions()).len()
                ==> !crowds_cell(omitted_cells(self.candidates(), self.decisions()), i))
                && self.candidates().len() > u32::MAX ==> (match closed {
                Err(AccountingError::SetTooLarge { size }) => size == self.candidates().len(),
                _ => false,
            }),
            pending(self.candidates(), self.decisions()).len() == 0 && (forall|i: int|
                0 <= i < omitted_cells(self.candidates(), self.decisions()).len()
                ==> !crowds_cell(omitted_cells(self.candidates(), self.decisions()), i))
                && self.candidates().len() <= u32::MAX ==> (match closed {
                Ok(c) => {
                    &&& c.count() == self.candidates().len()
                    &&& c.selection() == chosen(self.candidates(), self.decisions())
                    &&& partitions(c.records())
                    &&& forall|k: int| 0 <= k < omitted_cells(self.candidates(), self.decisions()).len()
                        ==> #[trigger] covers(c.records(), omitted_cells(self.candidates(), self.decisions())[k])
                    &&& forall|p: int| 0 <= p < c.records().len() ==> omitted_cells(self.candidates(), self.decisions())
                        .contains(#[trigger] c.records()[p].cell())
                    &&& forall|p: int| 0 <= p < c.records().len() ==> #[trigger] c.records()[p].tally()
                        == occurrences(omitted_cells(self.candidates(), self.decisions()), c.records()[p].cell(),
                            omitted_cells(self.candidates(), self.decisions()).len() as int)
                    &&& c.reconciles()
                },
                _ => false,
            }),
    {
        proof {
            use_type_invariant(&self);
            use_type_invariant(&self.candidates);
        }
        let ghost entries = self.candidates();
        let ghost decisions = self.decisions();
        let waiting = self.undecided();
        proof {
            self.candidates.lemma_entries_ascending();
            law_undecided_candidates_ascend(entries, decisions);
        }
        if waiting.len() > 0 {
            proof {
                let all = pending(entries, decisions);
                assert forall|k: int| 0 < k < all.len() implies precedes(all[0], #[trigger] all[k]) by {
                    assert(strictly_ascending(all));
                }
            }
            let first = waiting[0].clone();
            return Err(AccountingError::Undispositioned { first, remaining: waiting.len() });
        }
        let ghost cells = omitted_cells(entries, decisions);
        proof { lemma_dispositions_partition(entries, decisions, entries.len() as int); }
        let Accounting { candidates, dispositions } = self;
        let n = candidates.names.len();
        let mut selected: Vec<Name> = Vec::new();
        let mut units: Vec<OmissionRecord> = Vec::new();
        let mut i: usize = 0;
        while i < n
            invariant
                n == entries.len(),
                n == dispositions@.len(),
                n == candidates.names@.len(),
                n == candidates.kinds@.len(),
                candidates.entries() == entries,
                decisions == dispositions@.map_values(|slot: Option<Disposition>| decided(slot)),
                forall|k: int| 0 <= k < n ==> !(#[trigger] decisions[k] is Open),
                i <= n,
                spelled(selected@) == chosen_upto(entries, decisions, i as int),
                units@.len() == omitted_upto(entries, decisions, i as int).len(),
                forall|k: int| 0 <= k < units@.len() ==> (#[trigger] units@[k]).cell()
                    == omitted_upto(entries, decisions, i as int)[k] && units@[k].tally() == 1,
            decreases n - i,
        {
            let ghost decision = decisions[i as int];
            assert(decision == decided(dispositions@[i as int]));
            assert(entries[i as int] == (candidates.names@[i as int]@, candidates.kinds@[i as int]));
            match &dispositions[i] {
                None => {
                    proof { assert(false); }
                },
                Some(Disposition::Selected) => {
                    let name = candidates.names[i].clone();
                    let ghost before = selected@;
                    selected.push(name);
                    proof {
                        assert(spelled(selected@) =~= spelled(before).push(name@));
                        assert(chosen_upto(entries, decisions, i + 1) =~= chosen_upto(entries, decisions, i as int).push(name@));
                        assert(omitted_upto(entries, decisions, i + 1) =~= omitted_upto(entries, decisions, i as int));
                        assert forall|k: int| 0 <= k < units@.len() implies (#[trigger] units@[k]).cell()
                            == omitted_upto(entries, decisions, i + 1)[k] && units@[k].tally() == 1 by {
                            assert(units@[k].cell() == omitted_upto(entries, decisions, i as int)[k]);
                        }
                    }
                },
                Some(Disposition::Omitted(omitted)) => {
                    let record = unit(candidates.kinds[i], omitted);
                    let ghost before = units@;
                    units.push(record);
                    proof {
                        assert(chosen_upto(entries, decisions, i + 1) =~= chosen_upto(entries, decisions, i as int));
                        assert(omitted_upto(entries, decisions, i + 1)
                            =~= omitted_upto(entries, decisions, i as int).push(record.cell()));
                        assert forall|k: int| 0 <= k < units@.len() implies (#[trigger] units@[k]).cell()
                            == omitted_upto(entries, decisions, i + 1)[k] && units@[k].tally() == 1 by {
                            if k < before.len() {
                                assert(units@[k] == before[k]);
                                assert(before[k].cell() == omitted_upto(entries, decisions, i as int)[k]);
                            } else {
                                assert(units@[k] == record);
                            }
                        }
                    }
                },
            }
            i = i + 1;
        }
        let ghost records = units@;
        proof {
            assert(records.len() == cells.len());
            assert forall|m: int| #![trigger overflows_at(records, m)] #![trigger crowds_cell(cells, m)]
                0 <= m < records.len() implies overflows_at(records, m) == crowds_cell(cells, m) by {
                lemma_units_count(records, cells, records[m].cell(), m + 1);
            }
            lemma_units_count(records, cells, (SelectionKind::Event, OmissionReason::Budget, None), records.len() as int);
        }
        let manifest = match Manifest::merged(units) {
            Ok(m) => m,
            Err(ManifestError::CountOverflow { kind, reason }) => {
                proof {
                    let i = choose|i: int| {
                        &&& 0 <= i < records.len()
                        &&& overflows_at(records, i)
                        &&& forall|k: int| 0 <= k < i ==> !overflows_at(records, k)
                        &&& ManifestError::CountOverflow { kind, reason } == (ManifestError::CountOverflow {
                            kind: records[i].cell().0,
                            reason: records[i].cell().1,
                        })
                    };
                    assert(crowds_cell(cells, i));
                    assert(kind == cells[i].0);
                    assert forall|k: int| 0 <= k < i implies !crowds_cell(cells, k) by {
                        assert(!overflows_at(records, k));
                    }
                }
                return Err(AccountingError::CountOverflow { kind });
            },
            Err(ManifestError::RepeatedCell { kind, reason }) => {
                proof { assert(false); }
                return Err(AccountingError::Manifest(ManifestError::RepeatedCell { kind, reason }));
            },
        };
        if n as u64 > u32::MAX as u64 {
            return Err(AccountingError::SetTooLarge { size: n });
        }
        let closed = ClosedAccounting { candidates: n as u32, selected, manifest };
        proof {
            assert forall|k: int| 0 <= k < cells.len() implies #[trigger] covers(closed.records(), cells[k]) by {
                assert(covers(closed.records(), records[k].cell()));
            }
            assert forall|p: int| 0 <= p < closed.records().len() implies #[trigger] closed.records()[p].tally()
                == occurrences(cells, closed.records()[p].cell(), cells.len() as int) by {
                lemma_units_count(records, cells, closed.records()[p].cell(), records.len() as int);
            }
            assert forall|p: int| 0 <= p < closed.records().len() implies cells.contains(#[trigger] closed.records()[p].cell()) by {
                assert(covers(records, closed.records()[p].cell()));
                let k = choose|k: int| 0 <= k < records.len() && #[trigger] records[k].cell() == closed.records()[p].cell();
                assert(cells[k] == closed.records()[p].cell());
            }
        }
        Ok(closed)
    }
}

/// A compile whose every candidate is accounted for: how many candidates it considered, the
/// selection in canonical order, and the manifest.
#[derive(Debug, PartialEq, Eq)]
pub struct ClosedAccounting {
    candidates: u32,
    selected: Vec<Name>,
    manifest: Manifest,
}

impl ClosedAccounting {
    /// How many candidates the compile considered.
    pub closed spec fn count(&self) -> nat {
        self.candidates as nat
    }

    /// The selection, as identifiers.
    pub closed spec fn selection(&self) -> Seq<Seq<char>> {
        spelled(self.selected@)
    }

    /// The manifest's records.
    pub closed spec fn records(&self) -> Seq<OmissionRecord> {
        self.manifest.listing()
    }

    /// The counting equation: the candidate set is the selection plus the manifest's counts.
    pub open spec fn reconciles(&self) -> bool {
        self.count() == self.selection().len() + tally_sum(self.records())
    }

    /// Reassemble an accounting from its three published halves, as a consumer receives them.
    pub fn from_parts(candidates: u32, selected: Vec<Name>, manifest: Manifest) -> (closed: ClosedAccounting)
        ensures
            closed.count() == candidates,
            closed.selection() == spelled(selected@),
            closed.records() == manifest.listing(),
    {
        ClosedAccounting { candidates, selected, manifest }
    }

    /// How many candidates the compile considered.
    pub fn candidate_count(&self) -> (count: u32)
        ensures
            count == self.count(),
    {
        self.candidates
    }

    /// The selection, in canonical order.
    pub fn selected(&self) -> (selected: &[Name])
        ensures
            spelled(selected@) == self.selection(),
    {
        self.selected.as_slice()
    }

    /// The manifest.
    pub fn manifest(&self) -> (manifest: &Manifest)
        ensures
            manifest.listing() == self.records(),
    {
        &self.manifest
    }

    /// Recompute the candidate count from the selection and the manifest, and compare it with
    /// the count the candidate set declared.
    pub fn reconcile(&self) -> (outcome: Result<(), AccountingError>)
        requires
            tally_sum(self.records()) <= u64::MAX,
        ensures
            outcome is Ok <==> self.reconciles(),
            outcome matches Err(e) ==> e == (AccountingError::DoesNotReconcile {
                candidates: self.count() as u64,
                accounted: if self.selection().len() + tally_sum(self.records()) > u64::MAX {
                    u64::MAX
                } else {
                    (self.selection().len() + tally_sum(self.records())) as u64
                },
            }),
    {
        let total = self.manifest.total();
        let accounted = total.saturating_add(self.selected.len() as u64);
        if accounted != self.candidates as u64 {
            return Err(AccountingError::DoesNotReconcile { candidates: self.candidates as u64, accounted });
        }
        Ok(())
    }
}

/// A way an accounting fails to be closed.
#[derive(Debug, Clone, PartialEq, Eq)]
pub enum AccountingError {
    /// One identity appears twice in the candidate set.
    RepeatedCandidate {
        /// The repeated identity.
        id: Name,
    },
    /// A disposition names something that is not a candidate.
    UnknownCandidate {
        /// The identity that is not in the set.
        id: Name,
    },
    /// A second decision was recorded for one candidate.
    AlreadyDispositioned {
        /// The candidate already decided.
        id: Name,
    },
    /// A candidate has no decision, so the pack would drop it silently.
    Undispositioned {
        /// The first such candidate, in canonical order.
        first: Name,
        /// How many candidates have no decision.
        remaining: usize,
    },
    /// The derived records do not partition.
    Manifest(ManifestError),
    /// A count does not fit the width an exact count is carried in.
    CountOverflow {
        /// The kind whose cell overflowed.
        kind: SelectionKind,
    },
    /// The candidate set is larger than an exact count can name.
    SetTooLarge {
        /// How many candidates it holds.
        size: usize,
    },
    /// The selection plus the manifest is not the candidate set.
    DoesNotReconcile {
        /// What the candidate set declared.
        candidates: u64,
        /// What the selection and manifest account for.
        accounted: u64,
    },
}


impl AccountingError {
    /// The refusal's explanation.
    pub open spec fn explanation(&self) -> Seq<char> {
        match self {
            AccountingError::RepeatedCandidate { id } => "`"@ + id@ + "` appears twice in the candidate set"@,
            AccountingError::UnknownCandidate { id } => "`"@ + id@ + "` is not a candidate of this compile"@,
            AccountingError::AlreadyDispositioned { id } => "`"@ + id@ + "` already has a disposition"@,
            AccountingError::Undispositioned { first, remaining } =>
                crate::json::decimal(*remaining as nat) + " candidate(s) have no disposition, starting at `"@ + first@
                    + "`; a pack that cannot name what it dropped is malformed, not compact"@,
            AccountingError::Manifest(error) => error.explanation(),
            AccountingError::CountOverflow { kind } => "the `"@ + kind.wire() + "` count does not fit a 32-bit exact count"@,
            AccountingError::SetTooLarge { size } =>
                "a candidate set of "@ + crate::json::decimal(*size as nat) + " is beyond a 32-bit exact count"@,
            AccountingError::DoesNotReconcile { candidates, accounted } =>
                "the candidate set has "@ + crate::json::decimal(*candidates as nat) + " members and the pack accounts for "@
                    + crate::json::decimal(*accounted as nat),
        }
    }

    /// The refusal's explanation.
    pub fn message(&self) -> (text: String)
        ensures
            text@ == self.explanation(),
    {
        let mut out = String::new();
        match self {
            AccountingError::RepeatedCandidate { id } => {
                crate::json::write_raw(&mut out, "`");
                crate::json::write_raw(&mut out, id.as_str());
                crate::json::write_raw(&mut out, "` appears twice in the candidate set");
            },
            AccountingError::UnknownCandidate { id } => {
                crate::json::write_raw(&mut out, "`");
                crate::json::write_raw(&mut out, id.as_str());
                crate::json::write_raw(&mut out, "` is not a candidate of this compile");
            },
            AccountingError::AlreadyDispositioned { id } => {
                crate::json::write_raw(&mut out, "`");
                crate::json::write_raw(&mut out, id.as_str());
                crate::json::write_raw(&mut out, "` already has a disposition");
            },
            AccountingError::Undispositioned { first, remaining } => {
                crate::json::write_decimal(&mut out, *remaining as u64);
                crate::json::write_raw(&mut out, " candidate(s) have no disposition, starting at `");
                crate::json::write_raw(&mut out, first.as_str());
                crate::json::write_raw(&mut out, "`; a pack that cannot name what it dropped is malformed, not compact");
            },
            AccountingError::Manifest(error) => {
                let inner = error.message();
                crate::json::write_raw(&mut out, inner.as_str());
            },
            AccountingError::CountOverflow { kind } => {
                crate::json::write_raw(&mut out, "the `");
                crate::json::write_raw(&mut out, kind.as_wire_str());
                crate::json::write_raw(&mut out, "` count does not fit a 32-bit exact count");
            },
            AccountingError::SetTooLarge { size } => {
                crate::json::write_raw(&mut out, "a candidate set of ");
                crate::json::write_decimal(&mut out, *size as u64);
                crate::json::write_raw(&mut out, " is beyond a 32-bit exact count");
            },
            AccountingError::DoesNotReconcile { candidates, accounted } => {
                crate::json::write_raw(&mut out, "the candidate set has ");
                crate::json::write_decimal(&mut out, *candidates);
                crate::json::write_raw(&mut out, " members and the pack accounts for ");
                crate::json::write_decimal(&mut out, *accounted);
            },
        }
        proof { assert(out@ =~= self.explanation()); }
        out
    }
}

} // verus!
