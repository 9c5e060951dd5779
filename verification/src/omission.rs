//! The omission manifest's closed reason vocabulary, its records, and the manifest itself.

use vstd::prelude::*;

use crate::expansion::{query_json, ExpansionQuery, ExpansionRelation};
use crate::json::{decimal, json_array, json_string, lemma_joined_push, write_decimal, write_raw, write_separator};
use crate::name::precedes;
use crate::selection::SelectionKind;
use crate::text::str_eq;

verus! {

/// One member of the closed `omissions[].reason` vocabulary, in schema order.
#[derive(Debug, Clone, Copy, PartialEq, Eq, Hash, PartialOrd, Ord, Structural)]
pub enum OmissionReason {
    /// Dropped by budget packing.
    Budget,
    /// Withheld by field policy from this caller.
    Redaction,
    /// Outside the engine's semantics.
    Unsupported,
    /// Dropped because the compiler could not decide.
    HeuristicCutoff,
    /// Provably outside the property-directed slice.
    SliceIrrelevant,
}

impl OmissionReason {
    /// Every member, in declaration order.
    pub const ALL: [OmissionReason; 5] = [
        OmissionReason::Budget,
        OmissionReason::Redaction,
        OmissionReason::Unsupported,
        OmissionReason::HeuristicCutoff,
        OmissionReason::SliceIrrelevant,
    ];

    /// The member's position in declaration order.
    pub open spec fn rank(self) -> int {
        match self {
            OmissionReason::Budget => 0,
            OmissionReason::Redaction => 1,
            OmissionReason::Unsupported => 2,
            OmissionReason::HeuristicCutoff => 3,
            OmissionReason::SliceIrrelevant => 4,
        }
    }

    /// `ALL` lists every member at its rank.
    pub proof fn lemma_all_lists(member: OmissionReason)
        ensures
            0 <= member.rank() < 5,
            OmissionReason::ALL@[member.rank()] == member,
    {
    }

    /// The member's stable token.
    pub open spec fn wire(self) -> Seq<char> {
        match self {
            OmissionReason::Budget => "budget"@,
            OmissionReason::Redaction => "redaction"@,
            OmissionReason::Unsupported => "unsupported"@,
            OmissionReason::HeuristicCutoff => "heuristic-cutoff"@,
            OmissionReason::SliceIrrelevant => "slice-irrelevant"@,
        }
    }

    /// The wire token, byte-identical to the schema's.
    pub fn as_wire_str(self) -> (text: &'static str)
        ensures
            text@ == self.wire(),
    {
        match self {
            OmissionReason::Budget => "budget",
            OmissionReason::Redaction => "redaction",
            OmissionReason::Unsupported => "unsupported",
            OmissionReason::HeuristicCutoff => "heuristic-cutoff",
            OmissionReason::SliceIrrelevant => "slice-irrelevant",
        }
    }

    /// The token's length and the characters that tell members' tokens apart.
    pub open spec fn signature(self) -> (int, char) {
        match self {
            OmissionReason::Budget => (6, 'b'),
            OmissionReason::Redaction => (9, 'r'),
            OmissionReason::Unsupported => (11, 'u'),
            OmissionReason::HeuristicCutoff => (16, 'h'),
            OmissionReason::SliceIrrelevant => (16, 's'),
        }
    }

    proof fn lemma_signature(member: OmissionReason)
        ensures
            member.wire().len() == member.signature().0,
            member.wire()[0] == member.signature().1,
    {
        match member {
            OmissionReason::Budget => reveal_strlit("budget"),
            OmissionReason::Redaction => reveal_strlit("redaction"),
            OmissionReason::Unsupported => reveal_strlit("unsupported"),
            OmissionReason::HeuristicCutoff => reveal_strlit("heuristic-cutoff"),
            OmissionReason::SliceIrrelevant => reveal_strlit("slice-irrelevant"),
        }
    }

    /// Distinct members have distinct tokens.
    pub proof fn lemma_wire_injective(a: OmissionReason, b: OmissionReason)
        ensures
            a.wire() == b.wire() ==> a == b,
    {
        OmissionReason::lemma_signature(a);
        OmissionReason::lemma_signature(b);
    }

    /// Recover a member from its token, failing closed on anything else.
    pub fn from_wire_str(text: &str) -> (parsed: Option<OmissionReason>)
        ensures
            forall|member: OmissionReason| (parsed == Some(member)) == (text@ == member.wire()),
    {
        let all = OmissionReason::ALL;
        let mut i: usize = 0;
        while i < 5
            invariant
                all@ == OmissionReason::ALL@,
                i <= 5,
                forall|j: int| 0 <= j < i ==> text@ != all@[j].wire(),
            decreases 5 - i,
        {
            if str_eq(text, all[i].as_wire_str()) {
                proof {
                    assert forall|member: OmissionReason| (Some(all[i as int]) == Some(member)) == (text@ == member.wire()) by {
                        OmissionReason::lemma_wire_injective(all[i as int], member);
                    }
                }
                return Some(all[i]);
            }
            i = i + 1;
        }
        proof {
            assert forall|member: OmissionReason| text@ != member.wire() by {
                OmissionReason::lemma_all_lists(member);
            }
        }
        None
    }

}

impl OmissionReason {
    /// Whether this reason can explain irretrievability: `redaction` and `unsupported` alone.
    pub fn admits_irretrievability(self) -> (admits: bool)
        ensures
            admits == (self == OmissionReason::Redaction || self == OmissionReason::Unsupported),
    {
        matches!(self, OmissionReason::Redaction | OmissionReason::Unsupported)
    }
}

/// The two reasons that can stand behind `expandable: false`.
#[derive(Debug, Clone, Copy, PartialEq, Eq, Hash, PartialOrd, Ord, Structural)]
pub enum IrretrievableReason {
    /// The content was withheld by field policy.
    Redaction,
    /// The engine cannot produce the content in this protocol version.
    Unsupported,
}

impl IrretrievableReason {
    /// Both members, in [`OmissionReason`]'s order.
    pub const ALL: [IrretrievableReason; 2] = [IrretrievableReason::Redaction, IrretrievableReason::Unsupported];

    /// The manifest reason this irretrievability is recorded as.
    pub open spec fn as_reason(self) -> OmissionReason {
        match self {
            IrretrievableReason::Redaction => OmissionReason::Redaction,
            IrretrievableReason::Unsupported => OmissionReason::Unsupported,
        }
    }

    /// The manifest reason this irretrievability is recorded as.
    pub fn reason(self) -> (reason: OmissionReason)
        ensures
            reason == self.as_reason(),
    {
        match self {
            IrretrievableReason::Redaction => OmissionReason::Redaction,
            IrretrievableReason::Unsupported => OmissionReason::Unsupported,
        }
    }
}

/// Exactly the reasons an irretrievable record can be recorded under are the ones that admit
/// irretrievability.
pub proof fn law_irretrievability_is_the_schemas_conditional(reason: OmissionReason)
    ensures
        (reason == OmissionReason::Redaction || reason == OmissionReason::Unsupported)
            <==> exists|r: IrretrievableReason| r.as_reason() == reason,
{
    if reason == OmissionReason::Redaction {
        assert(IrretrievableReason::Redaction.as_reason() == reason);
    }
    if reason == OmissionReason::Unsupported {
        assert(IrretrievableReason::Unsupported.as_reason() == reason);
    }
}


/// An expansion query as identifiers: its relation and its anchor.
pub type QueryView = (ExpansionRelation, Seq<char>);

/// Whether an omitted group can be retrieved, and how.
#[derive(Debug, PartialEq, Eq)]
pub enum Retrievability {
    /// `expandable: true`, and the query that retrieves the group.
    Expandable(ExpansionQuery),
    /// `expandable: false`, and the typed reason nothing retrieves it.
    Irretrievable(IrretrievableReason),
}

impl Clone for Retrievability {
    fn clone(&self) -> (copy: Retrievability)
        ensures
            copy.query_view() == self.query_view(),
            copy.irretrievable_view() == self.irretrievable_view(),
    {
        match self {
            Retrievability::Expandable(query) => Retrievability::Expandable(query.clone()),
            Retrievability::Irretrievable(reason) => Retrievability::Irretrievable(*reason),
        }
    }
}

impl Retrievability {
    /// The query that retrieves the group, as identifiers, when one does.
    pub open spec fn query_view(&self) -> Option<QueryView> {
        match self {
            Retrievability::Expandable(query) => Some((query.relation_spec(), query.anchor_spec())),
            Retrievability::Irretrievable(_) => None,
        }
    }

    /// The reason nothing retrieves the group, when nothing does.
    pub open spec fn irretrievable_view(&self) -> Option<IrretrievableReason> {
        match self {
            Retrievability::Expandable(_) => None,
            Retrievability::Irretrievable(reason) => Some(*reason),
        }
    }

    /// The schema's `expandable` boolean.
    pub fn is_expandable(&self) -> (expandable: bool)
        ensures
            expandable == (self.query_view() is Some),
    {
        matches!(self, Retrievability::Expandable(_))
    }

    /// The query that retrieves this group, when one exists.
    pub fn query(&self) -> (query: Option<&ExpansionQuery>)
        ensures
            query is Some <==> self.query_view() is Some,
            query matches Some(q) ==> self.query_view() == Some((q.relation_spec(), q.anchor_spec())),
    {
        match self {
            Retrievability::Expandable(query) => Some(query),
            Retrievability::Irretrievable(_) => None,
        }
    }
}

/// A partition cell: `(kind, reason, retrievability)`.
pub type Cell = (SelectionKind, OmissionReason, Option<QueryView>);

/// A record's canonical sort key: kind, reason, expandable before irretrievable, the
/// query's relation or the irretrievable reason, the anchor, and the count last.
pub type RecordKey = (int, int, int, int, Seq<char>, nat);

/// The strict lexicographic order on record keys.
pub open spec fn key_lt(a: RecordKey, b: RecordKey) -> bool {
    if a.0 != b.0 {
        a.0 < b.0
    } else if a.1 != b.1 {
        a.1 < b.1
    } else if a.2 != b.2 {
        a.2 < b.2
    } else if a.3 != b.3 {
        a.3 < b.3
    } else if a.4 != b.4 {
        precedes(a.4, b.4)
    } else {
        a.5 < b.5
    }
}

/// The order on record keys is a strict total order.
pub proof fn lemma_key_order(a: RecordKey, b: RecordKey, c: RecordKey)
    ensures
        !key_lt(a, a),
        key_lt(a, b) ==> !key_lt(b, a),
        a != b ==> key_lt(a, b) || key_lt(b, a),
        key_lt(a, b) && key_lt(b, c) ==> key_lt(a, c),
{
    crate::name::lemma_precedes_order(a.4, b.4, c.4);
    crate::name::lemma_precedes_order(b.4, c.4, a.4);
    crate::name::lemma_precedes_order(a.4, c.4, b.4);
}

/// One `omissions[]` record: `{kind, count, reason, expandable, expansion?}`.
#[derive(Debug, PartialEq, Eq)]
pub struct OmissionRecord {
    kind: SelectionKind,
    reason: OmissionReason,
    retrievability: Retrievability,
    count: u32,
}

impl Clone for OmissionRecord {
    fn clone(&self) -> (copy: OmissionRecord)
        ensures
            copy.cell() == self.cell(),
            copy.key() == self.key(),
            copy.tally() == self.tally(),
    {
        OmissionRecord {
            kind: self.kind,
            reason: self.reason,
            retrievability: self.retrievability.clone(),
            count: self.count,
        }
    }
}

impl OmissionRecord {
    /// The partition cell this record accounts for.
    pub closed spec fn cell(&self) -> Cell {
        (self.kind, self.reason, self.retrievability.query_view())
    }

    /// The exact count of omitted items.
    pub closed spec fn tally(&self) -> nat {
        self.count as nat
    }

    /// The record's canonical sort key.
    pub closed spec fn key(&self) -> RecordKey {
        match self.retrievability {
            Retrievability::Expandable(query) => (
                self.kind.rank(),
                self.reason.rank(),
                0,
                query.relation_spec().rank(),
                query.anchor_spec(),
                self.count as nat,
            ),
            Retrievability::Irretrievable(_) => (self.kind.rank(), self.reason.rank(), 1, self.reason.rank(), Seq::empty(), self.count as nat),
        }
    }

    /// A record's count is an exact 32-bit count.
    pub proof fn lemma_tally_fits(record: &OmissionRecord)
        ensures
            record.tally() <= u32::MAX,
    {
    }

    /// Records of one cell share their key but for the count.
    pub proof fn lemma_cell_is_key_prefix(a: &OmissionRecord, b: &OmissionRecord)
        ensures
            a.cell() == b.cell() <==> (a.key().0 == b.key().0 && a.key().1 == b.key().1 && a.key().2 == b.key().2
                && a.key().3 == b.key().3 && a.key().4 == b.key().4),
            a.key().5 == a.tally(),
    {
        SelectionKind::lemma_all_lists(a.kind);
        SelectionKind::lemma_all_lists(b.kind);
        OmissionReason::lemma_all_lists(a.reason);
        OmissionReason::lemma_all_lists(b.reason);
        match (&a.retrievability, &b.retrievability) {
            (Retrievability::Expandable(p), Retrievability::Expandable(q)) => {
                ExpansionRelation::lemma_all_lists(p.relation_spec());
                ExpansionRelation::lemma_all_lists(q.relation_spec());
            },
            _ => {},
        }
    }

    /// An expandable record: `count` items of `kind` were dropped for `reason`, and `query`
    /// retrieves them.
    pub fn expandable(kind: SelectionKind, count: u32, reason: OmissionReason, query: ExpansionQuery) -> (record: OmissionRecord)
        ensures
            record.cell() == (kind, reason, Some((query.relation_spec(), query.anchor_spec()))),
            record.tally() == count,
    {
        OmissionRecord { kind, reason, retrievability: Retrievability::Expandable(query), count }
    }

    /// An irretrievable record: `count` items of `kind` are gone, and `reason` is why.
    pub fn irretrievable(kind: SelectionKind, count: u32, reason: IrretrievableReason) -> (record: OmissionRecord)
        ensures
            record.cell() == (kind, reason.as_reason(), None::<QueryView>),
            record.tally() == count,
            record.irretrievable_spec() == Some(reason),
    {
        OmissionRecord { kind, reason: reason.reason(), retrievability: Retrievability::Irretrievable(reason), count }
    }

    /// The typed reason nothing retrieves the group, when nothing does.
    pub closed spec fn irretrievable_spec(&self) -> Option<IrretrievableReason> {
        self.retrievability.irretrievable_view()
    }

    /// The kind of the omitted items.
    pub fn kind(&self) -> (kind: SelectionKind)
        ensures
            kind == self.cell().0,
    {
        self.kind
    }

    /// The exact count of omitted items.
    pub fn count(&self) -> (count: u32)
        ensures
            count == self.tally(),
    {
        self.count
    }

    /// Why they were omitted.
    pub fn reason(&self) -> (reason: OmissionReason)
        ensures
            reason == self.cell().1,
    {
        self.reason
    }

    /// Whether and how they are retrievable.
    pub fn retrievability(&self) -> (retrievability: &Retrievability)
        ensures
            retrievability.query_view() == self.cell().2,
            retrievability.irretrievable_view() == self.irretrievable_spec(),
    {
        &self.retrievability
    }

    /// The same record with another count.
    fn with_count(&self, count: u32) -> (record: OmissionRecord)
        ensures
            record.cell() == self.cell(),
            record.tally() == count,
            record.irretrievable_spec() == self.irretrievable_spec(),
    {
        OmissionRecord { kind: self.kind, reason: self.reason, retrievability: self.retrievability.clone(), count }
    }

    /// Whether two records account for one partition cell.
    pub fn same_cell(&self, other: &OmissionRecord) -> (same: bool)
        ensures
            same == (self.cell() == other.cell()),
    {
        self.kind == other.kind && self.reason == other.reason && match (&self.retrievability, &other.retrievability) {
            (Retrievability::Expandable(p), Retrievability::Expandable(q)) => p.same(q),
            (Retrievability::Irretrievable(_), Retrievability::Irretrievable(_)) => true,
            _ => false,
        }
    }

    /// Whether this record sorts strictly before `other` in the manifest's canonical order.
    pub fn sorts_before(&self, other: &OmissionRecord) -> (before: bool)
        ensures
            before == key_lt(self.key(), other.key()),
    {
        let a = self.kind.slot();
        let b = other.kind.slot();
        if a != b {
            return a < b;
        }
        let a = reason_slot(self.reason);
        let b = reason_slot(other.reason);
        if a != b {
            return a < b;
        }
        match (&self.retrievability, &other.retrievability) {
            (Retrievability::Expandable(_), Retrievability::Irretrievable(_)) => return true,
            (Retrievability::Irretrievable(_), Retrievability::Expandable(_)) => return false,
            (Retrievability::Irretrievable(_), Retrievability::Irretrievable(_)) => {
                return self.count < other.count;
            },
            (Retrievability::Expandable(p), Retrievability::Expandable(q)) => {
                let a = relation_slot(p.relation());
                let b = relation_slot(q.relation());
                if a != b {
                    return a < b;
                }
                if !p.anchor().same(q.anchor()) {
                    return p.anchor().precedes(q.anchor());
                }
                return self.count < other.count;
            },
        }
    }
}

/// A reason's position in its vocabulary.
fn reason_slot(reason: OmissionReason) -> (index: usize)
    ensures
        index == reason.rank(),
{
    match reason {
        OmissionReason::Budget => 0,
        OmissionReason::Redaction => 1,
        OmissionReason::Unsupported => 2,
        OmissionReason::HeuristicCutoff => 3,
        OmissionReason::SliceIrrelevant => 4,
    }
}

/// A relation's position in its vocabulary.
fn relation_slot(relation: ExpansionRelation) -> (index: usize)
    ensures
        index == relation.rank(),
{
    match relation {
        ExpansionRelation::CausalPredecessors => 0,
        ExpansionRelation::CausalSuccessors => 1,
        ExpansionRelation::ConflictsWith => 2,
        ExpansionRelation::SameOwner => 3,
        ExpansionRelation::PropertyAutomatonStep => 4,
        ExpansionRelation::ProofDependency => 5,
        ExpansionRelation::SourceSpan => 6,
        ExpansionRelation::AssumptionUses => 7,
        ExpansionRelation::AbstractionOf => 8,
        ExpansionRelation::RefinementOf => 9,
        ExpansionRelation::AlternateBranch => 10,
    }
}


/// Whether records stand in strictly increasing canonical order.
pub open spec fn ascending(records: Seq<OmissionRecord>) -> bool {
    forall|i: int, j: int|
        0 <= i < j < records.len() ==> key_lt(#[trigger] records[i].key(), #[trigger] records[j].key())
}

/// Whether no two records account for one partition cell.
pub open spec fn partitions(records: Seq<OmissionRecord>) -> bool {
    forall|i: int, j: int|
        0 <= i < records.len() && 0 <= j < records.len() && i != j ==> #[trigger] records[i].cell()
            != #[trigger] records[j].cell()
}

/// Whether the record at `i` shares its partition cell with another record.
pub open spec fn shares_cell(records: Seq<OmissionRecord>, i: int) -> bool {
    exists|j: int| 0 <= j < records.len() && j != i && #[trigger] records[j].cell() == records[i].cell()
}

/// Whether some record of `records` accounts for `cell`.
pub open spec fn covers(records: Seq<OmissionRecord>, cell: Cell) -> bool {
    exists|p: int| 0 <= p < records.len() && #[trigger] records[p].cell() == cell
}

/// The sum of the counts of the first `n` records.
pub open spec fn prefix_tally(records: Seq<OmissionRecord>, n: int) -> nat
    decreases n,
{
    if n <= 0 {
        0
    } else {
        prefix_tally(records, n - 1) + records[n - 1].tally()
    }
}

/// The sum of all the records' counts.
pub open spec fn tally_sum(records: Seq<OmissionRecord>) -> nat {
    prefix_tally(records, records.len() as int)
}

/// The sum of the counts, among the first `n` records, of those in `cell`.
pub open spec fn cell_total(records: Seq<OmissionRecord>, cell: Cell, n: int) -> nat
    decreases n,
{
    if n <= 0 {
        0
    } else {
        cell_total(records, cell, n - 1) + if records[n - 1].cell() == cell {
            records[n - 1].tally()
        } else {
            0
        }
    }
}

/// Whether adding the record at `i` to its cell's running total leaves the exact-count width.
pub open spec fn overflows_at(records: Seq<OmissionRecord>, i: int) -> bool {
    cell_total(records, records[i].cell(), i + 1) > u32::MAX
}

/// A prefix's counts never exceed a longer prefix's.
pub proof fn lemma_prefix_tally_grows(records: Seq<OmissionRecord>, m: int, n: int)
    requires
        m <= n,
    ensures
        prefix_tally(records, m) <= prefix_tally(records, n),
    decreases n - m,
{
    if m < n {
        lemma_prefix_tally_grows(records, m, n - 1);
    }
}

/// A cell no earlier record names has a running total of nothing.
proof fn lemma_cell_total_absent(records: Seq<OmissionRecord>, cell: Cell, n: int)
    requires
        forall|k: int| 0 <= k < n ==> #[trigger] records[k].cell() != cell,
    ensures
        cell_total(records, cell, n) == 0,
    decreases n,
{
    if n > 0 {
        lemma_cell_total_absent(records, cell, n - 1);
    }
}

/// Inserting a record between its neighbours in key order keeps a listing ascending.
proof fn lemma_insert_ascending(s: Seq<OmissionRecord>, p: int, r: OmissionRecord)
    requires
        ascending(s),
        0 <= p <= s.len(),
        forall|q: int| 0 <= q < p ==> key_lt(#[trigger] s[q].key(), r.key()),
        p < s.len() ==> key_lt(r.key(), s[p].key()),
    ensures
        ascending(s.insert(p, r)),
{
    let t = s.insert(p, r);
    assert forall|a: int, b: int| 0 <= a < b < t.len() implies key_lt(#[trigger] t[a].key(), #[trigger] t[b].key()) by {
        if b < p {
            assert(key_lt(s[a].key(), s[b].key()));
        } else if b == p {
            assert(key_lt(s[a].key(), r.key()));
        } else if a < p {
            assert(key_lt(s[a].key(), r.key()));
            lemma_key_order(s[a].key(), r.key(), s[b - 1].key());
            if b - 1 > p {
                assert(key_lt(s[p].key(), s[b - 1].key()));
                lemma_key_order(r.key(), s[p].key(), s[b - 1].key());
            }
        } else if a == p {
            if b - 1 > p {
                assert(key_lt(s[p].key(), s[b - 1].key()));
                lemma_key_order(r.key(), s[p].key(), s[b - 1].key());
            }
        } else {
            assert(key_lt(s[a - 1].key(), s[b - 1].key()));
        }
    }
}

/// The whole manifest: one record per partition cell, in canonical order.
#[derive(Debug, PartialEq, Eq)]
pub struct Manifest {
    records: Vec<OmissionRecord>,
}

impl Manifest {
    #[verifier::type_invariant]
    spec fn canonical(self) -> bool {
        ascending(self.records@) && partitions(self.records@)
    }

    /// The records, in canonical order.
    pub closed spec fn listing(&self) -> Seq<OmissionRecord> {
        self.records@
    }

    /// The empty manifest: the assertion that the selection is the whole candidate set.
    pub fn empty() -> (manifest: Manifest)
        ensures
            manifest.listing().len() == 0,
    {
        Manifest { records: Vec::new() }
    }

    /// The records, in canonical order.
    pub fn records(&self) -> (records: &[OmissionRecord])
        ensures
            records@ == self.listing(),
            ascending(self.listing()),
            partitions(self.listing()),
    {
        proof { use_type_invariant(self); }
        self.records.as_slice()
    }

    /// Whether this manifest asserts completeness.
    pub fn is_empty(&self) -> (empty: bool)
        ensures
            empty == (self.listing().len() == 0),
    {
        self.records.len() == 0
    }

    /// The exact total of everything this manifest accounts for.
    pub fn total(&self) -> (total: u64)
        requires
            tally_sum(self.listing()) <= u64::MAX,
        ensures
            total == tally_sum(self.listing()),
    {
        let n = self.records.len();
        let mut total: u64 = 0;
        let mut i: usize = 0;
        while i < n
            invariant
                n == self.listing().len(),
                i <= n,
                total == prefix_tally(self.listing(), i as int),
                tally_sum(self.listing()) <= u64::MAX,
            decreases n - i,
        {
            proof { lemma_prefix_tally_grows(self.listing(), i + 1, n as int); }
            total = total + self.records[i].count() as u64;
            i = i + 1;
        }
        total
    }
}

/// Whether the record at `i` shares its partition cell with another record.
fn has_twin(records: &Vec<OmissionRecord>, i: usize) -> (twin: bool)
    requires
        i < records@.len(),
    ensures
        twin == shares_cell(records@, i as int),
{
    let n = records.len();
    let mut j: usize = 0;
    while j < n
        invariant
            n == records@.len(),
            i < n,
            j <= n,
            forall|k: int| 0 <= k < j && k != i ==> #[trigger] records@[k].cell() != records@[i as int].cell(),
        decreases n - j,
    {
        if j != i && records[j].same_cell(&records[i]) {
            return true;
        }
        j = j + 1;
    }
    false
}

impl Manifest {
    /// Build a manifest, sorting the records into their one canonical order.
    ///
    /// Refuses two records of one partition cell, naming the least such cell.
    pub fn new(records: Vec<OmissionRecord>) -> (manifest: Result<Manifest, ManifestError>)
        ensures
            manifest is Ok <==> partitions(records@),
            manifest matches Ok(m) ==> {
                &&& m.listing().len() == records@.len()
                &&& ascending(m.listing())
                &&& partitions(m.listing())
                &&& forall|k: int| 0 <= k < records@.len() ==> m.listing().contains(#[trigger] records@[k])
                &&& forall|p: int| 0 <= p < m.listing().len() ==> records@.contains(#[trigger] m.listing()[p])
            },
            manifest matches Err(e) ==> exists|i: int| {
                &&& 0 <= i < records@.len()
                &&& shares_cell(records@, i)
                &&& e == (ManifestError::RepeatedCell { kind: records@[i].cell().0, reason: records@[i].cell().1 })
                &&& forall|k: int| 0 <= k < records@.len() && shares_cell(records@, k)
                    ==> !key_lt(#[trigger] records@[k].key(), records@[i].key())
            },
    {
        let n = records.len();
        let mut least: Option<usize> = None;
        let mut i: usize = 0;
        while i < n
            invariant
                n == records@.len(),
                i <= n,
                least matches Some(b) ==> {
                    &&& b < i
                    &&& shares_cell(records@, b as int)
                    &&& forall|k: int| 0 <= k < i && shares_cell(records@, k)
                        ==> !key_lt(#[trigger] records@[k].key(), records@[b as int].key())
                },
                least is None ==> forall|k: int| 0 <= k < i ==> !shares_cell(records@, k),
            decreases n - i,
        {
            if has_twin(&records, i) {
                match least {
                    None => {
                        least = Some(i);
                    },
                    Some(b) => {
                        if records[i].sorts_before(&records[b]) {
                            proof {
                                assert forall|k: int| 0 <= k < i + 1 && shares_cell(records@, k)
                                    implies !key_lt(#[trigger] records@[k].key(), records@[i as int].key()) by {
                                    lemma_key_order(records@[k].key(), records@[i as int].key(), records@[b as int].key());
                                    lemma_key_order(records@[i as int].key(), records@[i as int].key(), records@[i as int].key());
                                }
                            }
                            least = Some(i);
                        }
                    },
                }
            }
            i = i + 1;
        }
        if let Some(b) = least {
            return Err(ManifestError::RepeatedCell { kind: records[b].kind(), reason: records[b].reason() });
        }
        proof {
            assert forall|a: int, c: int| 0 <= a < records@.len() && 0 <= c < records@.len() && a != c
                implies #[trigger] records@[a].cell() != #[trigger] records@[c].cell() by {
                assert(!shares_cell(records@, a));
            }
        }
        let ghost orig = records@;
        let mut rest = records;
        let mut sorted: Vec<OmissionRecord> = Vec::new();
        while rest.len() > 0
            invariant
                partitions(orig),
                rest@ == orig.subrange(0, rest@.len() as int),
                sorted@.len() + rest@.len() == orig.len(),
                ascending(sorted@),
                forall|p: int| 0 <= p < sorted@.len() ==> exists|k: int|
                    rest@.len() <= k < orig.len() && orig[k] == #[trigger] sorted@[p],
                forall|k: int| rest@.len() <= k < orig.len() ==> sorted@.contains(#[trigger] orig[k]),
            decreases rest@.len(),
        {
            let ghost before = sorted@;
            let ghost here = (rest@.len() - 1) as int;
            let r = rest.pop().unwrap();
            assert(r == orig[here]);
            assert forall|q: int| 0 <= q < sorted@.len() implies exists|k: int|
                here + 1 <= k < orig.len() && orig[k] == #[trigger] sorted@[q] by {
                let k = choose|k: int| here + 1 <= k < orig.len() && orig[k] == #[trigger] before[q];
                assert(orig[k] == sorted@[q]);
            }
            let mut p: usize = 0;
            #[verifier::loop_isolation(false)]
            while p < sorted.len()
                invariant
                    p <= sorted@.len(),
                    forall|q: int| 0 <= q < p ==> key_lt(#[trigger] sorted@[q].key(), r.key()),
                decreases sorted@.len() - p,
            {
                if r.sorts_before(&sorted[p]) {
                    break;
                }
                proof {
                    let k = choose|k: int| here + 1 <= k < orig.len() && orig[k] == #[trigger] sorted@[p as int];
                    assert(orig[k].cell() != orig[here].cell());
                    OmissionRecord::lemma_cell_is_key_prefix(&sorted@[p as int], &r);
                    lemma_key_order(sorted@[p as int].key(), r.key(), r.key());
                }
                p = p + 1;
            }
            proof { lemma_insert_ascending(before, p as int, r); }
            sorted.insert(p, r);
            proof {
                assert(sorted@ == before.insert(p as int, r));
                assert forall|q: int| 0 <= q < sorted@.len() implies exists|k: int|
                    here <= k < orig.len() && orig[k] == #[trigger] sorted@[q] by {
                    if q < p {
                        assert(sorted@[q] == before[q]);
                    } else if q == p {
                        assert(orig[here] == sorted@[q]);
                    } else {
                        assert(sorted@[q] == before[q - 1]);
                    }
                }
                assert forall|k: int| here <= k < orig.len() implies sorted@.contains(#[trigger] orig[k]) by {
                    if k == here {
                        assert(sorted@[p as int] == orig[k]);
                    } else {
                        assert(before.contains(orig[k]));
                        let q = choose|q: int| 0 <= q < before.len() && before[q] == orig[k];
                        if q < p {
                            assert(sorted@[q] == orig[k]);
                        } else {
                            assert(sorted@[q + 1] == orig[k]);
                        }
                    }
                }
            }
        }
        proof {
            assert forall|a: int, c: int| 0 <= a < sorted@.len() && 0 <= c < sorted@.len() && a != c
                implies #[trigger] sorted@[a].cell() != #[trigger] sorted@[c].cell() by {
                let ka = choose|k: int| rest@.len() <= k < orig.len() && orig[k] == #[trigger] sorted@[a];
                let kc = choose|k: int| rest@.len() <= k < orig.len() && orig[k] == #[trigger] sorted@[c];
                if a < c {
                    assert(key_lt(sorted@[a].key(), sorted@[c].key()));
                } else {
                    assert(key_lt(sorted@[c].key(), sorted@[a].key()));
                }
                lemma_key_order(sorted@[a].key(), sorted@[c].key(), sorted@[a].key());
                if ka != kc {
                    assert(orig[ka].cell() != orig[kc].cell());
                }
            }
            assert forall|k: int| 0 <= k < orig.len() implies sorted@.contains(#[trigger] orig[k]) by {}
            assert forall|p: int| 0 <= p < sorted@.len() implies orig.contains(#[trigger] sorted@[p]) by {
                let k = choose|k: int| rest@.len() <= k < orig.len() && orig[k] == #[trigger] sorted@[p];
                assert(orig[k] == sorted@[p]);
            }
        }
        Ok(Manifest { records: sorted })
    }
}

/// The sum, over the first `m` records of `groups`, of what their cells total among the first
/// `n` of `records`.
pub open spec fn grouped_total(groups: Seq<OmissionRecord>, records: Seq<OmissionRecord>, m: int, n: int) -> nat
    decreases m,
{
    if m <= 0 {
        0
    } else {
        grouped_total(groups, records, m - 1, n) + cell_total(records, groups[m - 1].cell(), n)
    }
}

proof fn lemma_grouped_total_empty(groups: Seq<OmissionRecord>, records: Seq<OmissionRecord>, m: int)
    ensures
        grouped_total(groups, records, m, 0) == 0,
    decreases m,
{
    if m > 0 {
        lemma_grouped_total_empty(groups, records, m - 1);
    }
}

/// Counting one more record adds its count to the one group of its cell, if there is one.
proof fn lemma_grouped_total_step(groups: Seq<OmissionRecord>, records: Seq<OmissionRecord>, m: int, n: int)
    requires
        partitions(groups),
        0 <= m <= groups.len(),
        0 <= n < records.len(),
    ensures
        (exists|p: int| 0 <= p < m && #[trigger] groups[p].cell() == records[n].cell())
            ==> grouped_total(groups, records, m, n + 1) == grouped_total(groups, records, m, n) + records[n].tally(),
        (forall|p: int| 0 <= p < m ==> #[trigger] groups[p].cell() != records[n].cell())
            ==> grouped_total(groups, records, m, n + 1) == grouped_total(groups, records, m, n),
    decreases m,
{
    if m > 0 {
        lemma_grouped_total_step(groups, records, m - 1, n);
        if groups[m - 1].cell() == records[n].cell() {
            assert forall|p: int| 0 <= p < m - 1 implies #[trigger] groups[p].cell() != records[n].cell() by {
                assert(groups[p].cell() != groups[m - 1].cell());
            }
        } else {
            if exists|p: int| 0 <= p < m && #[trigger] groups[p].cell() == records[n].cell() {
                let p = choose|p: int| 0 <= p < m && #[trigger] groups[p].cell() == records[n].cell();
                assert(p < m - 1);
            }
        }
    }
}

proof fn lemma_grouped_prefix(groups: Seq<OmissionRecord>, records: Seq<OmissionRecord>, n: int)
    requires
        partitions(groups),
        0 <= n <= records.len(),
        forall|k: int| 0 <= k < records.len() ==> #[trigger] covers(groups, records[k].cell()),
    ensures
        grouped_total(groups, records, groups.len() as int, n) == prefix_tally(records, n),
    decreases n,
{
    if n == 0 {
        lemma_grouped_total_empty(groups, records, groups.len() as int);
    } else {
        lemma_grouped_prefix(groups, records, n - 1);
        assert(covers(groups, records[n - 1].cell()));
        lemma_grouped_total_step(groups, records, groups.len() as int, n - 1);
    }
}

proof fn lemma_group_tallies(groups: Seq<OmissionRecord>, records: Seq<OmissionRecord>, m: int)
    requires
        0 <= m <= groups.len(),
        forall|p: int| 0 <= p < groups.len() ==> #[trigger] groups[p].tally()
            == cell_total(records, groups[p].cell(), records.len() as int),
    ensures
        prefix_tally(groups, m) == grouped_total(groups, records, m, records.len() as int),
    decreases m,
{
    if m > 0 {
        lemma_group_tallies(groups, records, m - 1);
        assert(groups[m - 1].tally() == cell_total(records, groups[m - 1].cell(), records.len() as int));
    }
}

/// Regrouping records by cell keeps their total: where each record's cell has one group, and
/// each group counts its cell's records, the groups' counts sum to the records' counts.
pub proof fn lemma_regrouped_total(groups: Seq<OmissionRecord>, records: Seq<OmissionRecord>)
    requires
        partitions(groups),
        forall|k: int| 0 <= k < records.len() ==> #[trigger] covers(groups, records[k].cell()),
        forall|p: int| 0 <= p < groups.len() ==> #[trigger] groups[p].tally()
            == cell_total(records, groups[p].cell(), records.len() as int),
    ensures
        tally_sum(groups) == tally_sum(records),
{
    lemma_grouped_prefix(groups, records, records.len() as int);
    lemma_group_tallies(groups, records, groups.len() as int);
}

/// Counts add over a concatenation.
pub proof fn lemma_tally_sum_concat(a: Seq<OmissionRecord>, b: Seq<OmissionRecord>)
    ensures
        tally_sum(a + b) == tally_sum(a) + tally_sum(b),
    decreases b.len(),
{
    if b.len() > 0 {
        lemma_tally_sum_concat(a, b.drop_last());
        assert((a + b).drop_last() =~= a + b.drop_last());
        lemma_prefix_tally_last(a + b);
        lemma_prefix_tally_last(b);
    } else {
        assert(a + b =~= a);
    }
}

/// The whole count is the count without the last record, plus the last record's.
proof fn lemma_prefix_tally_last(records: Seq<OmissionRecord>)
    requires
        records.len() > 0,
    ensures
        tally_sum(records) == tally_sum(records.drop_last()) + records.last().tally(),
{
    lemma_prefix_tally_agrees(records, records.drop_last(), records.len() - 1);
}

/// Two listings that agree on their first `n` records agree on those records' count.
proof fn lemma_prefix_tally_agrees(a: Seq<OmissionRecord>, b: Seq<OmissionRecord>, n: int)
    requires
        0 <= n <= a.len(),
        n <= b.len(),
        forall|k: int| 0 <= k < n ==> a[k] == b[k],
    ensures
        prefix_tally(a, n) == prefix_tally(b, n),
    decreases n,
{
    if n > 0 {
        lemma_prefix_tally_agrees(a, b, n - 1);
    }
}

/// Two listings that agree on their first `n` records agree on those records' cell totals.
proof fn lemma_cell_total_agrees(a: Seq<OmissionRecord>, b: Seq<OmissionRecord>, cell: Cell, n: int)
    requires
        0 <= n <= a.len(),
        n <= b.len(),
        forall|k: int| 0 <= k < n ==> a[k] == b[k],
    ensures
        cell_total(a, cell, n) == cell_total(b, cell, n),
    decreases n,
{
    if n > 0 {
        lemma_cell_total_agrees(a, b, cell, n - 1);
    }
}

/// A cell's total adds over a concatenation.
pub proof fn lemma_cell_total_concat(a: Seq<OmissionRecord>, b: Seq<OmissionRecord>, cell: Cell, n: int)
    requires
        0 <= n <= b.len(),
    ensures
        cell_total(a + b, cell, a.len() + n) == cell_total(a, cell, a.len() as int) + cell_total(b, cell, n),
    decreases n,
{
    if n == 0 {
        lemma_cell_total_agrees(a + b, a, cell, a.len() as int);
    } else {
        lemma_cell_total_concat(a, b, cell, n - 1);
        assert((a + b)[a.len() + n - 1] == b[n - 1]);
    }
}

/// Listings that agree cell for cell and count for count agree on every total.
pub proof fn lemma_totals_agree(a: Seq<OmissionRecord>, b: Seq<OmissionRecord>, cell: Cell, n: int)
    requires
        0 <= n <= a.len(),
        n <= b.len(),
        forall|k: int| 0 <= k < n ==> #[trigger] a[k].cell() == b[k].cell() && a[k].tally() == b[k].tally(),
    ensures
        cell_total(a, cell, n) == cell_total(b, cell, n),
        prefix_tally(a, n) == prefix_tally(b, n),
    decreases n,
{
    if n > 0 {
        lemma_totals_agree(a, b, cell, n - 1);
        assert(a[n - 1].cell() == b[n - 1].cell());
    }
}

/// A running cell total never falls as more records are counted.
pub proof fn lemma_cell_total_grows(records: Seq<OmissionRecord>, cell: Cell, m: int, n: int)
    requires
        0 <= m <= n,
    ensures
        cell_total(records, cell, m) <= cell_total(records, cell, n),
    decreases n - m,
{
    if m < n {
        lemma_cell_total_grows(records, cell, m, n - 1);
    }
}

/// Records after the last one of a cell add nothing to that cell's total.
proof fn lemma_cell_total_settled(records: Seq<OmissionRecord>, cell: Cell, m: int, n: int)
    requires
        0 <= m <= n,
        forall|k: int| m <= k < n ==> #[trigger] records[k].cell() != cell,
    ensures
        cell_total(records, cell, m) == cell_total(records, cell, n),
    decreases n - m,
{
    if m < n {
        lemma_cell_total_settled(records, cell, m, n - 1);
    }
}

/// In a partition, a cell's total is the count of its one record, or nothing.
pub proof fn lemma_cell_total_partition(records: Seq<OmissionRecord>, cell: Cell, n: int)
    requires
        partitions(records),
        0 <= n <= records.len(),
    ensures
        (exists|p: int| 0 <= p < n && #[trigger] records[p].cell() == cell) ==> {
            let p = choose|p: int| 0 <= p < n && #[trigger] records[p].cell() == cell;
            cell_total(records, cell, n) == records[p].tally()
        },
        (forall|p: int| 0 <= p < n ==> #[trigger] records[p].cell() != cell) ==> cell_total(records, cell, n) == 0,
    decreases n,
{
    if n > 0 {
        lemma_cell_total_partition(records, cell, n - 1);
        if records[n - 1].cell() == cell {
            assert forall|p: int| 0 <= p < n - 1 implies #[trigger] records[p].cell() != cell by {
                assert(records[p].cell() != records[n - 1].cell());
            }
            let p = choose|p: int| 0 <= p < n && #[trigger] records[p].cell() == cell;
            if p != n - 1 {
                assert(records[p].cell() != records[n - 1].cell());
            }
        } else if exists|p: int| 0 <= p < n && #[trigger] records[p].cell() == cell {
            let p = choose|p: int| 0 <= p < n && #[trigger] records[p].cell() == cell;
            assert(p < n - 1);
            assert(exists|q: int| 0 <= q < n - 1 && #[trigger] records[q].cell() == cell);
            let q = choose|q: int| 0 <= q < n - 1 && #[trigger] records[q].cell() == cell;
            if q != p {
                assert(records[p].cell() != records[q].cell());
            }
        }
    } else {
        if exists|p: int| 0 <= p < n && #[trigger] records[p].cell() == cell {
            let p = choose|p: int| 0 <= p < n && #[trigger] records[p].cell() == cell;
        }
    }
}

/// A merge fails exactly where some cell's total over all the records leaves the exact-count
/// width.
pub proof fn lemma_overflow_somewhere(records: Seq<OmissionRecord>)
    ensures
        (exists|i: int| 0 <= i < records.len() && overflows_at(records, i)) <==> (exists|i: int|
            0 <= i < records.len() && cell_total(records, #[trigger] records[i].cell(), records.len() as int) > u32::MAX),
{
    if exists|i: int| 0 <= i < records.len() && overflows_at(records, i) {
        let i = choose|i: int| 0 <= i < records.len() && overflows_at(records, i);
        lemma_cell_total_grows(records, records[i].cell(), i + 1, records.len() as int);
        assert(cell_total(records, records[i].cell(), records.len() as int) > u32::MAX);
    }
    if exists|i: int| 0 <= i < records.len() && cell_total(records, #[trigger] records[i].cell(), records.len() as int) > u32::MAX {
        let i = choose|i: int| 0 <= i < records.len() && cell_total(records, #[trigger] records[i].cell(), records.len() as int) > u32::MAX;
        lemma_overflow_reached(records, records[i].cell(), records.len() as int);
    }
}

/// A cell whose total over the first `n` records is past the width overflows at one of them.
proof fn lemma_overflow_reached(records: Seq<OmissionRecord>, cell: Cell, n: int)
    requires
        0 <= n <= records.len(),
        cell_total(records, cell, n) > u32::MAX,
    ensures
        exists|i: int| 0 <= i < n && overflows_at(records, i),
    decreases n,
{
    if n > 0 {
        if records[n - 1].cell() == cell {
            assert(overflows_at(records, n - 1));
        } else {
            lemma_overflow_reached(records, cell, n - 1);
        }
    }
}

/// The running state of a merge after `i` records: one entry per cell met so far, each
/// carrying its cell's running total.
#[verifier::opaque]
spec fn tracks(cells: Seq<OmissionRecord>, records: Seq<OmissionRecord>, i: int) -> bool {
    &&& partitions(cells)
    &&& forall|c: int| 0 <= c < cells.len() ==> exists|k: int|
        0 <= k < i && #[trigger] cells[c].cell() == #[trigger] records[k].cell()
    &&& forall|k: int| 0 <= k < i ==> exists|c: int|
        0 <= c < cells.len() && #[trigger] cells[c].cell() == #[trigger] records[k].cell()
    &&& forall|c: int| 0 <= c < cells.len() ==> #[trigger] cells[c].tally()
        == cell_total(records, cells[c].cell(), i)
}

proof fn lemma_tracks_start(records: Seq<OmissionRecord>)
    ensures
        tracks(Seq::empty(), records, 0),
{
    reveal(tracks);
}

/// Where the next record's cell is already tracked, its entry holds the running total.
proof fn lemma_tracks_found(cells: Seq<OmissionRecord>, records: Seq<OmissionRecord>, i: int, c: int)
    requires
        tracks(cells, records, i),
        0 <= c < cells.len(),
    ensures
        cells[c].tally() == cell_total(records, cells[c].cell(), i),
{
    reveal(tracks);
}

/// Where no tracked entry has the next record's cell, that cell has no running total yet.
proof fn lemma_tracks_missing(cells: Seq<OmissionRecord>, records: Seq<OmissionRecord>, i: int)
    requires
        tracks(cells, records, i),
        0 <= i < records.len(),
        forall|d: int| 0 <= d < cells.len() ==> #[trigger] cells[d].cell() != records[i].cell(),
    ensures
        cell_total(records, records[i].cell(), i) == 0,
{
    reveal(tracks);
    assert forall|k: int| 0 <= k < i implies #[trigger] records[k].cell() != records[i].cell() by {
        let d = choose|d: int| 0 <= d < cells.len() && #[trigger] cells[d].cell() == #[trigger] records[k].cell();
    }
    lemma_cell_total_absent(records, records[i].cell(), i);
}

/// Adding the next record's count to its tracked entry keeps the state.
proof fn lemma_tracks_update(
    before: Seq<OmissionRecord>,
    records: Seq<OmissionRecord>,
    i: int,
    c: int,
    updated: OmissionRecord,
)
    requires
        tracks(before, records, i),
        0 <= i < records.len(),
        0 <= c < before.len(),
        before[c].cell() == records[i].cell(),
        updated.cell() == before[c].cell(),
        updated.tally() == before[c].tally() + records[i].tally(),
    ensures
        tracks(before.update(c, updated), records, i + 1),
{
    reveal(tracks);
    let cells = before.update(c, updated);
    let cell = records[i].cell();
    assert forall|a: int, b: int| 0 <= a < cells.len() && 0 <= b < cells.len() && a != b
        implies #[trigger] cells[a].cell() != #[trigger] cells[b].cell() by {
        assert(before[a].cell() != before[b].cell());
    }
    assert forall|d: int| 0 <= d < cells.len() implies #[trigger] cells[d].tally()
        == cell_total(records, cells[d].cell(), i + 1) by {
        if d != c {
            assert(before[d].cell() != before[c].cell());
        }
    }
    assert forall|d: int| 0 <= d < cells.len() implies exists|k: int|
        0 <= k < i + 1 && #[trigger] cells[d].cell() == #[trigger] records[k].cell() by {
        let k = choose|k: int| 0 <= k < i && #[trigger] before[d].cell() == #[trigger] records[k].cell();
        assert(cells[d].cell() == records[k].cell());
    }
    assert forall|k: int| 0 <= k < i + 1 implies exists|d: int|
        0 <= d < cells.len() && #[trigger] cells[d].cell() == #[trigger] records[k].cell() by {
        if k == i {
            assert(cells[c].cell() == records[k].cell());
        } else {
            let d = choose|d: int| 0 <= d < before.len() && #[trigger] before[d].cell() == #[trigger] records[k].cell();
            assert(cells[d].cell() == records[k].cell());
        }
    }
}

/// Tracking the next record's cell afresh keeps the state.
proof fn lemma_tracks_push(before: Seq<OmissionRecord>, records: Seq<OmissionRecord>, i: int, fresh: OmissionRecord)
    requires
        tracks(before, records, i),
        0 <= i < records.len(),
        forall|d: int| 0 <= d < before.len() ==> #[trigger] before[d].cell() != records[i].cell(),
        cell_total(records, records[i].cell(), i) == 0,
        fresh.cell() == records[i].cell(),
        fresh.tally() == records[i].tally(),
    ensures
        tracks(before.push(fresh), records, i + 1),
{
    reveal(tracks);
    let cells = before.push(fresh);
    assert forall|a: int, b: int| 0 <= a < cells.len() && 0 <= b < cells.len() && a != b
        implies #[trigger] cells[a].cell() != #[trigger] cells[b].cell() by {
        if a < before.len() && b < before.len() {
            assert(before[a].cell() != before[b].cell());
        }
    }
    assert forall|d: int| 0 <= d < cells.len() implies #[trigger] cells[d].tally()
        == cell_total(records, cells[d].cell(), i + 1) by {
        if d < before.len() {
            assert(before[d].cell() != records[i].cell());
        }
    }
    assert forall|d: int| 0 <= d < cells.len() implies exists|k: int|
        0 <= k < i + 1 && #[trigger] cells[d].cell() == #[trigger] records[k].cell() by {
        if d < before.len() {
            let k = choose|k: int| 0 <= k < i && #[trigger] before[d].cell() == #[trigger] records[k].cell();
            assert(cells[d].cell() == records[k].cell());
        } else {
            assert(cells[d].cell() == records[i].cell());
        }
    }
    assert forall|k: int| 0 <= k < i + 1 implies exists|d: int|
        0 <= d < cells.len() && #[trigger] cells[d].cell() == #[trigger] records[k].cell() by {
        if k == i {
            assert(cells[before.len() as int].cell() == records[k].cell());
        } else {
            let d = choose|d: int| 0 <= d < before.len() && #[trigger] before[d].cell() == #[trigger] records[k].cell();
            assert(cells[d].cell() == records[k].cell());
        }
    }
}

/// A finished merge state, sorted into a manifest, describes every cell of the input.
proof fn lemma_tracks_finish(cells: Seq<OmissionRecord>, records: Seq<OmissionRecord>, listing: Seq<OmissionRecord>)
    requires
        tracks(cells, records, records.len() as int),
        forall|k: int| 0 <= k < cells.len() ==> listing.contains(#[trigger] cells[k]),
        forall|p: int| 0 <= p < listing.len() ==> cells.contains(#[trigger] listing[p]),
    ensures
        forall|k: int| 0 <= k < records.len() ==> #[trigger] covers(listing, records[k].cell()),
        forall|p: int| 0 <= p < listing.len() ==> #[trigger] covers(records, listing[p].cell()),
        forall|p: int| 0 <= p < listing.len() ==> #[trigger] listing[p].tally()
            == cell_total(records, listing[p].cell(), records.len() as int),
{
    reveal(tracks);
    assert forall|k: int| 0 <= k < records.len() implies #[trigger] covers(listing, records[k].cell()) by {
        let d = choose|d: int| 0 <= d < cells.len() && #[trigger] cells[d].cell() == #[trigger] records[k].cell();
        assert(listing.contains(cells[d]));
        let p = choose|p: int| 0 <= p < listing.len() && listing[p] == cells[d];
        assert(listing[p].cell() == records[k].cell());
        assert(0 <= p < listing.len() && listing[p].cell() == records[k].cell());
    }
    assert forall|p: int| 0 <= p < listing.len() implies #[trigger] covers(records, listing[p].cell()) by {
        assert(cells.contains(listing[p]));
        let d = choose|d: int| 0 <= d < cells.len() && cells[d] == listing[p];
        let k = choose|k: int| 0 <= k < records.len() && #[trigger] cells[d].cell() == #[trigger] records[k].cell();
        assert(listing[p].cell() == records[k].cell());
        assert(0 <= k < records.len() && listing[p].cell() == records[k].cell());
    }
    assert forall|p: int| 0 <= p < listing.len() implies #[trigger] listing[p].tally()
        == cell_total(records, listing[p].cell(), records.len() as int) by {
        assert(cells.contains(listing[p]));
        let d = choose|d: int| 0 <= d < cells.len() && cells[d] == listing[p];
        assert(cells[d].tally() == cell_total(records, cells[d].cell(), records.len() as int));
    }
}

proof fn lemma_tracks_partitions(cells: Seq<OmissionRecord>, records: Seq<OmissionRecord>, i: int)
    requires
        tracks(cells, records, i),
    ensures
        partitions(cells),
{
    reveal(tracks);
}

/// Two listings in canonical order that hold the same records, and hold no record twice,
/// agree on their first `i` positions.
proof fn lemma_listings_agree_upto(a: Seq<OmissionRecord>, b: Seq<OmissionRecord>, i: int)
    requires
        ascending(a),
        ascending(b),
        forall|x: OmissionRecord| a.contains(x) <==> b.contains(x),
        0 <= i <= a.len(),
        i <= b.len(),
    ensures
        forall|k: int| 0 <= k < i ==> a[k] == b[k],
    decreases i,
{
    if i > 0 {
        let t = i - 1;
        lemma_listings_agree_upto(a, b, t);
        assert(b.contains(a[t]));
        let j = choose|j: int| 0 <= j < b.len() && b[j] == a[t];
        assert(a.contains(b[t]));
        let k = choose|k: int| 0 <= k < a.len() && a[k] == b[t];
        if j < t {
            assert(a[j] == b[j]);
            assert(key_lt(a[j].key(), a[t].key()));
            lemma_key_order(a[t].key(), a[t].key(), a[t].key());
        }
        if k < t {
            assert(b[k] == a[k]);
            assert(key_lt(b[k].key(), b[t].key()));
            lemma_key_order(b[t].key(), b[t].key(), b[t].key());
        }
        if j > t {
            assert(key_lt(b[t].key(), b[j].key()));
            if k > t {
                assert(key_lt(a[t].key(), a[k].key()));
            }
            lemma_key_order(b[t].key(), a[t].key(), b[t].key());
        }
        assert(j == t);
    }
}

/// Two listings in canonical order that hold the same records are one listing.
proof fn lemma_ascending_listing_unique(a: Seq<OmissionRecord>, b: Seq<OmissionRecord>)
    requires
        ascending(a),
        ascending(b),
        forall|x: OmissionRecord| a.contains(x) <==> b.contains(x),
    ensures
        a == b,
{
    let n: int = if a.len() < b.len() { a.len() as int } else { b.len() as int };
    lemma_listings_agree_upto(a, b, n);
    if a.len() < b.len() {
        assert(a.contains(b[n]));
        let k = choose|k: int| 0 <= k < a.len() && a[k] == b[n];
        assert(b[k] == a[k]);
        assert(key_lt(b[k].key(), b[n].key()));
        lemma_key_order(b[n].key(), b[n].key(), b[n].key());
    }
    if b.len() < a.len() {
        assert(b.contains(a[n]));
        let k = choose|k: int| 0 <= k < b.len() && b[k] == a[n];
        assert(a[k] == b[k]);
        assert(key_lt(a[k].key(), a[n].key()));
        lemma_key_order(a[n].key(), a[n].key(), a[n].key());
    }
    assert(a =~= b);
}

/// The order records are supplied in does not matter: the manifests built from two orderings
/// of one collection of records (each listing every record given and nothing else, in
/// canonical order, as `Manifest::new` ensures) are one listing, and so write one text.
pub proof fn law_manifest_is_independent_of_record_order(
    records: Seq<OmissionRecord>,
    permuted: Seq<OmissionRecord>,
    listing: Seq<OmissionRecord>,
    other: Seq<OmissionRecord>,
)
    requires
        records.to_multiset() == permuted.to_multiset(),
        ascending(listing),
        ascending(other),
        forall|k: int| 0 <= k < records.len() ==> listing.contains(#[trigger] records[k]),
        forall|p: int| 0 <= p < listing.len() ==> records.contains(#[trigger] listing[p]),
        forall|k: int| 0 <= k < permuted.len() ==> other.contains(#[trigger] permuted[k]),
        forall|p: int| 0 <= p < other.len() ==> permuted.contains(#[trigger] other[p]),
    ensures
        listing == other,
        json_array(records_json(listing)) == json_array(records_json(other)),
{
    records.to_multiset_ensures();
    permuted.to_multiset_ensures();
    assert forall|x: OmissionRecord| listing.contains(x) <==> other.contains(x) by {
        if listing.contains(x) {
            let p = choose|p: int| 0 <= p < listing.len() && listing[p] == x;
            assert(records.contains(listing[p]));
            assert(records.to_multiset().count(x) > 0);
            assert(permuted.contains(x));
            let k = choose|k: int| 0 <= k < permuted.len() && permuted[k] == x;
            assert(other.contains(permuted[k]));
        }
        if other.contains(x) {
            let p = choose|p: int| 0 <= p < other.len() && other[p] == x;
            assert(permuted.contains(other[p]));
            assert(permuted.to_multiset().count(x) > 0);
            assert(records.contains(x));
            let k = choose|k: int| 0 <= k < records.len() && records[k] == x;
            assert(listing.contains(records[k]));
        }
    }
    lemma_ascending_listing_unique(listing, other);
}

impl Manifest {
    /// Build a manifest from records accounted for independently, summing the counts of
    /// records that land in one partition cell.
    ///
    /// Refuses a cell whose running sum leaves the exact-count width, naming the cell of the
    /// first record at which that happens.
    pub fn merged(records: Vec<OmissionRecord>) -> (manifest: Result<Manifest, ManifestError>)
        ensures
            manifest is Ok <==> forall|i: int| 0 <= i < records@.len() ==> !overflows_at(records@, i),
            manifest matches Ok(m) ==> {
                &&& ascending(m.listing())
                &&& partitions(m.listing())
                &&& forall|k: int| 0 <= k < records@.len() ==> #[trigger] covers(m.listing(), records@[k].cell())
                &&& forall|p: int| 0 <= p < m.listing().len() ==> #[trigger] covers(records@, m.listing()[p].cell())
                &&& forall|p: int| 0 <= p < m.listing().len() ==> #[trigger] m.listing()[p].tally()
                    == cell_total(records@, m.listing()[p].cell(), records@.len() as int)
                &&& tally_sum(m.listing()) == tally_sum(records@)
            },
            manifest matches Err(e) ==> exists|i: int| {
                &&& 0 <= i < records@.len()
                &&& overflows_at(records@, i)
                &&& forall|k: int| 0 <= k < i ==> !overflows_at(records@, k)
                &&& e == (ManifestError::CountOverflow { kind: records@[i].cell().0, reason: records@[i].cell().1 })
            },
    {
        let n = records.len();
        let mut cells: Vec<OmissionRecord> = Vec::new();
        proof { lemma_tracks_start(records@); }
        let mut i: usize = 0;
        while i < n
            invariant
                n == records@.len(),
                i <= n,
                tracks(cells@, records@, i as int),
                forall|k: int| 0 <= k < i ==> !overflows_at(records@, k),
            decreases n - i,
        {
            let ghost cell = records@[i as int].cell();
            let mut c: usize = 0;
            while c < cells.len()
                invariant
                    c <= cells@.len(),
                    i < n,
                    n == records@.len(),
                    cell == records@[i as int].cell(),
                    forall|d: int| 0 <= d < c ==> #[trigger] cells@[d].cell() != cell,
                ensures
                    c <= cells@.len(),
                    forall|d: int| 0 <= d < c ==> #[trigger] cells@[d].cell() != cell,
                    c < cells@.len() ==> cells@[c as int].cell() == cell,
                decreases cells@.len() - c,
            {
                if cells[c].same_cell(&records[i]) {
                    break;
                }
                c = c + 1;
            }
            if c < cells.len() {
                proof { lemma_tracks_found(cells@, records@, i as int, c as int); }
                let sum = cells[c].count().checked_add(records[i].count());
                match sum {
                    None => {
                        proof {
                            assert(cell_total(records@, cell, i + 1) == cell_total(records@, cell, i as int) + records@[i as int].tally());
                            assert(overflows_at(records@, i as int));
                        }
                        return Err(ManifestError::CountOverflow { kind: records[i].kind(), reason: records[i].reason() });
                    },
                    Some(total) => {
                        proof {
                            assert(cell_total(records@, cell, i + 1) == cell_total(records@, cell, i as int) + records@[i as int].tally());
                            assert(!overflows_at(records@, i as int));
                        }
                        let updated = cells[c].with_count(total);
                        proof { lemma_tracks_update(cells@, records@, i as int, c as int, updated); }
                        cells.set(c, updated);
                    },
                }
            } else {
                proof {
                    lemma_tracks_missing(cells@, records@, i as int);
                    assert(cell_total(records@, cell, i + 1) == cell_total(records@, cell, i as int) + records@[i as int].tally());
                    assert(!overflows_at(records@, i as int));
                }
                let fresh = records[i].clone();
                proof { lemma_tracks_push(cells@, records@, i as int, fresh); }
                cells.push(fresh);
            }
            i = i + 1;
        }
        proof { lemma_tracks_partitions(cells@, records@, n as int); }
        let ghost partitioned = cells@;
        let manifest = Manifest::new(cells);
        match manifest {
            Ok(m) => {
                proof {
                    lemma_tracks_finish(partitioned, records@, m.listing());
                    lemma_regrouped_total(m.listing(), records@);
                }
                Ok(m)
            },
            Err(e) => {
                proof { assert(false); }
                Err(e)
            },
        }
    }
}

/// The canonical JSON text of a record of `count` items in `cell`: `count`, `expandable`,
/// `expansion` when there is a query, `kind` and `reason`, in that key order.
pub open spec fn record_json(cell: Cell, count: nat) -> Seq<char> {
    "{\"count\":"@ + decimal(count) + ",\"expandable\":"@ + (if cell.2 is Some {
        "true"@
    } else {
        "false"@
    }) + (match cell.2 {
        Some(query) => ",\"expansion\":"@ + query_json(query.1, query.0),
        None => Seq::empty(),
    }) + ",\"kind\":"@ + json_string(cell.0.wire()) + ",\"reason\":"@ + json_string(cell.1.wire()) + "}"@
}

/// The canonical JSON texts of a listing of records.
pub open spec fn records_json(records: Seq<OmissionRecord>) -> Seq<Seq<char>> {
    records.map_values(|r: OmissionRecord| record_json(r.cell(), r.tally()))
}

/// The canonical JSON texts of the queries a listing of records makes reachable, in order.
pub open spec fn reachable_queries(records: Seq<OmissionRecord>) -> Seq<Seq<char>>
    decreases records.len(),
{
    if records.len() == 0 {
        Seq::empty()
    } else {
        reachable_queries(records.drop_last()) + match records.last().cell().2 {
            Some(query) => seq![query_json(query.1, query.0)],
            None => Seq::empty(),
        }
    }
}

/// How many records of a listing carry a query: the expandable ones.
pub open spec fn expandable_count(records: Seq<OmissionRecord>) -> nat
    decreases records.len(),
{
    if records.len() == 0 {
        0
    } else {
        expandable_count(records.drop_last()) + if records.last().cell().2 is Some {
            1nat
        } else {
            0nat
        }
    }
}

/// `expansions[]` holds one entry for every expandable record and nothing else, in record
/// order: as many entries as expandable records, and the entry that follows every expandable
/// record before it is that record's own query.
pub proof fn law_every_expandable_record_is_reachable(records: Seq<OmissionRecord>)
    ensures
        reachable_queries(records).len() == expandable_count(records),
        forall|p: int| 0 <= p < records.len() && (#[trigger] records[p]).cell().2 is Some ==> {
            &&& expandable_count(records.subrange(0, p)) < reachable_queries(records).len()
            &&& reachable_queries(records)[expandable_count(records.subrange(0, p)) as int] == query_json(
                records[p].cell().2->Some_0.1,
                records[p].cell().2->Some_0.0,
            )
        },
    decreases records.len(),
{
    if records.len() > 0 {
        let init = records.drop_last();
        law_every_expandable_record_is_reachable(init);
        assert forall|p: int| 0 <= p < records.len() && (#[trigger] records[p]).cell().2 is Some implies {
            &&& expandable_count(records.subrange(0, p)) < reachable_queries(records).len()
            &&& reachable_queries(records)[expandable_count(records.subrange(0, p)) as int] == query_json(
                records[p].cell().2->Some_0.1,
                records[p].cell().2->Some_0.0,
            )
        } by {
            if p < init.len() {
                assert(records.subrange(0, p) =~= init.subrange(0, p));
                assert(records[p] == init[p]);
            } else {
                assert(records.subrange(0, p) =~= init);
            }
        }
    }
}

impl OmissionRecord {
    /// The canonical JSON rendering, in sorted key order; `expansion` is absent rather than
    /// null on an irretrievable record.
    pub fn to_json(&self) -> (text: String)
        ensures
            text@ == record_json(self.cell(), self.tally()),
    {
        let mut out = String::new();
        write_raw(&mut out, "{\"count\":");
        write_decimal(&mut out, self.count as u64);
        match &self.retrievability {
            Retrievability::Expandable(query) => {
                write_raw(&mut out, ",\"expandable\":true,\"expansion\":");
                let rendered = query.to_json();
                write_raw(&mut out, rendered.as_str());
            },
            Retrievability::Irretrievable(_) => {
                write_raw(&mut out, ",\"expandable\":false");
            },
        }
        write_raw(&mut out, ",\"kind\":");
        crate::json::write_string(&mut out, self.kind.as_wire_str());
        write_raw(&mut out, ",\"reason\":");
        crate::json::write_string(&mut out, self.reason.as_wire_str());
        write_raw(&mut out, "}");
        proof {
            reveal_strlit("{\"count\":");
            reveal_strlit(",\"expandable\":true,\"expansion\":");
            reveal_strlit(",\"expandable\":false");
            reveal_strlit(",\"expandable\":");
            reveal_strlit(",\"expansion\":");
            reveal_strlit("true");
            reveal_strlit("false");
            assert(out@ =~= record_json(self.cell(), self.tally()));
        }
        out
    }
}

impl Manifest {
    /// The canonical JSON rendering of `omissions[]`.
    pub fn to_json(&self) -> (text: String)
        ensures
            text@ == json_array(records_json(self.listing())),
    {
        let mut out = String::new();
        write_raw(&mut out, "[");
        proof {
            reveal_strlit("[");
            assert(out@ =~= seq!['['] + crate::json::joined(Seq::<Seq<char>>::empty()));
            assert(records_json(self.listing()).subrange(0, 0) =~= Seq::<Seq<char>>::empty());
            assert(self.listing().subrange(0, 0) =~= Seq::<OmissionRecord>::empty());
        }
        let n = self.records.len();
        let mut i: usize = 0;
        while i < n
            invariant
                n == self.listing().len(),
                i <= n,
                out@ == seq!['['] + crate::json::joined(records_json(self.listing()).subrange(0, i as int)),
            decreases n - i,
        {
            let ghost before = records_json(self.listing()).subrange(0, i as int);
            write_separator(&mut out, i);
            let rendered = self.records[i].to_json();
            write_raw(&mut out, rendered.as_str());
            proof {
                assert(records_json(self.listing()).subrange(0, i + 1) =~= before.push(rendered@));
                lemma_joined_push(before, rendered@);
            }
            i = i + 1;
        }
        write_raw(&mut out, "]");
        proof {
            reveal_strlit("[");
            reveal_strlit("]");
            assert(records_json(self.listing()).subrange(0, n as int) =~= records_json(self.listing()));
            assert(out@ =~= json_array(records_json(self.listing())));
        }
        out
    }

    /// The canonical JSON rendering of the `expansions[]` this manifest makes reachable: one
    /// query per expandable record, in the same order, and no estimate beside them.
    pub fn expansions_json(&self) -> (text: String)
        ensures
            text@ == json_array(reachable_queries(self.listing())),
            reachable_queries(self.listing()).len() == expandable_count(self.listing()),
            forall|p: int| 0 <= p < self.listing().len() && (#[trigger] self.listing()[p]).cell().2 is Some
                ==> reachable_queries(self.listing())[expandable_count(self.listing().subrange(0, p)) as int] == query_json(
                self.listing()[p].cell().2->Some_0.1,
                self.listing()[p].cell().2->Some_0.0,
            ),
    {
        proof { law_every_expandable_record_is_reachable(self.listing()); }
        let mut out = String::new();
        write_raw(&mut out, "[");
        proof {
            reveal_strlit("[");
            assert(out@ =~= seq!['['] + crate::json::joined(Seq::<Seq<char>>::empty()));
            assert(records_json(self.listing()).subrange(0, 0) =~= Seq::<Seq<char>>::empty());
            assert(self.listing().subrange(0, 0) =~= Seq::<OmissionRecord>::empty());
        }
        let n = self.records.len();
        let mut written: usize = 0;
        let mut i: usize = 0;
        while i < n
            invariant
                n == self.listing().len(),
                i <= n,
                written == reachable_queries(self.listing().subrange(0, i as int)).len(),
                written <= i,
                out@ == seq!['['] + crate::json::joined(reachable_queries(self.listing().subrange(0, i as int))),
            decreases n - i,
        {
            let ghost prefix = self.listing().subrange(0, i as int);
            let ghost before = reachable_queries(prefix);
            proof {
                assert(self.listing().subrange(0, i + 1).drop_last() =~= prefix);
                assert(self.listing().subrange(0, i + 1).last() == self.listing()[i as int]);
            }
            match self.records[i].retrievability().query() {
                Some(query) => {
                    write_separator(&mut out, written);
                    let rendered = query.to_json();
                    write_raw(&mut out, rendered.as_str());
                    written = written + 1;
                    proof {
                        assert(reachable_queries(self.listing().subrange(0, i + 1)) =~= before.push(rendered@));
                        lemma_joined_push(before, rendered@);
                    }
                },
                None => {
                    proof {
                        assert(reachable_queries(self.listing().subrange(0, i + 1)) =~= before);
                    }
                },
            }
            i = i + 1;
        }
        write_raw(&mut out, "]");
        proof {
            reveal_strlit("[");
            reveal_strlit("]");
            assert(self.listing().subrange(0, n as int) =~= self.listing());
            assert(out@ =~= json_array(reachable_queries(self.listing())));
        }
        out
    }
}

/// A manifest that does not partition.
#[derive(Debug, Clone, Copy, PartialEq, Eq, Structural)]
pub enum ManifestError {
    /// Two records name one `(kind, reason, retrievability)` cell.
    RepeatedCell {
        /// The kind both records name.
        kind: SelectionKind,
        /// The reason both records name.
        reason: OmissionReason,
    },
    /// Merging two groups into one cell leaves the exact-count width.
    CountOverflow {
        /// The cell's kind.
        kind: SelectionKind,
        /// The cell's reason.
        reason: OmissionReason,
    },
}


impl ManifestError {
    /// The refusal's explanation.
    pub open spec fn explanation(&self) -> Seq<char> {
        match self {
            ManifestError::RepeatedCell { kind, reason } =>
                "two omission records account for the `"@ + kind.wire() + "`/`"@ + reason.wire()
                    + "` cell; the manifest partition would double-count it"@,
            ManifestError::CountOverflow { kind, reason } =>
                "the merged `"@ + kind.wire() + "`/`"@ + reason.wire() + "` cell is beyond a 32-bit exact count"@,
        }
    }

    /// The refusal's explanation.
    pub fn message(&self) -> (text: String)
        ensures
            text@ == self.explanation(),
    {
        let mut out = String::new();
        match self {
            ManifestError::RepeatedCell { kind, reason } => {
                write_raw(&mut out, "two omission records account for the `");
                write_raw(&mut out, kind.as_wire_str());
                write_raw(&mut out, "`/`");
                write_raw(&mut out, reason.as_wire_str());
                write_raw(&mut out, "` cell; the manifest partition would double-count it");
            },
            ManifestError::CountOverflow { kind, reason } => {
                write_raw(&mut out, "the merged `");
                write_raw(&mut out, kind.as_wire_str());
                write_raw(&mut out, "`/`");
                write_raw(&mut out, reason.as_wire_str());
                write_raw(&mut out, "` cell is beyond a 32-bit exact count");
            },
        }
        proof { assert(out@ =~= self.explanation()); }
        out
    }
}

} // verus!
