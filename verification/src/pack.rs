//! The root pack a compile answers with: the refusals about its inputs that come before any
//! document is written, the manifest it publishes, and the pack profiles it is held to.

use vstd::prelude::*;

use crate::causal::{first_repeat, repeats_at};
use crate::compile::RedactionReason;
use crate::guarantee::{Guarantee, SealedGuarantees};
use crate::json::{decimal, json_string, write_decimal, write_raw, write_string};
use crate::name::Name;
use crate::omission::{
    cell_total, covers, overflows_at, partitions, prefix_tally, tally_sum, Cell, IrretrievableReason, Manifest,
    ManifestError, OmissionReason, OmissionRecord,
};
use crate::selection::{ItemHeader, SelectionKind};
use crate::text::{begins_with, blank, is_blank, starts_with};

verus! {

/// The four pack profiles, and the content constraints each one adds.
#[derive(Debug, Clone, Copy, PartialEq, Eq, Hash, PartialOrd, Ord, Structural)]
pub enum PackProfile {
    /// A question about a `refuted` or `deadlock` verdict.
    Failure,
    /// A question about a search's coverage.
    Reachability,
    /// A question about a candidate invariant or abstraction.
    Invariant,
    /// A question about what blocks an obligation.
    ProofTarget,
}

impl PackProfile {
    /// Every member, in declaration order.
    pub const ALL: [PackProfile; 4] = [
        PackProfile::Failure,
        PackProfile::Reachability,
        PackProfile::Invariant,
        PackProfile::ProofTarget,
    ];

    /// The member's position in declaration order.
    pub open spec fn rank(self) -> int {
        match self {
            PackProfile::Failure => 0,
            PackProfile::Reachability => 1,
            PackProfile::Invariant => 2,
            PackProfile::ProofTarget => 3,
        }
    }

    /// `ALL` lists every member at its rank.
    pub proof fn lemma_all_lists(member: PackProfile)
        ensures
            0 <= member.rank() < 4,
            PackProfile::ALL@[member.rank()] == member,
    {
    }

    /// The member's stable token.
    pub open spec fn token(self) -> Seq<char> {
        match self {
            PackProfile::Failure => "failure"@,
            PackProfile::Reachability => "reachability"@,
            PackProfile::Invariant => "invariant"@,
            PackProfile::ProofTarget => "proof-target"@,
        }
    }

    /// The member's stable token.
    pub fn as_str(self) -> (text: &'static str)
        ensures
            text@ == self.token(),
    {
        match self {
            PackProfile::Failure => "failure",
            PackProfile::Reachability => "reachability",
            PackProfile::Invariant => "invariant",
            PackProfile::ProofTarget => "proof-target",
        }
    }

    /// The token's length and the characters that tell members' tokens apart.
    pub open spec fn signature(self) -> (int, char) {
        match self {
            PackProfile::Failure => (7, 'f'),
            PackProfile::Reachability => (12, 'r'),
            PackProfile::Invariant => (9, 'i'),
            PackProfile::ProofTarget => (12, 'p'),
        }
    }

    proof fn lemma_signature(member: PackProfile)
        ensures
            member.token().len() == member.signature().0,
            member.token()[0] == member.signature().1,
    {
        match member {
            PackProfile::Failure => reveal_strlit("failure"),
            PackProfile::Reachability => reveal_strlit("reachability"),
            PackProfile::Invariant => reveal_strlit("invariant"),
            PackProfile::ProofTarget => reveal_strlit("proof-target"),
        }
    }

    /// Distinct members have distinct tokens.
    pub proof fn lemma_token_injective(a: PackProfile, b: PackProfile)
        ensures
            a.token() == b.token() ==> a == b,
    {
        PackProfile::lemma_signature(a);
        PackProfile::lemma_signature(b);
    }

    /// The first of this profile's content constraints that `root` fails, by its clause.
    pub open spec fn violation(self, root: &RootPack) -> Option<Seq<char>> {
        match self {
            PackProfile::Failure => if !(root.verdict is Refuted || root.verdict is Deadlock) {
                Some("a failure pack answers a `refuted` or `deadlock` verdict"@)
            } else if root.replay is None {
                Some("a failure pack's `replay` MUST be non-null"@)
            } else {
                None
            },
            PackProfile::Reachability => if !(names_engine(root.bounds_engine) && names_engine(root.schedules_engine)) {
                Some("a reachability pack's `bounds` and `schedules` dimensions MUST name a producing engine"@)
            } else {
                None
            },
            PackProfile::Invariant => if !carries(root, SelectionKind::Assumption) {
                Some("an invariant pack MUST carry `assumption` items"@)
            } else {
                None
            },
            PackProfile::ProofTarget => if !root.guarantees@.contains(Guarantee::ProofRelevant)
                && !(root.verdict is Inconclusive) {
                Some("a proof-target pack MUST claim `ProofRelevant` or state why it cannot, which is a typed `inconclusive` verdict"@)
            } else {
                None
            },
        }
    }

    /// Whether an assembled root satisfies this profile's content constraints, refusing with
    /// the clause it fails.
    pub fn admits(self, root: &RootPack) -> (outcome: Result<(), PackError>)
        ensures
            outcome is Ok <==> self.violation(root) is None,
            outcome matches Err(e) ==> (e matches PackError::ProfileViolation { profile, clause } && profile == self
                && self.violation(root) == Some(clause@)),
    {
        match self {
            PackProfile::Failure => {
                match root.verdict {
                    Verdict::Refuted | Verdict::Deadlock => {},
                    _ => {
                        return Err(PackError::ProfileViolation {
                            profile: self,
                            clause: "a failure pack answers a `refuted` or `deadlock` verdict",
                        });
                    },
                }
                if root.replay.is_none() {
                    return Err(PackError::ProfileViolation { profile: self, clause: "a failure pack's `replay` MUST be non-null" });
                }
                Ok(())
            },
            PackProfile::Reachability => {
                if !engine_named(&root.bounds_engine) || !engine_named(&root.schedules_engine) {
                    return Err(PackError::ProfileViolation {
                        profile: self,
                        clause: "a reachability pack's `bounds` and `schedules` dimensions MUST name a producing engine",
                    });
                }
                Ok(())
            },
            PackProfile::Invariant => {
                if !carries_kind(root, SelectionKind::Assumption) {
                    return Err(PackError::ProfileViolation { profile: self, clause: "an invariant pack MUST carry `assumption` items" });
                }
                Ok(())
            },
            PackProfile::ProofTarget => {
                if !claims(&root.guarantees, Guarantee::ProofRelevant) && !(root.verdict == Verdict::Inconclusive) {
                    return Err(PackError::ProfileViolation {
                        profile: self,
                        clause: "a proof-target pack MUST claim `ProofRelevant` or state why it cannot, which is a typed `inconclusive` verdict",
                    });
                }
                Ok(())
            },
        }
    }
}

/// The failure profile holds a root to two things and no more: a `refuted` or `deadlock`
/// verdict, and a replay. A root with both meets it; a root missing either is refused.
pub proof fn law_the_failure_profile_admits_refuted_and_deadlocked_roots_with_a_replay(root: &RootPack)
    ensures
        ((root.verdict == Verdict::Refuted || root.verdict == Verdict::Deadlock) && root.replay is Some)
            <==> PackProfile::Failure.violation(root) is None,
{
}

/// The proof-target profile admits a root that claims `ProofRelevant`, whatever its verdict,
/// and a root whose verdict is inconclusive, whatever it claims; it refuses only a root with
/// neither.
pub proof fn law_the_proof_target_profile_admits_a_claim_or_an_inconclusive_verdict(root: &RootPack)
    ensures
        (root.guarantees@.contains(Guarantee::ProofRelevant) || root.verdict == Verdict::Inconclusive)
            <==> PackProfile::ProofTarget.violation(root) is None,
{
}

/// The reachability profile admits exactly the roots whose `bounds` and `schedules` dimensions
/// both name a non-empty producing engine.
pub proof fn law_the_reachability_profile_needs_both_engines(root: &RootPack)
    ensures
        ((root.bounds_engine matches Some(e) && e@.len() > 0) && (root.schedules_engine matches Some(e) && e@.len() > 0))
            <==> PackProfile::Reachability.violation(root) is None,
{
}

/// The invariant profile admits exactly the roots that select some `assumption` item.
pub proof fn law_the_invariant_profile_needs_an_assumption(root: &RootPack)
    ensures
        (exists|i: int| 0 <= i < root.selected@.len() && root.selected@[i].kind == SelectionKind::Assumption)
            <==> PackProfile::Invariant.violation(root) is None,
{
}

/// Whether an assurance dimension names a producing engine: a non-empty one.
pub open spec fn names_engine(engine: Option<String>) -> bool {
    engine matches Some(name) && name@.len() > 0
}

/// Whether a root selects an item of `kind`.
pub open spec fn carries(root: &RootPack, kind: SelectionKind) -> bool {
    exists|i: int| 0 <= i < root.selected@.len() && (#[trigger] root.selected@[i]).kind == kind
}

fn engine_named(engine: &Option<String>) -> (named: bool)
    ensures
        named == names_engine(*engine),
{
    match engine {
        Some(name) => name.as_str().unicode_len() > 0,
        None => false,
    }
}

fn carries_kind(root: &RootPack, kind: SelectionKind) -> (carried: bool)
    ensures
        carried == carries(root, kind),
{
    let n = root.selected.len();
    let mut i: usize = 0;
    while i < n
        invariant
            n == root.selected@.len(),
            i <= n,
            forall|k: int| 0 <= k < i ==> (#[trigger] root.selected@[k]).kind != kind,
        decreases n - i,
    {
        if root.selected[i].kind == kind {
            return true;
        }
        i = i + 1;
    }
    false
}

fn claims(guarantees: &SealedGuarantees, guarantee: Guarantee) -> (claimed: bool)
    ensures
        claimed == guarantees@.contains(guarantee),
{
    let members = guarantees.members();
    let n = members.len();
    let mut i: usize = 0;
    while i < n
        invariant
            n == members@.len(),
            members@ == guarantees@,
            i <= n,
            forall|k: int| 0 <= k < i ==> members@[k] != guarantee,
        decreases n - i,
    {
        if members[i] == guarantee {
            return true;
        }
        i = i + 1;
    }
    false
}

/// The arm of the verdict of the evaluation a root pack explains.
#[derive(Debug, Clone, Copy, PartialEq, Eq, Hash, Structural)]
pub enum Verdict {
    /// The property holds.
    Satisfied,
    /// A counterexample refutes the property.
    Refuted,
    /// The evaluation reached a deadlock.
    Deadlock,
    /// The evaluation could not decide, for a typed reason.
    Inconclusive,
}

/// The root pack a compile answers with, before it is written.
///
/// Every field is a value some checker or some registered input produced; the pack joins them
/// and decides nothing about their content.
#[derive(Debug)]
pub struct RootPack {
    /// The `ws_*` snapshot the pack is stated against.
    pub snapshot: String,
    /// The pinned semantic epoch.
    pub semantic_epoch: String,
    /// The verdict of the evaluation this pack compiles evidence for.
    pub verdict: Verdict,
    /// The engine the assurance envelope's `bounds` dimension names, where it names one.
    pub bounds_engine: Option<String>,
    /// The engine the assurance envelope's `schedules` dimension names, where it names one.
    pub schedules_engine: Option<String>,
    /// The selected items.
    pub selected: Vec<ItemHeader>,
    /// The compile's own manifest, over the compile's own candidate set.
    pub manifest: Manifest,
    /// How many candidates the compile considered.
    pub candidates: u32,
    /// The guarantees requested and not achieved (rule C1).
    pub unachieved: Vec<Guarantee>,
    /// The evidence handles this pack was compiled from.
    pub evidence: Vec<String>,
    /// The replay handle, where one exists.
    pub replay: Option<String>,
    /// The guarantees the checkers established.
    pub guarantees: SealedGuarantees,
    /// Which profile's content constraints this compile is held to.
    pub profile: PackProfile,
}

/// The cell rule C1's record lands in: `unknown` items, `unsupported`, irretrievable.
pub open spec fn owed_cell() -> Cell {
    (SelectionKind::Unknown, OmissionReason::Unsupported, None)
}

/// How many items a listing accounts for in `cell`.
pub open spec fn cell_count(records: Seq<OmissionRecord>, cell: Cell) -> nat {
    cell_total(records, cell, records.len() as int)
}

impl RootPack {
    /// How many rule C1 records the pack owes: one per requested, unachieved guarantee.
    pub open spec fn owed(&self) -> nat {
        self.unachieved@.len()
    }

    /// How many items the published manifest accounts for in `cell`.
    pub open spec fn published_count(&self, cell: Cell) -> nat {
        cell_count(self.manifest.listing(), cell) + if cell == owed_cell() {
            self.owed()
        } else {
            0
        }
    }

    /// Whether the published manifest has a record for `cell`.
    pub open spec fn published_covers(&self, cell: Cell) -> bool {
        covers(self.manifest.listing(), cell) || (self.owed() > 0 && cell == owed_cell())
    }

    /// Whether the owed records are too many for one exact count.
    pub open spec fn owed_overflows(&self) -> bool {
        self.owed() > u32::MAX
    }

    /// Whether merging the owed records into the manifest leaves the exact-count width.
    pub open spec fn merge_overflows(&self) -> bool {
        self.owed() > 0 && self.published_count(owed_cell()) > u32::MAX
    }

    /// The manifest the pack publishes: the compile's, plus rule C1's record of every
    /// requested guarantee the compile did not achieve, as one irretrievable `unknown` group
    /// with reason `unsupported`.
    pub fn published_manifest(&self) -> (manifest: Result<Manifest, PackError>)
        ensures
            manifest is Ok <==> !self.owed_overflows() && !self.merge_overflows(),
            self.owed_overflows() ==> manifest == Err::<Manifest, PackError>(
                PackError::Unreconciled { candidates: self.candidates as u64, accounted: u64::MAX },
            ),
            !self.owed_overflows() && self.merge_overflows() ==> manifest == Err::<Manifest, PackError>(
                PackError::Manifest(
                    ManifestError::CountOverflow { kind: SelectionKind::Unknown, reason: OmissionReason::Unsupported },
                ),
            ),
            manifest matches Ok(m) ==> {
                &&& forall|c: Cell| #[trigger] covers(m.listing(), c) <==> self.published_covers(c)
                &&& forall|p: int| 0 <= p < m.listing().len() ==> #[trigger] m.listing()[p].tally()
                    == self.published_count(m.listing()[p].cell())
                &&& tally_sum(m.listing()) == tally_sum(self.manifest.listing()) + self.owed()
            },
    {
        let owed_len = self.unachieved.len();
        if owed_len > 0xffff_ffff {
            return Err(PackError::Unreconciled { candidates: self.candidates as u64, accounted: u64::MAX });
        }
        let ghost listing = self.manifest.listing();
        let existing = self.manifest.records();
        let n = existing.len();
        let mut records: Vec<OmissionRecord> = Vec::new();
        let mut i: usize = 0;
        while i < n
            invariant
                n == listing.len(),
                existing@ == listing,
                i <= n,
                records@.len() == i,
                forall|k: int| 0 <= k < i ==> (#[trigger] records@[k]).cell() == listing[k].cell()
                    && records@[k].tally() == listing[k].tally(),
            decreases n - i,
        {
            records.push(existing[i].clone());
            i = i + 1;
        }
        if owed_len > 0 {
            let owed = OmissionRecord::irretrievable(SelectionKind::Unknown, owed_len as u32, IrretrievableReason::Unsupported);
            records.push(owed);
        }
        let ghost all = records@;
        proof {
            lemma_agreeing_totals(all, listing, n as int);
            assert forall|c: Cell| covers(all, c) <==> self.published_covers(c) by {
                if covers(all, c) {
                    let k = choose|k: int| 0 <= k < all.len() && #[trigger] all[k].cell() == c;
                    if k < n {
                        assert(listing[k].cell() == c);
                    }
                }
                if covers(listing, c) {
                    let k = choose|k: int| 0 <= k < listing.len() && #[trigger] listing[k].cell() == c;
                    assert(all[k].cell() == c);
                }
                if self.owed() > 0 && c == owed_cell() {
                    assert(all[n as int].cell() == c);
                }
            }
            assert forall|c: Cell| #[trigger] cell_total(all, c, all.len() as int) == self.published_count(c) by {
                if owed_len > 0 {
                    assert(all.len() == n + 1);
                    assert(cell_total(all, c, n + 1) == cell_total(all, c, n as int) + if all[n as int].cell() == c {
                        all[n as int].tally()
                    } else {
                        0
                    });
                }
            }
            if owed_len > 0 {
                assert(prefix_tally(all, n + 1) == prefix_tally(all, n as int) + all[n as int].tally());
            }
            assert(tally_sum(all) == tally_sum(listing) + self.owed());
            assert forall|k: int| 0 <= k < all.len() implies !overflows_at(all, k) <==> !(k == n && self.merge_overflows()) by {
                if k < n {
                    lemma_partition_total(listing, k, k + 1);
                    OmissionRecord::lemma_tally_fits(&listing[k]);
                    lemma_agreeing_totals(all, listing, k + 1);
                } else {
                    assert(cell_total(all, owed_cell(), n + 1) == cell_total(all, owed_cell(), n as int) + all[n as int].tally());
                }
            }
        }
        let merged = Manifest::merged(records);
        match merged {
            Ok(m) => {
                proof {
                    assert forall|c: Cell| #[trigger] covers(m.listing(), c) <==> covers(all, c) by {
                        if covers(m.listing(), c) {
                            let p = choose|p: int| 0 <= p < m.listing().len() && #[trigger] m.listing()[p].cell() == c;
                            assert(covers(all, m.listing()[p].cell()));
                        }
                        if covers(all, c) {
                            let k = choose|k: int| 0 <= k < all.len() && #[trigger] all[k].cell() == c;
                            assert(covers(m.listing(), all[k].cell()));
                        }
                    }
                    if self.merge_overflows() {
                        assert(!overflows_at(all, n as int));
                    }
                }
                Ok(m)
            },
            Err(e) => {
                proof {
                    let k = choose|k: int| {
                        &&& 0 <= k < all.len()
                        &&& overflows_at(all, k)
                        &&& forall|j: int| 0 <= j < k ==> !overflows_at(all, j)
                        &&& e == (ManifestError::CountOverflow { kind: all[k].cell().0, reason: all[k].cell().1 })
                    };
                    assert(k == n);
                }
                Err(PackError::Manifest(e))
            },
        }
    }

    /// The selected identities, in the order given.
    pub open spec fn ids(&self) -> Seq<Seq<char>> {
        self.selected@.map_values(|item: ItemHeader| item.id@)
    }

    /// Whether the snapshot is not a `ws_*` handle.
    pub open spec fn snapshot_unclassed(&self) -> bool {
        !begins_with(self.snapshot@, "ws_"@)
    }

    /// Whether the semantic epoch is empty once white space is trimmed.
    pub open spec fn epoch_blank(&self) -> bool {
        is_blank(self.semantic_epoch@)
    }

    /// Whether some evidence handle is not an `ev_*` handle.
    pub open spec fn evidence_unclassed(&self) -> bool {
        exists|i: int| 0 <= i < self.evidence@.len() && !begins_with((#[trigger] self.evidence@[i])@, "ev_"@)
    }

    /// Whether some identity is selected twice.
    pub open spec fn selection_repeats(&self) -> bool {
        exists|i: int| 0 <= i < self.ids().len() && #[trigger] repeats_at(self.ids(), i)
    }

    /// Whether `ReplayPreserving` is claimed with a null `replay` (rule C2's artifact half).
    pub open spec fn replay_unbacked(&self) -> bool {
        self.guarantees@.contains(Guarantee::ReplayPreserving) && self.replay is None
    }

    /// What the selection and the published manifest account for, saturating at the widest
    /// exact count.
    pub open spec fn accounted(&self) -> nat {
        let sum = tally_sum(self.manifest.listing()) + self.owed() + self.selected@.len();
        if sum > u64::MAX {
            u64::MAX as nat
        } else {
            sum
        }
    }

    /// Whether the counting equation fails over the published manifest and candidate universe.
    pub open spec fn unreconciled(&self) -> bool {
        self.accounted() != self.candidates + self.owed()
    }

    /// The refusals about the inputs, in the order they are checked.
    pub open spec fn faults(&self) -> Seq<bool> {
        seq![
            self.snapshot_unclassed(),
            self.epoch_blank(),
            self.evidence_unclassed(),
            self.selection_repeats(),
            self.replay_unbacked(),
            self.owed_overflows(),
            self.merge_overflows(),
            self.unreconciled(),
            self.profile.violation(self) is Some,
        ]
    }

    /// Whether the `n`th refusal is the first that applies.
    pub open spec fn first_fault(&self, n: int) -> bool {
        &&& 0 <= n < 9
        &&& self.faults()[n]
        &&& forall|k: int| 0 <= k < n ==> !self.faults()[k]
    }

    proof fn lemma_faults(&self)
        ensures
            self.faults()[0] == self.snapshot_unclassed(),
            self.faults()[1] == self.epoch_blank(),
            self.faults()[2] == self.evidence_unclassed(),
            self.faults()[3] == self.selection_repeats(),
            self.faults()[4] == self.replay_unbacked(),
            self.faults()[5] == self.owed_overflows(),
            self.faults()[6] == self.merge_overflows(),
            self.faults()[7] == self.unreconciled(),
            self.faults()[8] == (self.profile.violation(self) is Some),
    {
    }

    /// Every refusal that is about the inputs rather than about the writing: an unclassed
    /// snapshot, an empty epoch, an unclassed evidence handle, a repeated selection, rule C2's
    /// artifact half, a manifest that cannot be published, a counting equation that fails, and
    /// the profile's content constraints, the first that applies.
    pub fn check(&self) -> (outcome: Result<(), PackError>)
        requires
            tally_sum(self.manifest.listing()) + self.owed() <= u64::MAX,
        ensures
            outcome is Ok <==> forall|k: int| 0 <= k < 9 ==> !self.faults()[k],
            self.first_fault(0) ==> (outcome matches Err(PackError::UnclassedHandle { key }) && key@ == "snapshot"@),
            self.first_fault(1) ==> outcome == Err::<(), PackError>(PackError::EmptyEpoch),
            self.first_fault(2) ==> (outcome matches Err(PackError::UnclassedHandle { key }) && key@ == "evidence"@),
            self.first_fault(3) ==> (outcome matches Err(PackError::RepeatedSelection { id })
                && exists|i: int| first_repeat(self.ids(), i) && id@ == self.ids()[i]),
            self.first_fault(4) ==> outcome == Err::<(), PackError>(PackError::ReplayPreservingWithoutReplay),
            self.first_fault(5) ==> outcome == Err::<(), PackError>(
                PackError::Unreconciled { candidates: self.candidates as u64, accounted: u64::MAX },
            ),
            self.first_fault(6) ==> outcome == Err::<(), PackError>(
                PackError::Manifest(
                    ManifestError::CountOverflow { kind: SelectionKind::Unknown, reason: OmissionReason::Unsupported },
                ),
            ),
            self.first_fault(7) ==> outcome == Err::<(), PackError>(
                PackError::Unreconciled {
                    candidates: (self.candidates + self.owed()) as u64,
                    accounted: self.accounted() as u64,
                },
            ),
            self.first_fault(8) ==> (outcome matches Err(PackError::ProfileViolation { profile, clause })
                && profile == self.profile && self.profile.violation(self) == Some(clause@)),
    {
        proof { self.lemma_faults(); }
        if !starts_with(self.snapshot.as_str(), "ws_") {
            return Err(PackError::UnclassedHandle { key: "snapshot" });
        }
        if blank(self.semantic_epoch.as_str()) {
            return Err(PackError::EmptyEpoch);
        }
        let e = self.evidence.len();
        let mut i: usize = 0;
        while i < e
            invariant
                e == self.evidence@.len(),
                i <= e,
                !self.snapshot_unclassed(),
                !self.epoch_blank(),
                forall|k: int| 0 <= k < i ==> begins_with((#[trigger] self.evidence@[k])@, "ev_"@),
            decreases e - i,
        {
            if !starts_with(self.evidence[i].as_str(), "ev_") {
                assert(!begins_with(self.evidence@[i as int]@, "ev_"@));
                proof { self.lemma_faults(); }
                return Err(PackError::UnclassedHandle { key: "evidence" });
            }
            i = i + 1;
        }
        let ghost ids = self.ids();
        let n = self.selected.len();
        let mut i: usize = 0;
        while i < n
            invariant
                n == self.selected@.len(),
                ids == self.ids(),
                i <= n,
                !self.snapshot_unclassed(),
                !self.epoch_blank(),
                !self.evidence_unclassed(),
                forall|k: int| 0 <= k < i ==> !#[trigger] repeats_at(ids, k),
            decreases n - i,
        {
            let mut j: usize = 0;
            while j < i
                invariant
                    n == self.selected@.len(),
                    ids == self.ids(),
                    i < n,
                    j <= i,
                    !self.snapshot_unclassed(),
                    !self.epoch_blank(),
                    !self.evidence_unclassed(),
                    forall|k: int| 0 <= k < i ==> !#[trigger] repeats_at(ids, k),
                    forall|k: int| 0 <= k < j ==> ids[k] != ids[i as int],
                decreases i - j,
            {
                if self.selected[j].id.same(&self.selected[i].id) {
                    proof {
                        assert(ids.subrange(0, i as int)[j as int] == ids[i as int]);
                        assert(repeats_at(ids, i as int));
                        assert(first_repeat(ids, i as int));
                        self.lemma_faults();
                    }
                    return Err(PackError::RepeatedSelection { id: self.selected[i].id.clone() });
                }
                j = j + 1;
            }
            proof {
                assert(!ids.subrange(0, i as int).contains(ids[i as int]));
            }
            i = i + 1;
        }
        if claims(&self.guarantees, Guarantee::ReplayPreserving) && self.replay.is_none() {
            return Err(PackError::ReplayPreservingWithoutReplay);
        }
        let manifest = self.published_manifest()?;
        let candidates = self.published_candidates()?;
        let total = manifest.total();
        let accounted = total.saturating_add(self.selected.len() as u64);
        if accounted != candidates {
            return Err(PackError::Unreconciled { candidates, accounted });
        }
        self.profile.admits(self)
    }

    /// The candidate universe the published manifest partitions: the compile's, plus one per
    /// owed rule C1 record.
    pub fn published_candidates(&self) -> (candidates: Result<u64, PackError>)
        ensures
            candidates is Ok <==> self.candidates + self.owed() <= u64::MAX,
            candidates matches Ok(total) ==> total == self.candidates + self.owed(),
            candidates matches Err(e) ==> e == (PackError::Unreconciled { candidates: self.candidates as u64, accounted: u64::MAX }),
    {
        let owed = self.unachieved.len() as u64;
        match (self.candidates as u64).checked_add(owed) {
            Some(total) => Ok(total),
            None => Err(PackError::Unreconciled { candidates: self.candidates as u64, accounted: u64::MAX }),
        }
    }
}

/// Two listings that agree, record by record, on cell and count over a prefix agree on every
/// running total over it.
proof fn lemma_agreeing_totals(a: Seq<OmissionRecord>, b: Seq<OmissionRecord>, n: int)
    requires
        0 <= n <= a.len(),
        n <= b.len(),
        forall|k: int| 0 <= k < n ==> (#[trigger] a[k]).cell() == b[k].cell() && a[k].tally() == b[k].tally(),
    ensures
        forall|c: Cell| #[trigger] cell_total(a, c, n) == cell_total(b, c, n),
        prefix_tally(a, n) == prefix_tally(b, n),
    decreases n,
{
    if n > 0 {
        lemma_agreeing_totals(a, b, n - 1);
        assert(a[n - 1].cell() == b[n - 1].cell());
        assert forall|c: Cell| #[trigger] cell_total(a, c, n) == cell_total(b, c, n) by {
            assert(cell_total(a, c, n - 1) == cell_total(b, c, n - 1));
        }
    }
}

/// In a partition, the running total of a record's own cell is that record's count once the
/// record is reached, and nothing before.
proof fn lemma_partition_total(records: Seq<OmissionRecord>, p: int, n: int)
    requires
        partitions(records),
        0 <= p < records.len(),
        0 <= n <= records.len(),
    ensures
        cell_total(records, records[p].cell(), n) == if n > p {
            records[p].tally()
        } else {
            0
        },
    decreases n,
{
    if n > 0 {
        lemma_partition_total(records, p, n - 1);
        if n - 1 != p {
            assert(records[n - 1].cell() != records[p].cell());
        }
    }
}

/// A root pack this library will not write.
#[derive(Debug, Clone, PartialEq, Eq)]
pub enum PackError {
    /// The document is not a JSON object.
    NotAnObject {
        /// What it is instead.
        found: &'static str,
    },
    /// A key the child needs is absent from the parent.
    MissingField {
        /// The key.
        key: &'static str,
    },
    /// A key is present with the wrong JSON type.
    WrongType {
        /// The key.
        key: &'static str,
        /// The type the schema fixes for it.
        expected: &'static str,
    },
    /// `context_id` is not a `ctx_*` handle.
    NotAPackHandle,
    /// `content_budget.bytes` is negative.
    NegativeBudget {
        /// The value read.
        bytes: i64,
    },
    /// The document's own byte size did not settle to a self-consistent value.
    UnmeasurableSize,
    /// An anchor is not spellable as a canonical identifier.
    UnnameableAnchor {
        /// The offending text's length, never the text.
        length: usize,
    },
    /// The counting equation is false for the root about to be written.
    Unreconciled {
        /// The candidate universe the manifest partitions.
        candidates: u64,
        /// What the selection and the manifest actually account for.
        accounted: u64,
    },
    /// One identity is selected twice, so the selection is not a set.
    RepeatedSelection {
        /// The repeated identity.
        id: Name,
    },
    /// A handle is not of the class the key requires.
    UnclassedHandle {
        /// The key.
        key: &'static str,
    },
    /// The semantic epoch is absent, and `ReplayPreserving` is defined relative to it.
    EmptyEpoch,
    /// Rule C2's artifact half: `ReplayPreserving` with a null `replay`.
    ReplayPreservingWithoutReplay,
    /// A redaction stub with no commitment behind it.
    EmptyCommitment,
    /// The manifest the root would publish is not one manifest.
    Manifest(ManifestError),
    /// A profile's content constraints are not met by the compile it was asked of.
    ProfileViolation {
        /// The profile.
        profile: PackProfile,
        /// The clause it failed.
        clause: &'static str,
    },
}

/// A root whose inputs pass every check reconciles: its candidate universe, grown by one per
/// owed rule C1 record, is exactly its selection plus everything its published manifest
/// accounts for.
pub proof fn law_a_checked_root_reconciles(root: &RootPack)
    requires
        forall|k: int| 0 <= k < 9 ==> !root.faults()[k],
    ensures
        root.candidates + root.owed() == root.selected@.len() + (tally_sum(root.manifest.listing()) + root.owed()),
{
    root.lemma_faults();
}

/// Rule C1: every requested guarantee the compile did not achieve is published as an
/// irretrievable `unknown` omission with reason `unsupported`, which counts at least one item
/// per such guarantee.
pub proof fn law_unachieved_requests_are_recorded(root: &RootPack)
    requires
        root.owed() > 0,
    ensures
        root.published_covers(owed_cell()),
        root.published_count(owed_cell()) >= root.owed(),
{
}

/// The decimal spelling of a signed integer.
pub open spec fn signed_decimal(value: int) -> Seq<char> {
    if value < 0 {
        "-"@ + decimal((-value) as nat)
    } else {
        decimal(value as nat)
    }
}

impl PackError {
    /// The refusal's explanation.
    pub open spec fn explanation(&self) -> Seq<char> {
        match self {
            PackError::NotAnObject { found } => "a Context Pack is a JSON object, not a "@ + found@,
            PackError::MissingField { key } => "the parent pack declares no `"@ + key@
                + "`, and an expansion child inherits it rather than inventing one"@,
            PackError::WrongType { key, expected } => "`"@ + key@ + "` is not the "@ + expected@ + " the schema declares"@,
            PackError::NotAPackHandle => "`context_id` is not a `ctx_` handle"@,
            PackError::NegativeBudget { bytes } => "`content_budget.bytes` is "@ + signed_decimal(*bytes as int)
                + "; a byte budget is not negative"@,
            PackError::UnmeasurableSize =>
                "the child's own byte size does not settle: no value of `content_budget.bytes` is the length of the document that records it"@,
            PackError::UnnameableAnchor { length } => "an anchor of "@ + decimal(*length as nat)
                + " bytes is not a canonical identifier, so nothing in the pack can carry it"@,
            PackError::Unreconciled { candidates, accounted } => "the counting equation fails: "@ + decimal(
                *candidates as nat,
            ) + " candidates against "@ + decimal(*accounted as nat)
                + " accounted for by the selection and the manifest; a pack that cannot name what it dropped is malformed, not compact"@,
            PackError::RepeatedSelection { id } => "`"@ + id@ + "` is selected twice; a selection is a set"@,
            PackError::UnclassedHandle { key } => "`"@ + key@ + "` names a handle of the wrong artifact class"@,
            PackError::EmptyEpoch => "`semantic_epoch` is empty, and every preserved guarantee is defined relative to it"@,
            PackError::ReplayPreservingWithoutReplay =>
                "rule C2: a pack claiming `ReplayPreserving` MUST carry a non-null `replay`"@,
            PackError::EmptyCommitment =>
                "a `Redacted` stub with no commitment asserts that nothing stands behind the redaction"@,
            PackError::Manifest(error) => error.explanation(),
            PackError::ProfileViolation { profile, clause } => "the "@ + profile.token() + " profile requires that "@
                + clause@,
        }
    }

    /// The refusal's explanation.
    pub fn message(&self) -> (text: String)
        ensures
            text@ == self.explanation(),
    {
        let mut out = String::new();
        match self {
            PackError::NotAnObject { found } => {
                write_raw(&mut out, "a Context Pack is a JSON object, not a ");
                write_raw(&mut out, found);
            },
            PackError::MissingField { key } => {
                write_raw(&mut out, "the parent pack declares no `");
                write_raw(&mut out, key);
                write_raw(&mut out, "`, and an expansion child inherits it rather than inventing one");
            },
            PackError::WrongType { key, expected } => {
                write_raw(&mut out, "`");
                write_raw(&mut out, key);
                write_raw(&mut out, "` is not the ");
                write_raw(&mut out, expected);
                write_raw(&mut out, " the schema declares");
            },
            PackError::NotAPackHandle => {
                write_raw(&mut out, "`context_id` is not a `ctx_` handle");
            },
            PackError::NegativeBudget { bytes } => {
                write_raw(&mut out, "`content_budget.bytes` is ");
                if *bytes < 0 {
                    write_raw(&mut out, "-");
                    let magnitude = (0i128 - *bytes as i128) as u64;
                    write_decimal(&mut out, magnitude);
                } else {
                    write_decimal(&mut out, *bytes as u64);
                }
                write_raw(&mut out, "; a byte budget is not negative");
            },
            PackError::UnmeasurableSize => {
                write_raw(
                    &mut out,
                    "the child's own byte size does not settle: no value of `content_budget.bytes` is the length of the document that records it",
                );
            },
            PackError::UnnameableAnchor { length } => {
                write_raw(&mut out, "an anchor of ");
                write_decimal(&mut out, *length as u64);
                write_raw(&mut out, " bytes is not a canonical identifier, so nothing in the pack can carry it");
            },
            PackError::Unreconciled { candidates, accounted } => {
                write_raw(&mut out, "the counting equation fails: ");
                write_decimal(&mut out, *candidates);
                write_raw(&mut out, " candidates against ");
                write_decimal(&mut out, *accounted);
                write_raw(
                    &mut out,
                    " accounted for by the selection and the manifest; a pack that cannot name what it dropped is malformed, not compact",
                );
            },
            PackError::RepeatedSelection { id } => {
                write_raw(&mut out, "`");
                write_raw(&mut out, id.as_str());
                write_raw(&mut out, "` is selected twice; a selection is a set");
            },
            PackError::UnclassedHandle { key } => {
                write_raw(&mut out, "`");
                write_raw(&mut out, key);
                write_raw(&mut out, "` names a handle of the wrong artifact class");
            },
            PackError::EmptyEpoch => {
                write_raw(&mut out, "`semantic_epoch` is empty, and every preserved guarantee is defined relative to it");
            },
            PackError::ReplayPreservingWithoutReplay => {
                write_raw(&mut out, "rule C2: a pack claiming `ReplayPreserving` MUST carry a non-null `replay`");
            },
            PackError::EmptyCommitment => {
                write_raw(&mut out, "a `Redacted` stub with no commitment asserts that nothing stands behind the redaction");
            },
            PackError::Manifest(error) => {
                let inner = error.message();
                write_raw(&mut out, inner.as_str());
            },
            PackError::ProfileViolation { profile, clause } => {
                write_raw(&mut out, "the ");
                write_raw(&mut out, profile.as_str());
                write_raw(&mut out, " profile requires that ");
                write_raw(&mut out, clause);
            },
        }
        proof { assert(out@ =~= self.explanation()); }
        out
    }
}

/// The canonical JSON text of a redaction stub: `commitment`, `original_class`, `reason`, and
/// `redacted`, which is the literal `true`.
pub open spec fn stub_json(commitment: Seq<char>, original_class: Seq<char>, reason: RedactionReason) -> Seq<char> {
    "{\"commitment\":"@ + json_string(commitment) + ",\"original_class\":"@ + json_string(original_class)
        + ",\"reason\":"@ + json_string(reason.wire()) + ",\"redacted\":true}"@
}

/// One `redactions[]` entry: the stub a withheld candidate is published as, carrying the
/// commitment to the original and the original's artifact class, both as the store recorded
/// them.
#[derive(Debug, Clone, PartialEq, Eq)]
pub struct RedactionStub {
    redacted: Name,
    reason: RedactionReason,
    commitment: String,
    original_class: String,
}

impl RedactionStub {
    /// The candidate this stub stands for.
    pub closed spec fn candidate(&self) -> Seq<char> {
        self.redacted@
    }

    /// Why it was withheld.
    pub closed spec fn why(&self) -> RedactionReason {
        self.reason
    }

    /// The commitment to the withheld original.
    pub closed spec fn commitment_text(&self) -> Seq<char> {
        self.commitment@
    }

    /// The withheld original's artifact class, by its token.
    pub closed spec fn class_token(&self) -> Seq<char> {
        self.original_class@
    }

    /// Record a withheld candidate, refusing a stub with no commitment behind it: an empty or
    /// all-white-space one.
    pub fn new(redacted: Name, reason: RedactionReason, commitment: &str, original_class: &str) -> (stub: Result<
        RedactionStub,
        PackError,
    >)
        ensures
            stub is Ok <==> !is_blank(commitment@),
            stub matches Err(e) ==> e == PackError::EmptyCommitment,
            stub matches Ok(s) ==> {
                &&& s.candidate() == redacted@
                &&& s.why() == reason
                &&& s.commitment_text() == commitment@
                &&& s.class_token() == original_class@
            },
    {
        if blank(commitment) {
            return Err(PackError::EmptyCommitment);
        }
        Ok(RedactionStub {
            redacted,
            reason,
            commitment: commitment.to_owned(),
            original_class: original_class.to_owned(),
        })
    }

    /// The candidate this stub stands for.
    pub fn redacted(&self) -> (redacted: &Name)
        ensures
            redacted@ == self.candidate(),
    {
        &self.redacted
    }

    /// Why it was withheld.
    pub fn reason(&self) -> (reason: RedactionReason)
        ensures
            reason == self.why(),
    {
        self.reason
    }

    /// The stub, as canonical JSON.
    pub fn to_json(&self) -> (text: String)
        ensures
            text@ == stub_json(self.commitment_text(), self.class_token(), self.why()),
    {
        let mut out = String::new();
        write_raw(&mut out, "{\"commitment\":");
        write_string(&mut out, self.commitment.as_str());
        write_raw(&mut out, ",\"original_class\":");
        write_string(&mut out, self.original_class.as_str());
        write_raw(&mut out, ",\"reason\":");
        write_string(&mut out, self.reason.as_wire_str());
        write_raw(&mut out, ",\"redacted\":true}");
        proof { assert(out@ =~= stub_json(self.commitment_text(), self.class_token(), self.why())); }
        out
    }
}

} // verus!
