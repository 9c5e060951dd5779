//! The pack's closed thirteen-member `guarantees` vocabulary, and the rule that keeps a
//! guarantee a checked claim rather than a requested one.

use vstd::prelude::*;

use crate::json::{joined, json_array, json_string, lemma_joined_push, write_raw, write_separator, write_string};

use crate::text::str_eq;

verus! {

/// One member of the closed thirteen-member `guarantees` vocabulary, declared in schema order.
#[derive(Debug, Clone, Copy, PartialEq, Eq, Hash, PartialOrd, Ord, Structural)]
pub enum Guarantee {
    /// The selected core replays to the same verdict under the pinned semantic epoch.
    ReplayPreserving,
    /// The slice preserves the property automaton's verdict-relevant structure.
    PropertyPreserving,
    /// Every selected item lies on the proof dependency slice of the named obligations.
    ProofRelevant,
    /// Ranked-relevant only; no semantic claim.
    HeuristicRelevant,
    /// Removing any one selected item destroys the witness.
    OneMinimal,
    /// No smaller selected set witnesses the failure, within declared bounds.
    CardinalityMinimal,
    /// Minimal configuration under causal closure.
    CausallyMinimal,
    /// Domains and names reduced.
    ValueMinimal,
    /// Tasks and nodes reduced.
    OwnerMinimal,
    /// No unnecessary injected fault.
    FaultMinimal,
    /// A study objective was met; never licensed by a minimizer transcript.
    ExplanationMinimal,
    /// The selection is downward-closed under the causal order.
    CausallyClosed,
    /// Counterfactual items are valid under a named causality model.
    CounterfactualUnderNamedModel,
}

impl Guarantee {
    /// Every member, in declaration order.
    pub const ALL: [Guarantee; 13] = [
        Guarantee::ReplayPreserving,
        Guarantee::PropertyPreserving,
        Guarantee::ProofRelevant,
        Guarantee::HeuristicRelevant,
        Guarantee::OneMinimal,
        Guarantee::CardinalityMinimal,
        Guarantee::CausallyMinimal,
        Guarantee::ValueMinimal,
        Guarantee::OwnerMinimal,
        Guarantee::FaultMinimal,
        Guarantee::ExplanationMinimal,
        Guarantee::CausallyClosed,
        Guarantee::CounterfactualUnderNamedModel,
    ];

    /// The member's position in declaration order.
    pub open spec fn rank(self) -> int {
        match self {
            Guarantee::ReplayPreserving => 0,
            Guarantee::PropertyPreserving => 1,
            Guarantee::ProofRelevant => 2,
            Guarantee::HeuristicRelevant => 3,
            Guarantee::OneMinimal => 4,
            Guarantee::CardinalityMinimal => 5,
            Guarantee::CausallyMinimal => 6,
            Guarantee::ValueMinimal => 7,
            Guarantee::OwnerMinimal => 8,
            Guarantee::FaultMinimal => 9,
            Guarantee::ExplanationMinimal => 10,
            Guarantee::CausallyClosed => 11,
            Guarantee::CounterfactualUnderNamedModel => 12,
        }
    }

    /// `ALL` lists every member at its rank.
    pub proof fn lemma_all_lists(member: Guarantee)
        ensures
            0 <= member.rank() < 13,
            Guarantee::ALL@[member.rank()] == member,
    {
    }

    /// The member's stable token.
    pub open spec fn wire(self) -> Seq<char> {
        match self {
            Guarantee::ReplayPreserving => "ReplayPreserving"@,
            Guarantee::PropertyPreserving => "PropertyPreserving"@,
            Guarantee::ProofRelevant => "ProofRelevant"@,
            Guarantee::HeuristicRelevant => "HeuristicRelevant"@,
            Guarantee::OneMinimal => "OneMinimal"@,
            Guarantee::CardinalityMinimal => "CardinalityMinimal"@,
            Guarantee::CausallyMinimal => "CausallyMinimal"@,
            Guarantee::ValueMinimal => "ValueMinimal"@,
            Guarantee::OwnerMinimal => "OwnerMinimal"@,
            Guarantee::FaultMinimal => "FaultMinimal"@,
            Guarantee::ExplanationMinimal => "ExplanationMinimal"@,
            Guarantee::CausallyClosed => "CausallyClosed"@,
            Guarantee::CounterfactualUnderNamedModel => "CounterfactualUnderNamedModel"@,
        }
    }

    /// The schema's wire token for this member.
    pub fn as_wire_str(self) -> (text: &'static str)
        ensures
            text@ == self.wire(),
    {
        match self {
            Guarantee::ReplayPreserving => "ReplayPreserving",
            Guarantee::PropertyPreserving => "PropertyPreserving",
            Guarantee::ProofRelevant => "ProofRelevant",
            Guarantee::HeuristicRelevant => "HeuristicRelevant",
            Guarantee::OneMinimal => "OneMinimal",
            Guarantee::CardinalityMinimal => "CardinalityMinimal",
            Guarantee::CausallyMinimal => "CausallyMinimal",
            Guarantee::ValueMinimal => "ValueMinimal",
            Guarantee::OwnerMinimal => "OwnerMinimal",
            Guarantee::FaultMinimal => "FaultMinimal",
            Guarantee::ExplanationMinimal => "ExplanationMinimal",
            Guarantee::CausallyClosed => "CausallyClosed",
            Guarantee::CounterfactualUnderNamedModel => "CounterfactualUnderNamedModel",
        }
    }

    /// The token's length and the characters that tell members' tokens apart.
    pub open spec fn signature(self) -> (int, char) {
        match self {
            Guarantee::ReplayPreserving => (16, 'R'),
            Guarantee::PropertyPreserving => (18, 'P'),
            Guarantee::ProofRelevant => (13, 'P'),
            Guarantee::HeuristicRelevant => (17, 'H'),
            Guarantee::OneMinimal => (10, 'O'),
            Guarantee::CardinalityMinimal => (18, 'C'),
            Guarantee::CausallyMinimal => (15, 'C'),
            Guarantee::ValueMinimal => (12, 'V'),
            Guarantee::OwnerMinimal => (12, 'O'),
            Guarantee::FaultMinimal => (12, 'F'),
            Guarantee::ExplanationMinimal => (18, 'E'),
            Guarantee::CausallyClosed => (14, 'C'),
            Guarantee::CounterfactualUnderNamedModel => (29, 'C'),
        }
    }

    proof fn lemma_signature(member: Guarantee)
        ensures
            member.wire().len() == member.signature().0,
            member.wire()[0] == member.signature().1,
    {
        match member {
            Guarantee::ReplayPreserving => reveal_strlit("ReplayPreserving"),
            Guarantee::PropertyPreserving => reveal_strlit("PropertyPreserving"),
            Guarantee::ProofRelevant => reveal_strlit("ProofRelevant"),
            Guarantee::HeuristicRelevant => reveal_strlit("HeuristicRelevant"),
            Guarantee::OneMinimal => reveal_strlit("OneMinimal"),
            Guarantee::CardinalityMinimal => reveal_strlit("CardinalityMinimal"),
            Guarantee::CausallyMinimal => reveal_strlit("CausallyMinimal"),
            Guarantee::ValueMinimal => reveal_strlit("ValueMinimal"),
            Guarantee::OwnerMinimal => reveal_strlit("OwnerMinimal"),
            Guarantee::FaultMinimal => reveal_strlit("FaultMinimal"),
            Guarantee::ExplanationMinimal => reveal_strlit("ExplanationMinimal"),
            Guarantee::CausallyClosed => reveal_strlit("CausallyClosed"),
            Guarantee::CounterfactualUnderNamedModel => reveal_strlit("CounterfactualUnderNamedModel"),
        }
    }

    /// Distinct members have distinct tokens.
    pub proof fn lemma_wire_injective(a: Guarantee, b: Guarantee)
        ensures
            a.wire() == b.wire() ==> a == b,
    {
        Guarantee::lemma_signature(a);
        Guarantee::lemma_signature(b);
    }

    /// Parse a wire token, failing closed on anything else.
    pub fn from_wire_str(text: &str) -> (parsed: Option<Guarantee>)
        ensures
            forall|member: Guarantee| (parsed == Some(member)) == (text@ == member.wire()),
    {
        let all = Guarantee::ALL;
        let mut i: usize = 0;
        while i < 13
            invariant
                all@ == Guarantee::ALL@,
                i <= 13,
                forall|j: int| 0 <= j < i ==> text@ != all@[j].wire(),
            decreases 13 - i,
        {
            if str_eq(text, all[i].as_wire_str()) {
                proof {
                    assert forall|member: Guarantee| (Some(all[i as int]) == Some(member)) == (text@ == member.wire()) by {
                        Guarantee::lemma_wire_injective(all[i as int], member);
                    }
                }
                return Some(all[i]);
            }
            i = i + 1;
        }
        proof {
            assert forall|member: Guarantee| text@ != member.wire() by {
                Guarantee::lemma_all_lists(member);
            }
        }
        None
    }

}

impl Guarantee {
    /// The member's position in schema order, as an index.
    pub fn position(self) -> (index: usize)
        ensures
            index == self.rank(),
    {
        match self {
            Guarantee::ReplayPreserving => 0,
            Guarantee::PropertyPreserving => 1,
            Guarantee::ProofRelevant => 2,
            Guarantee::HeuristicRelevant => 3,
            Guarantee::OneMinimal => 4,
            Guarantee::CardinalityMinimal => 5,
            Guarantee::CausallyMinimal => 6,
            Guarantee::ValueMinimal => 7,
            Guarantee::OwnerMinimal => 8,
            Guarantee::FaultMinimal => 9,
            Guarantee::ExplanationMinimal => 10,
            Guarantee::CausallyClosed => 11,
            Guarantee::CounterfactualUnderNamedModel => 12,
        }
    }

    /// Whether this member makes any semantic claim at all: every member but
    /// `HeuristicRelevant` does.
    pub fn is_semantic(self) -> (semantic: bool)
        ensures
            semantic == (self != Guarantee::HeuristicRelevant),
    {
        !matches!(self, Guarantee::HeuristicRelevant)
    }
}

/// Whether `listed` holds exactly the members of `members`, each once, in schema order.
pub open spec fn lists_in_schema_order(listed: Seq<Guarantee>, members: Set<Guarantee>) -> bool {
    &&& forall|i: int, j: int| 0 <= i < j < listed.len() ==> listed[i].rank() < listed[j].rank()
    &&& forall|g: Guarantee| members.contains(g) <==> listed.contains(g)
}

/// The members a thirteen-slot presence table marks present.
pub open spec fn marked(present: Seq<bool>) -> Set<Guarantee> {
    Set::new(|g: Guarantee| present[g.rank()])
}

/// List the members a presence table marks, in schema order.
fn list_marked(present: &Vec<bool>) -> (listed: Vec<Guarantee>)
    requires
        present@.len() == 13,
    ensures
        lists_in_schema_order(listed@, marked(present@)),
{
    let all = Guarantee::ALL;
    let mut listed: Vec<Guarantee> = Vec::new();
    let mut i: usize = 0;
    while i < 13
        invariant
            all@ == Guarantee::ALL@,
            present@.len() == 13,
            i <= 13,
            forall|a: int, b: int| 0 <= a < b < listed@.len() ==> listed@[a].rank() < listed@[b].rank(),
            forall|a: int| 0 <= a < listed@.len() ==> listed@[a].rank() < i,
            forall|g: Guarantee| (present@[g.rank()] && g.rank() < i) <==> listed@.contains(g),
        decreases 13 - i,
    {
        proof {
            assert forall|g: Guarantee| #[trigger] g.rank() == i implies g == all@[i as int] by {
                Guarantee::lemma_all_lists(g);
            }
            Guarantee::lemma_all_lists(all@[i as int]);
        }
        let ghost before = listed@;
        if present[i] {
            listed.push(all[i]);
            proof {
                assert(listed@ == before.push(all@[i as int]));
                assert forall|g: Guarantee| (present@[g.rank()] && g.rank() < i + 1) <==> listed@.contains(g) by {
                    Guarantee::lemma_all_lists(g);
                    if listed@.contains(g) {
                        let k = choose|k: int| 0 <= k < listed@.len() && listed@[k] == g;
                        if k < before.len() {
                            assert(before[k] == g);
                            assert(before.contains(g));
                        }
                    }
                    if present@[g.rank()] && g.rank() < i + 1 {
                        if g.rank() < i {
                            assert(before.contains(g));
                            let k = choose|k: int| 0 <= k < before.len() && before[k] == g;
                            assert(listed@[k] == g);
                        } else {
                            assert(listed@[before.len() as int] == g);
                        }
                    }
                }
            }
        } else {
            proof {
                assert forall|g: Guarantee| (present@[g.rank()] && g.rank() < i + 1) <==> listed@.contains(g) by {
                    Guarantee::lemma_all_lists(g);
                }
            }
        }
        i = i + 1;
    }
    proof {
        assert forall|g: Guarantee| marked(present@).contains(g) <==> listed@.contains(g) by {
            Guarantee::lemma_all_lists(g);
        }
    }
    listed
}

/// Permission to claim one guarantee, issued by the checker that established it.
#[derive(Debug, Clone, Copy, PartialEq, Eq, Structural)]
pub struct License {
    guarantee: Guarantee,
}

impl License {
    /// Issue a license for `guarantee`.
    pub fn issue(guarantee: Guarantee) -> (license: License)
        ensures
            license.permits() == guarantee,
    {
        License { guarantee }
    }

    /// The guarantee this license permits.
    pub closed spec fn permits(self) -> Guarantee {
        self.guarantee
    }

    /// The guarantee this license permits.
    pub fn guarantee(self) -> (guarantee: Guarantee)
        ensures
            guarantee == self.permits(),
    {
        self.guarantee
    }
}

/// What a caller asked a compile to achieve: never what it achieved.
#[derive(Debug)]
pub struct RequestedGuarantees {
    present: Vec<bool>,
}

impl View for RequestedGuarantees {
    type V = Set<Guarantee>;

    closed spec fn view(&self) -> Set<Guarantee> {
        marked(self.present@)
    }
}

impl Clone for RequestedGuarantees {
    fn clone(&self) -> (copy: RequestedGuarantees)
        ensures
            copy@ == self@,
    {
        proof { use_type_invariant(self); }
        RequestedGuarantees { present: self.present.clone() }
    }
}

impl RequestedGuarantees {
    #[verifier::type_invariant]
    spec fn table_is_full(self) -> bool {
        self.present@.len() == 13
    }

    /// A request list.
    pub fn of(requested: Vec<Guarantee>) -> (request: RequestedGuarantees)
        ensures
            forall|g: Guarantee| request@.contains(g) <==> requested@.contains(g),
    {
        let mut present: Vec<bool> = vec![false; 13];
        let mut i: usize = 0;
        while i < requested.len()
            invariant
                present@.len() == 13,
                i <= requested@.len(),
                forall|g: Guarantee| present@[g.rank()] <==> requested@.subrange(0, i as int).contains(g),
            decreases requested@.len() - i,
        {
            let g = requested[i];
            let at = g.position();
            present.set(at, true);
            proof {
                assert forall|h: Guarantee| present@[h.rank()] <==> requested@.subrange(0, i + 1).contains(h) by {
                    Guarantee::lemma_all_lists(h);
                    Guarantee::lemma_all_lists(g);
                    let next = requested@.subrange(0, i + 1);
                    assert(next[i as int] == g);
                    if requested@.subrange(0, i as int).contains(h) {
                        let k = choose|k: int| 0 <= k < i && requested@.subrange(0, i as int)[k] == h;
                        assert(next[k] == h);
                    }
                    if next.contains(h) && h != g {
                        let k = choose|k: int| 0 <= k < i + 1 && next[k] == h;
                        assert(requested@.subrange(0, i as int)[k] == h);
                    }
                }
            }
            i = i + 1;
        }
        proof {
            assert(requested@.subrange(0, requested@.len() as int) =~= requested@);
        }
        RequestedGuarantees { present }
    }

    /// Nothing requested.
    pub fn none() -> (request: RequestedGuarantees)
        ensures
            request@ == Set::<Guarantee>::empty(),
    {
        let request = RequestedGuarantees { present: vec![false; 13] };
        assert(request@ =~= Set::<Guarantee>::empty());
        request
    }

    /// The requested members, in schema order.
    pub fn members(&self) -> (listed: Vec<Guarantee>)
        ensures
            lists_in_schema_order(listed@, self@),
    {
        proof { use_type_invariant(self); }
        list_marked(&self.present)
    }

    /// The requested guarantees `achieved` does not contain, in schema order.
    pub fn unachieved(&self, achieved: &GuaranteeSet) -> (missing: Vec<Guarantee>)
        ensures
            lists_in_schema_order(missing@, self@.difference(achieved@)),
    {
        proof {
            use_type_invariant(self);
            use_type_invariant(achieved);
        }
        let mut owed: Vec<bool> = vec![false; 13];
        let mut i: usize = 0;
        while i < 13
            invariant
                owed@.len() == 13,
                self.present@.len() == 13,
                achieved.present@.len() == 13,
                i <= 13,
                forall|k: int| 0 <= k < i ==> owed@[k] == (self.present@[k] && !achieved.present@[k]),
                forall|k: int| i <= k < 13 ==> !owed@[k],
            decreases 13 - i,
        {
            let want = self.present[i] && !achieved.present[i];
            owed.set(i, want);
            i = i + 1;
        }
        let missing = list_marked(&owed);
        proof {
            assert forall|g: Guarantee| marked(owed@).contains(g) <==> self@.difference(achieved@).contains(g) by {
                Guarantee::lemma_all_lists(g);
            }
        }
        missing
    }
}

/// The guarantees a compile actually established, each one behind a [`License`].
#[derive(Debug)]
pub struct GuaranteeSet {
    present: Vec<bool>,
}

impl View for GuaranteeSet {
    type V = Set<Guarantee>;

    closed spec fn view(&self) -> Set<Guarantee> {
        marked(self.present@)
    }
}

impl Clone for GuaranteeSet {
    fn clone(&self) -> (copy: GuaranteeSet)
        ensures
            copy@ == self@,
    {
        proof { use_type_invariant(self); }
        GuaranteeSet { present: self.present.clone() }
    }
}

impl GuaranteeSet {
    #[verifier::type_invariant]
    spec fn table_is_full(self) -> bool {
        self.present@.len() == 13
    }

    /// A compile that has established nothing yet.
    pub fn empty() -> (set: GuaranteeSet)
        ensures
            set@ == Set::<Guarantee>::empty(),
    {
        let set = GuaranteeSet { present: vec![false; 13] };
        assert(set@ =~= Set::<Guarantee>::empty());
        set
    }

    /// Record an established guarantee. Idempotent: one checker running twice claims once.
    pub fn claim(&mut self, license: License)
        ensures
            final(self)@ == old(self)@.insert(license.permits()),
    {
        proof { use_type_invariant(&*self); }
        let at = license.guarantee().position();
        let mut present = self.present.clone();
        present.set(at, true);
        proof {
            assert forall|g: Guarantee| marked(present@).contains(g) <==> old(self)@.insert(license.permits()).contains(g) by {
                Guarantee::lemma_all_lists(g);
                Guarantee::lemma_all_lists(license.permits());
            }
            assert(marked(present@) =~= old(self)@.insert(license.permits()));
        }
        self.present = present;
    }

    /// Whether this compile established `guarantee`.
    pub fn contains(&self, guarantee: Guarantee) -> (established: bool)
        ensures
            established == self@.contains(guarantee),
    {
        proof {
            use_type_invariant(self);
            Guarantee::lemma_all_lists(guarantee);
        }
        self.present[guarantee.position()]
    }

    /// Whether nothing was established.
    pub fn is_empty(&self) -> (nothing: bool)
        ensures
            nothing == (self@ == Set::<Guarantee>::empty()),
    {
        proof { use_type_invariant(self); }
        let mut i: usize = 0;
        while i < 13
            invariant
                self.present@.len() == 13,
                i <= 13,
                forall|k: int| 0 <= k < i ==> !self.present@[k],
            decreases 13 - i,
        {
            if self.present[i] {
                proof {
                    let g = Guarantee::ALL@[i as int];
                    Guarantee::lemma_all_lists(g);
                    assert(self@.contains(g));
                }
                return false;
            }
            i = i + 1;
        }
        proof {
            assert forall|g: Guarantee| !self@.contains(g) by {
                Guarantee::lemma_all_lists(g);
            }
            assert(self@ =~= Set::<Guarantee>::empty());
        }
        true
    }

    /// The established members, in schema order.
    pub fn members(&self) -> (listed: Vec<Guarantee>)
        ensures
            lists_in_schema_order(listed@, self@),
    {
        proof { use_type_invariant(self); }
        list_marked(&self.present)
    }

    /// Seal the set for publication, enforcing rule C2: `ReplayPreserving` is refused
    /// without `CausallyClosed`.
    pub fn seal(self) -> (sealed: Result<SealedGuarantees, GuaranteeError>)
        ensures
            sealed is Err <==> (self@.contains(Guarantee::ReplayPreserving)
                && !self@.contains(Guarantee::CausallyClosed)),
            sealed matches Err(e) ==> e == GuaranteeError::ReplayWithoutClosure,
            sealed matches Ok(s) ==> lists_in_schema_order(s@, self@),
    {
        if self.contains(Guarantee::ReplayPreserving) && !self.contains(Guarantee::CausallyClosed) {
            return Err(GuaranteeError::ReplayWithoutClosure);
        }
        Ok(SealedGuarantees { members: self.members() })
    }
}

/// A published `guarantees` array: sealed under rule C2 and in schema order.
#[derive(Debug, Clone, PartialEq, Eq)]
pub struct SealedGuarantees {
    members: Vec<Guarantee>,
}

impl View for SealedGuarantees {
    type V = Seq<Guarantee>;

    closed spec fn view(&self) -> Seq<Guarantee> {
        self.members@
    }
}

/// The canonical JSON texts of a list of guarantees: each one's wire token as a string.
pub open spec fn guarantee_strings(members: Seq<Guarantee>) -> Seq<Seq<char>> {
    members.map_values(|g: Guarantee| json_string(g.wire()))
}

impl SealedGuarantees {
    /// The published `guarantees` array, as canonical JSON.
    pub fn to_json(&self) -> (text: String)
        ensures
            text@ == json_array(guarantee_strings(self@)),
    {
        let mut out = String::new();
        write_raw(&mut out, "[");
        proof {
            reveal_strlit("[");
            assert(guarantee_strings(self@).subrange(0, 0) =~= Seq::<Seq<char>>::empty());
            assert(out@ =~= seq!['['] + joined(Seq::<Seq<char>>::empty()));
        }
        let n = self.members.len();
        let mut i: usize = 0;
        while i < n
            invariant
                n == self@.len(),
                i <= n,
                out@ == seq!['['] + joined(guarantee_strings(self@).subrange(0, i as int)),
            decreases n - i,
        {
            let ghost before = guarantee_strings(self@).subrange(0, i as int);
            write_separator(&mut out, i);
            let ghost start = out@;
            write_string(&mut out, self.members[i].as_wire_str());
            proof {
                let rendered = json_string(self@[i as int].wire());
                assert(out@ == start + rendered);
                assert(guarantee_strings(self@).subrange(0, i + 1) =~= before.push(rendered));
                lemma_joined_push(before, rendered);
            }
            i = i + 1;
        }
        write_raw(&mut out, "]");
        proof {
            reveal_strlit("]");
            assert(guarantee_strings(self@).subrange(0, n as int) =~= guarantee_strings(self@));
            assert(out@ =~= json_array(guarantee_strings(self@)));
        }
        out
    }

    /// The members, in schema order.
    pub fn members(&self) -> (members: &[Guarantee])
        ensures
            members@ == self@,
    {
        self.members.as_slice()
    }
}

/// A way a guarantee set fails to be publishable.
#[derive(Debug, Clone, Copy, PartialEq, Eq, Structural)]
pub enum GuaranteeError {
    /// `ReplayPreserving` without `CausallyClosed` (rule C2).
    ReplayWithoutClosure,
}

impl GuaranteeError {
    /// The refusal, as a sentence.
    pub fn message(self) -> (text: &'static str)
        ensures
            text@ == "`ReplayPreserving` is claimed without `CausallyClosed`; a core that replays contains every causal predecessor its replay consumes"@,
    {
        match self {
            GuaranteeError::ReplayWithoutClosure =>
                "`ReplayPreserving` is claimed without `CausallyClosed`; a core that replays contains every causal predecessor its replay consumes",
        }
    }
}

/// Claiming one guarantee twice claims it once.
pub proof fn law_claim_is_idempotent(established: Set<Guarantee>, license: License)
    ensures
        established.insert(license.permits()).insert(license.permits())
            == established.insert(license.permits()),
{
    assert(established.insert(license.permits()).insert(license.permits())
        =~= established.insert(license.permits()));
}

/// A sealed guarantee array never holds `ReplayPreserving` without `CausallyClosed`
/// (rule C2), whatever set it was sealed from.
pub proof fn law_sealed_replay_implies_closure(established: Set<Guarantee>, sealed: Seq<Guarantee>)
    requires
        !(established.contains(Guarantee::ReplayPreserving)
            && !established.contains(Guarantee::CausallyClosed)),
        lists_in_schema_order(sealed, established),
    ensures
        sealed.contains(Guarantee::ReplayPreserving) ==> sealed.contains(Guarantee::CausallyClosed),
{
}

} // verus!
