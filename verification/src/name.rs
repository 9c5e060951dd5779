//! Canonical identifiers, their order, and ordered sets of them.

use vstd::prelude::*;
use vstd::utf8::encode_utf8;

verus! {

/// Whether a character is a control character (C0, DEL or C1).
pub open spec fn is_control(c: char) -> bool {
    (c as u32) < 0x20 || (0x7f <= (c as u32) && (c as u32) < 0xa0)
}

/// The identifier grammar: non-empty, and free of control characters.
pub open spec fn well_formed_name(text: Seq<char>) -> bool {
    &&& text.len() > 0
    &&& forall|i: int| 0 <= i < text.len() ==> !is_control(#[trigger] text[i])
}

/// Lexicographic comparison of byte strings `a` and `b` from position `i` on.
pub open spec fn bytes_precede_from(a: Seq<u8>, b: Seq<u8>, i: nat) -> bool
    decreases a.len() - i,
{
    if i >= a.len() {
        i < b.len()
    } else if i >= b.len() {
        false
    } else if a[i as int] != b[i as int] {
        a[i as int] < b[i as int]
    } else {
        bytes_precede_from(a, b, i + 1)
    }
}

/// Shortlex comparison of byte strings: the shorter first, and lexicographic between strings
/// of one length.
pub open spec fn bytes_precede(a: Seq<u8>, b: Seq<u8>) -> bool {
    if a.len() != b.len() {
        a.len() < b.len()
    } else {
        bytes_precede_from(a, b, 0)
    }
}

/// The canonical order of identifiers: shortlex over their UTF-8 encodings, so the shorter
/// encoding sorts first and encodings of one length compare byte by byte.
pub open spec fn precedes(a: Seq<char>, b: Seq<char>) -> bool {
    bytes_precede(encode_utf8(a), encode_utf8(b))
}

proof fn lemma_bytes_from_irreflexive(a: Seq<u8>, i: nat)
    ensures
        !bytes_precede_from(a, a, i),
    decreases a.len() - i,
{
    if i < a.len() {
        lemma_bytes_from_irreflexive(a, i + 1);
    }
}

proof fn lemma_bytes_from_total(a: Seq<u8>, b: Seq<u8>, i: nat)
    requires
        i <= a.len(),
        i <= b.len(),
        a.subrange(i as int, a.len() as int) != b.subrange(i as int, b.len() as int),
    ensures
        bytes_precede_from(a, b, i) || bytes_precede_from(b, a, i),
    decreases a.len() - i,
{
    if i < a.len() && i < b.len() {
        if a[i as int] == b[i as int] {
            let ra = a.subrange((i + 1) as int, a.len() as int);
            let rb = b.subrange((i + 1) as int, b.len() as int);
            if ra == rb {
                let sa = a.subrange(i as int, a.len() as int);
                let sb = b.subrange(i as int, b.len() as int);
                assert(sa.len() == ra.len() + 1);
                assert(sb.len() == rb.len() + 1);
                assert forall|k: int| 0 <= k < sa.len() implies sa[k] == sb[k] by {
                    if k > 0 {
                        assert(sa[k] == ra[k - 1]);
                        assert(sb[k] == rb[k - 1]);
                    }
                }
                assert(sa =~= sb);
            } else {
                lemma_bytes_from_total(a, b, i + 1);
            }
        }
    } else if i >= a.len() && i >= b.len() {
        assert(a.subrange(i as int, a.len() as int) =~= b.subrange(i as int, b.len() as int));
    }
}

proof fn lemma_bytes_from_asymmetric(a: Seq<u8>, b: Seq<u8>, i: nat)
    ensures
        bytes_precede_from(a, b, i) ==> !bytes_precede_from(b, a, i),
    decreases a.len() - i,
{
    if i < a.len() && i < b.len() && a[i as int] == b[i as int] {
        lemma_bytes_from_asymmetric(a, b, i + 1);
    }
}

proof fn lemma_bytes_from_transitive(a: Seq<u8>, b: Seq<u8>, c: Seq<u8>, i: nat)
    ensures
        bytes_precede_from(a, b, i) && bytes_precede_from(b, c, i) ==> bytes_precede_from(a, c, i),
    decreases a.len() - i,
{
    if i < a.len() && i < b.len() && i < c.len() && a[i as int] == b[i as int] && b[i as int] == c[i as int] {
        lemma_bytes_from_transitive(a, b, c, i + 1);
    }
}

/// Shortlex is a strict total order on byte strings.
proof fn lemma_bytes_order(a: Seq<u8>, b: Seq<u8>, c: Seq<u8>)
    ensures
        !bytes_precede(a, a),
        bytes_precede(a, b) ==> !bytes_precede(b, a),
        a != b ==> bytes_precede(a, b) || bytes_precede(b, a),
        bytes_precede(a, b) && bytes_precede(b, c) ==> bytes_precede(a, c),
{
    lemma_bytes_from_irreflexive(a, 0);
    lemma_bytes_from_asymmetric(a, b, 0);
    lemma_bytes_from_transitive(a, b, c, 0);
    if a != b && a.len() == b.len() {
        assert(a.subrange(0, a.len() as int) =~= a);
        assert(b.subrange(0, b.len() as int) =~= b);
        lemma_bytes_from_total(a, b, 0);
    }
}

/// Distinct identifiers have distinct encodings.
proof fn lemma_encoding_injective(a: Seq<char>, b: Seq<char>)
    ensures
        encode_utf8(a) == encode_utf8(b) ==> a == b,
{
    vstd::utf8::encode_utf8_decode_utf8(a);
    vstd::utf8::encode_utf8_decode_utf8(b);
}

/// The canonical order is a strict total order.
pub proof fn lemma_precedes_order(a: Seq<char>, b: Seq<char>, c: Seq<char>)
    ensures
        !precedes(a, a),
        precedes(a, b) ==> !precedes(b, a),
        a != b ==> precedes(a, b) || precedes(b, a),
        precedes(a, b) && precedes(b, c) ==> precedes(a, c),
{
    lemma_bytes_order(encode_utf8(a), encode_utf8(b), encode_utf8(c));
    lemma_encoding_injective(a, b);
}

/// The order of text: lexicographic over UTF-8 encodings, a proper prefix first.
pub open spec fn text_precedes(a: Seq<char>, b: Seq<char>) -> bool {
    bytes_precede_from(encode_utf8(a), encode_utf8(b), 0)
}

/// The order of text is a strict total order.
pub proof fn lemma_text_order(a: Seq<char>, b: Seq<char>, c: Seq<char>)
    ensures
        !text_precedes(a, a),
        text_precedes(a, b) ==> !text_precedes(b, a),
        a != b ==> text_precedes(a, b) || text_precedes(b, a),
        text_precedes(a, b) && text_precedes(b, c) ==> text_precedes(a, c),
{
    let (x, y, z) = (encode_utf8(a), encode_utf8(b), encode_utf8(c));
    lemma_bytes_from_irreflexive(x, 0);
    lemma_bytes_from_asymmetric(x, y, 0);
    lemma_bytes_from_transitive(x, y, z, 0);
    lemma_encoding_injective(a, b);
    if a != b {
        assert(x.subrange(0, x.len() as int) =~= x);
        assert(y.subrange(0, y.len() as int) =~= y);
        lemma_bytes_from_total(x, y, 0);
    }
}

/// A canonical identifier.
#[derive(Debug, PartialEq, Eq)]
pub struct Name {
    text: String,
}

impl View for Name {
    type V = Seq<char>;

    closed spec fn view(&self) -> Seq<char> {
        self.text@
    }
}

impl Clone for Name {
    fn clone(&self) -> (copy: Name)
        ensures
            copy@ == self@,
    {
        proof { use_type_invariant(self); }
        Name { text: self.text.clone() }
    }
}

impl Name {
    #[verifier::type_invariant]
    spec fn grammar_holds(self) -> bool {
        well_formed_name(self.text@)
    }

    /// Parse an identifier, refusing an empty one or one holding a control character.
    pub fn new(text: &str) -> (name: Option<Name>)
        ensures
            name is Some <==> well_formed_name(text@),
            name matches Some(n) ==> n@ == text@,
    {
        let n = text.unicode_len();
        if n == 0 {
            return None;
        }
        let mut i: usize = 0;
        while i < n
            invariant
                n == text@.len(),
                i <= n,
                forall|j: int| 0 <= j < i ==> !is_control(#[trigger] text@[j]),
            decreases n - i,
        {
            let c = text.get_char(i);
            let code = c as u32;
            if code < 0x20 || (0x7f <= code && code < 0xa0) {
                return None;
            }
            i = i + 1;
        }
        Some(Name { text: text.to_owned() })
    }

    /// The identifier's text.
    pub fn as_str(&self) -> (text: &str)
        ensures
            text@ == self@,
            well_formed_name(self@),
    {
        proof { use_type_invariant(self); }
        self.text.as_str()
    }

    /// Whether two names are one identifier.
    pub fn same(&self, other: &Name) -> (same: bool)
        ensures
            same == (self@ == other@),
    {
        self.text == other.text
    }

    /// Whether this name comes strictly before `other` in the order of text.
    pub fn text_precedes(&self, other: &Name) -> (before: bool)
        ensures
            before == text_precedes(self@, other@),
    {
        let a = self.text.as_str().as_bytes();
        let b = other.text.as_str().as_bytes();
        proof {
            assert(a@ == encode_utf8(self@));
            assert(b@ == encode_utf8(other@));
        }
        let n = a.len();
        let m = b.len();
        let mut i: usize = 0;
        while i < n && i < m
            invariant
                n == a@.len(),
                m == b@.len(),
                a@ == encode_utf8(self@),
                b@ == encode_utf8(other@),
                i <= n,
                i <= m,
                text_precedes(self@, other@) == bytes_precede_from(a@, b@, i as nat),
            decreases n - i,
        {
            let x = a[i];
            let y = b[i];
            if x != y {
                return x < y;
            }
            i = i + 1;
        }
        i >= n && i < m
    }

    /// Whether this name comes strictly before `other` in canonical order.
    pub fn precedes(&self, other: &Name) -> (before: bool)
        ensures
            before == precedes(self@, other@),
    {
        let a = self.text.as_str().as_bytes();
        let b = other.text.as_str().as_bytes();
        proof {
            assert(a@ == encode_utf8(self@));
            assert(b@ == encode_utf8(other@));
        }
        let n = a.len();
        let m = b.len();
        if n != m {
            return n < m;
        }
        let mut i: usize = 0;
        while i < n
            invariant
                n == a@.len(),
                m == b@.len(),
                n == m,
                a@ == encode_utf8(self@),
                b@ == encode_utf8(other@),
                i <= n,
                precedes(self@, other@) == bytes_precede_from(a@, b@, i as nat),
            decreases n - i,
        {
            let x = a[i];
            let y = b[i];
            if x != y {
                return x < y;
            }
            i = i + 1;
        }
        false
    }
}

/// Whether a sequence of identifiers is strictly increasing in canonical order.
pub open spec fn strictly_ascending(names: Seq<Seq<char>>) -> bool {
    forall|i: int, j: int| 0 <= i < j < names.len() ==> precedes(names[i], names[j])
}

/// The identifiers a sequence of names spells.
pub open spec fn spelled(names: Seq<Name>) -> Seq<Seq<char>> {
    names.map_values(|n: Name| n@)
}

/// A finite set of identifiers, held in canonical order.
#[derive(Debug, PartialEq, Eq)]
pub struct NameSet {
    members: Vec<Name>,
}

impl Clone for NameSet {
    fn clone(&self) -> (copy: NameSet)
        ensures
            copy.listing() == self.listing(),
    {
        proof { use_type_invariant(self); }
        let mut members: Vec<Name> = Vec::new();
        let mut i: usize = 0;
        while i < self.members.len()
            invariant
                i <= self.members@.len(),
                spelled(members@) =~= spelled(self.members@).subrange(0, i as int),
            decreases self.members@.len() - i,
        {
            let copy = self.members[i].clone();
            let ghost before = members@;
            members.push(copy);
            proof {
                assert(members@ == before.push(copy));
                assert(spelled(members@) =~= spelled(before).push(copy@));
            }
            i = i + 1;
        }
        proof {
            assert(spelled(self.members@).subrange(0, i as int) =~= spelled(self.members@));
        }
        NameSet { members }
    }
}

impl NameSet {
    #[verifier::type_invariant]
    spec fn ordered(self) -> bool {
        strictly_ascending(spelled(self.members@))
    }

    /// The members, in canonical order.
    pub closed spec fn listing(&self) -> Seq<Seq<char>> {
        spelled(self.members@)
    }

    /// The members, as a set.
    pub open spec fn contents(&self) -> Set<Seq<char>> {
        self.listing().to_set()
    }

    /// The empty set.
    pub fn new() -> (set: NameSet)
        ensures
            set.listing() == Seq::<Seq<char>>::empty(),
            set.contents() == Set::<Seq<char>>::empty(),
    {
        let set = NameSet { members: Vec::new() };
        assert(set.listing() =~= Seq::<Seq<char>>::empty());
        assert(set.contents() =~= Set::<Seq<char>>::empty());
        set
    }

    /// How many members there are.
    pub fn len(&self) -> (count: usize)
        ensures
            count == self.listing().len(),
    {
        self.members.len()
    }

    /// Whether the set is empty.
    pub fn is_empty(&self) -> (empty: bool)
        ensures
            empty == (self.listing().len() == 0),
            empty == (self.contents() == Set::<Seq<char>>::empty()),
    {
        proof {
            if self.listing().len() > 0 {
                assert(self.contents().contains(self.listing()[0]));
            } else {
                assert(self.contents() =~= Set::<Seq<char>>::empty());
            }
        }
        self.members.len() == 0
    }

    /// The members, in canonical order.
    pub fn members(&self) -> (members: &[Name])
        ensures
            spelled(members@) == self.listing(),
            strictly_ascending(self.listing()),
            self.listing().no_duplicates(),
            self.contents().len() == self.listing().len(),
    {
        proof {
            use_type_invariant(self);
            lemma_ascending_no_duplicates(self.listing());
            self.listing().unique_seq_to_set();
        }
        self.members.as_slice()
    }

    /// The member at `index` in canonical order.
    pub fn get(&self, index: usize) -> (member: &Name)
        requires
            index < self.listing().len(),
        ensures
            member@ == self.listing()[index as int],
    {
        &self.members[index]
    }

    /// Where `name` sits in the canonical listing, if it is a member.
    pub fn position(&self, name: &Name) -> (at: Option<usize>)
        ensures
            at matches Some(i) ==> i < self.listing().len() && self.listing()[i as int] == name@,
            at is None ==> !self.contents().contains(name@),
    {
        let mut i: usize = 0;
        while i < self.members.len()
            invariant
                i <= self.members@.len(),
                forall|j: int| 0 <= j < i ==> self.listing()[j] != name@,
            decreases self.members@.len() - i,
        {
            if self.members[i].same(name) {
                return Some(i);
            }
            i = i + 1;
        }
        None
    }

    /// Whether `name` is a member.
    pub fn contains(&self, name: &Name) -> (member: bool)
        ensures
            member == self.contents().contains(name@),
    {
        match self.position(name) {
            Some(_) => true,
            None => false,
        }
    }

    /// Add `name`, keeping canonical order. Returns whether it was absent before.
    pub fn insert(&mut self, name: Name) -> (added: bool)
        ensures
            final(self).contents() == old(self).contents().insert(name@),
            added == !old(self).contents().contains(name@),
    {
        proof { use_type_invariant(&*self); }
        let ghost old_listing = self.listing();
        match locate(self.members.as_slice(), &name) {
            Ok(i) => {
                proof {
                    assert(old_listing[i as int] == name@);
                    assert(old_listing.to_set().insert(name@) =~= old_listing.to_set());
                }
                false
            },
            Err(i) => {
                let mut members = Vec::new();
                std::mem::swap(&mut members, &mut self.members);
                members.insert(i, name);
                proof {
                    assert(spelled(members@) =~= old_listing.insert(i as int, name@));
                    lemma_insert_ascending(old_listing, i as int, name@);
                }
                self.members = members;
                true
            },
        }
    }
}

/// Where `id` sits in a strictly ascending listing: `Ok` with its index when it is there,
/// `Err` with the index it would be inserted at when it is not.
pub fn locate(names: &[Name], id: &Name) -> (at: Result<usize, usize>)
    requires
        strictly_ascending(spelled(names@)),
    ensures
        at matches Ok(i) ==> i < names@.len() && names@[i as int]@ == id@,
        at matches Err(i) ==> {
            &&& i <= names@.len()
            &&& forall|q: int| 0 <= q < i ==> precedes(#[trigger] names@[q]@, id@)
            &&& i < names@.len() ==> precedes(id@, names@[i as int]@)
            &&& forall|q: int| 0 <= q < names@.len() ==> #[trigger] names@[q]@ != id@
        },
{
    let n = names.len();
    let mut i: usize = 0;
    while i < n
        invariant
            n == names@.len(),
            i <= n,
            strictly_ascending(spelled(names@)),
            forall|q: int| 0 <= q < i ==> precedes(#[trigger] names@[q]@, id@),
        decreases n - i,
    {
        if names[i].same(id) {
            return Ok(i);
        }
        if id.precedes(&names[i]) {
            proof {
                let s = spelled(names@);
                assert forall|q: int| 0 <= q < n implies #[trigger] names@[q]@ != id@ by {
                    assert(s[q] == names@[q]@);
                    lemma_precedes_order(names@[q]@, id@, names@[q]@);
                    if q > i {
                        assert(precedes(s[i as int], s[q]));
                        lemma_precedes_order(id@, names@[i as int]@, names@[q]@);
                        lemma_precedes_order(id@, names@[q]@, id@);
                    } else if q == i {
                        lemma_precedes_order(id@, names@[q]@, id@);
                    }
                }
            }
            return Err(i);
        }
        proof {
            lemma_precedes_order(id@, names@[i as int]@, id@);
        }
        i = i + 1;
    }
    proof {
        assert forall|q: int| 0 <= q < n implies #[trigger] names@[q]@ != id@ by {
            lemma_precedes_order(names@[q]@, id@, names@[q]@);
        }
    }
    Err(i)
}

/// Inserting an identifier between its neighbours keeps a listing strictly ascending and
/// adds exactly that identifier to its set.
pub proof fn lemma_insert_ascending(s: Seq<Seq<char>>, i: int, x: Seq<char>)
    requires
        strictly_ascending(s),
        0 <= i <= s.len(),
        forall|q: int| 0 <= q < i ==> precedes(#[trigger] s[q], x),
        i < s.len() ==> precedes(x, s[i]),
    ensures
        strictly_ascending(s.insert(i, x)),
        s.insert(i, x).to_set() == s.to_set().insert(x),
{
    let t = s.insert(i, x);
    assert forall|a: int, b: int| 0 <= a < b < t.len() implies precedes(t[a], t[b]) by {
        if b < i {
            assert(precedes(s[a], s[b]));
        } else if b == i {
            assert(precedes(s[a], x));
        } else if a < i {
            lemma_precedes_order(s[a], x, s[b - 1]);
            if b - 1 > i {
                lemma_precedes_order(x, s[i], s[b - 1]);
            }
            assert(precedes(s[a], s[b - 1]));
        } else if a == i {
            if b - 1 > i {
                lemma_precedes_order(x, s[i], s[b - 1]);
            }
        } else {
            assert(precedes(s[a - 1], s[b - 1]));
        }
    }
    assert forall|y: Seq<char>| t.to_set().contains(y) <==> s.to_set().insert(x).contains(y) by {
        if t.contains(y) {
            let k = choose|k: int| 0 <= k < t.len() && t[k] == y;
            if k < i {
                assert(s[k] == y);
            } else if k > i {
                assert(s[k - 1] == y);
            }
        }
        if s.contains(y) {
            let k = choose|k: int| 0 <= k < s.len() && s[k] == y;
            if k < i {
                assert(t[k] == y);
            } else {
                assert(t[k + 1] == y);
            }
        }
        if y == x {
            assert(t[i] == y);
        }
    }
    assert(t.to_set() =~= s.to_set().insert(x));
}

impl NameSet {
    /// The set of the identifiers `names` spells, whatever order they come in and however
    /// often each one does.
    pub fn of(names: Vec<Name>) -> (set: NameSet)
        ensures
            set.contents() == spelled(names@).to_set(),
    {
        let mut set = NameSet::new();
        let mut i: usize = 0;
        while i < names.len()
            invariant
                i <= names@.len(),
                set.contents() == spelled(names@).subrange(0, i as int).to_set(),
            decreases names@.len() - i,
        {
            set.insert(names[i].clone());
            proof {
                let before = spelled(names@).subrange(0, i as int);
                let after = spelled(names@).subrange(0, i + 1);
                assert(after =~= before.push(names@[i as int]@));
                assert(after.to_set() =~= before.to_set().insert(names@[i as int]@)) by {
                    assert forall|x: Seq<char>| after.to_set().contains(x) <==> before.to_set().insert(names@[i as int]@).contains(x) by {
                        if after.contains(x) {
                            let k = choose|k: int| 0 <= k < after.len() && after[k] == x;
                            if k < before.len() {
                                assert(before[k] == x);
                            }
                        }
                        if before.contains(x) {
                            let k = choose|k: int| 0 <= k < before.len() && before[k] == x;
                            assert(after[k] == x);
                        }
                        if x == names@[i as int]@ {
                            assert(after[i as int] == x);
                        }
                    }
                }
            }
            i = i + 1;
        }
        proof {
            assert(spelled(names@).subrange(0, names@.len() as int) =~= spelled(names@));
        }
        set
    }

    /// The members of this set that `other` also holds.
    pub fn intersection(&self, other: &NameSet) -> (common: NameSet)
        ensures
            common.contents() == self.contents().intersect(other.contents()),
    {
        let mut common = NameSet::new();
        let members = self.members();
        let mut i: usize = 0;
        while i < members.len()
            invariant
                spelled(members@) == self.listing(),
                i <= members@.len(),
                common.contents() == self.listing().subrange(0, i as int).to_set().intersect(other.contents()),
            decreases members@.len() - i,
        {
            if other.contains(&members[i]) {
                common.insert(members[i].clone());
            }
            proof {
                let before = self.listing().subrange(0, i as int);
                let after = self.listing().subrange(0, i + 1);
                let x = self.listing()[i as int];
                assert(x == members@[i as int]@);
                assert(after =~= before.push(x));
                lemma_push_to_set(before, x);
            }
            i = i + 1;
        }
        proof {
            assert(self.listing().subrange(0, i as int) =~= self.listing());
        }
        common
    }
}

impl NameSet {
    /// The members of this set that `other` does not hold.
    pub fn difference(&self, other: &NameSet) -> (rest: NameSet)
        ensures
            rest.contents() == self.contents().difference(other.contents()),
    {
        let mut rest = NameSet::new();
        let members = self.members();
        let mut i: usize = 0;
        while i < members.len()
            invariant
                spelled(members@) == self.listing(),
                i <= members@.len(),
                rest.contents() == self.listing().subrange(0, i as int).to_set().difference(other.contents()),
            decreases members@.len() - i,
        {
            if !other.contains(&members[i]) {
                rest.insert(members[i].clone());
            }
            proof {
                let before = self.listing().subrange(0, i as int);
                let after = self.listing().subrange(0, i + 1);
                let x = self.listing()[i as int];
                assert(x == members@[i as int]@);
                assert(after =~= before.push(x));
                lemma_push_to_set(before, x);
                assert(rest.contents() =~= after.to_set().difference(other.contents()));
            }
            i = i + 1;
        }
        proof {
            assert(self.listing().subrange(0, i as int) =~= self.listing());
        }
        rest
    }

    /// The least member in canonical order, where the set has one.
    pub fn first(&self) -> (first: Option<&Name>)
        ensures
            first is None <==> self.contents() == Set::<Seq<char>>::empty(),
            first matches Some(x) ==> self.contents().contains(x@)
                && forall|y: Seq<char>| self.contents().contains(y) ==> !precedes(y, x@),
    {
        let members = self.members();
        if members.len() == 0 {
            proof { assert(self.contents() =~= Set::<Seq<char>>::empty()); }
            return None;
        }
        proof {
            let listing = self.listing();
            assert(listing[0] == members@[0]@);
            assert(self.contents().contains(listing[0]));
            assert forall|y: Seq<char>| self.contents().contains(y) implies !precedes(y, listing[0]) by {
                let k = choose|k: int| 0 <= k < listing.len() && listing[k] == y;
                lemma_precedes_order(y, listing[0], y);
                if k > 0 {
                    assert(precedes(listing[0], listing[k]));
                }
            }
        }
        Some(&members[0])
    }
}

/// Extending a sequence by one extends its set by that one member.
pub proof fn lemma_push_to_set(names: Seq<Seq<char>>, x: Seq<char>)
    ensures
        names.push(x).to_set() == names.to_set().insert(x),
{
    let after = names.push(x);
    assert forall|y: Seq<char>| after.to_set().contains(y) <==> names.to_set().insert(x).contains(y) by {
        if after.contains(y) {
            let k = choose|k: int| 0 <= k < after.len() && after[k] == y;
            if k < names.len() {
                assert(names[k] == y);
            }
        }
        if names.contains(y) {
            let k = choose|k: int| 0 <= k < names.len() && names[k] == y;
            assert(after[k] == y);
        }
        if y == x {
            assert(after[names.len() as int] == y);
        }
    }
    assert(after.to_set() =~= names.to_set().insert(x));
}

/// A strictly ascending listing holds each identifier once.
pub proof fn lemma_ascending_no_duplicates(names: Seq<Seq<char>>)
    requires
        strictly_ascending(names),
    ensures
        names.no_duplicates(),
{
    assert forall|i: int, j: int| 0 <= i < names.len() && 0 <= j < names.len() && i != j implies names[i] != names[j] by {
        lemma_precedes_order(names[i], names[j], names[i]);
        if i < j {
            assert(precedes(names[i], names[j]));
        } else {
            assert(precedes(names[j], names[i]));
        }
    }
}

/// Two strictly ascending listings of one set of identifiers are one listing: canonical order
/// is unique.
pub proof fn lemma_ascending_unique(a: Seq<Seq<char>>, b: Seq<Seq<char>>)
    requires
        strictly_ascending(a),
        strictly_ascending(b),
        a.to_set() == b.to_set(),
    ensures
        a == b,
    decreases a.len(),
{
    if a.len() == 0 {
        if b.len() > 0 {
            assert(b.to_set().contains(b[0]));
            assert(a.to_set().contains(b[0]));
        }
        assert(a =~= b);
    } else {
        assert(a.to_set().contains(a[0]));
        assert(b.to_set().contains(a[0]));
        assert(b.len() > 0);
        assert(b.to_set().contains(b[0]));
        assert(a.to_set().contains(b[0]));
        let j = choose|j: int| 0 <= j < b.len() && b[j] == a[0];
        let i = choose|i: int| 0 <= i < a.len() && a[i] == b[0];
        if j > 0 {
            assert(precedes(b[0], b[j]));
            if i > 0 {
                assert(precedes(a[0], a[i]));
                lemma_precedes_order(b[0], a[0], b[0]);
            } else {
                lemma_precedes_order(b[0], b[0], b[0]);
            }
        }
        assert(a[0] == b[0]);
        let ta = a.subrange(1, a.len() as int);
        let tb = b.subrange(1, b.len() as int);
        lemma_ascending_no_duplicates(a);
        lemma_ascending_no_duplicates(b);
        assert forall|x: Seq<char>| ta.to_set().contains(x) <==> tb.to_set().contains(x) by {
            if ta.contains(x) {
                let k = choose|k: int| 0 <= k < ta.len() && ta[k] == x;
                assert(a[k + 1] == x);
                assert(a.to_set().contains(x));
                assert(b.contains(x));
                let m = choose|m: int| 0 <= m < b.len() && b[m] == x;
                if m == 0 {
                    assert(a[0] == a[k + 1]);
                }
                assert(tb[m - 1] == x);
            }
            if tb.contains(x) {
                let k = choose|k: int| 0 <= k < tb.len() && tb[k] == x;
                assert(b[k + 1] == x);
                assert(b.to_set().contains(x));
                assert(a.contains(x));
                let m = choose|m: int| 0 <= m < a.len() && a[m] == x;
                if m == 0 {
                    assert(b[0] == b[k + 1]);
                }
                assert(ta[m - 1] == x);
            }
        }
        assert(ta.to_set() =~= tb.to_set());
        lemma_ascending_unique(ta, tb);
        assert(a =~= seq![a[0]] + ta);
        assert(b =~= seq![b[0]] + tb);
    }
}

/// Lexicographic comparison of listings of identifiers from position `i` on, a proper prefix
/// first: the order of finite sets of identifiers by their canonical listings.
pub open spec fn listing_precedes_from(a: Seq<Seq<char>>, b: Seq<Seq<char>>, i: nat) -> bool
    decreases a.len() - i,
{
    if i >= a.len() {
        i < b.len()
    } else if i >= b.len() {
        false
    } else if a[i as int] != b[i as int] {
        precedes(a[i as int], b[i as int])
    } else {
        listing_precedes_from(a, b, i + 1)
    }
}

/// The canonical order of finite sets of identifiers: lexicographic over their canonical
/// listings, a proper prefix first.
pub open spec fn listing_precedes(a: Seq<Seq<char>>, b: Seq<Seq<char>>) -> bool {
    listing_precedes_from(a, b, 0)
}

proof fn lemma_listing_from_order(a: Seq<Seq<char>>, b: Seq<Seq<char>>, c: Seq<Seq<char>>, i: nat)
    ensures
        !listing_precedes_from(a, a, i),
        listing_precedes_from(a, b, i) ==> !listing_precedes_from(b, a, i),
        listing_precedes_from(a, b, i) && listing_precedes_from(b, c, i) ==> listing_precedes_from(a, c, i),
    decreases a.len() - i,
{
    if i < a.len() {
        lemma_listing_from_order(a, b, c, i + 1);
        if i < b.len() {
            lemma_precedes_order(a[i as int], b[i as int], a[i as int]);
            if i < c.len() {
                lemma_precedes_order(a[i as int], b[i as int], c[i as int]);
                lemma_precedes_order(b[i as int], c[i as int], a[i as int]);
                lemma_precedes_order(a[i as int], c[i as int], b[i as int]);
            }
        }
    }
}

proof fn lemma_listing_from_total(a: Seq<Seq<char>>, b: Seq<Seq<char>>, i: nat)
    requires
        i <= a.len(),
        i <= b.len(),
        a.subrange(i as int, a.len() as int) != b.subrange(i as int, b.len() as int),
    ensures
        listing_precedes_from(a, b, i) || listing_precedes_from(b, a, i),
    decreases a.len() - i,
{
    if i < a.len() && i < b.len() {
        if a[i as int] == b[i as int] {
            let ra = a.subrange((i + 1) as int, a.len() as int);
            let rb = b.subrange((i + 1) as int, b.len() as int);
            if ra == rb {
                let sa = a.subrange(i as int, a.len() as int);
                let sb = b.subrange(i as int, b.len() as int);
                assert(sa.len() == ra.len() + 1);
                assert(sb.len() == rb.len() + 1);
                assert forall|k: int| 0 <= k < sa.len() implies sa[k] == sb[k] by {
                    if k > 0 {
                        assert(sa[k] == ra[k - 1]);
                        assert(sb[k] == rb[k - 1]);
                    }
                }
                assert(sa =~= sb);
            } else {
                lemma_listing_from_total(a, b, i + 1);
            }
        } else {
            lemma_precedes_order(a[i as int], b[i as int], a[i as int]);
        }
    } else if i >= a.len() && i >= b.len() {
        assert(a.subrange(i as int, a.len() as int) =~= b.subrange(i as int, b.len() as int));
    }
}

/// The canonical order of sets of identifiers is a strict total order on their listings.
pub proof fn lemma_listing_order(a: Seq<Seq<char>>, b: Seq<Seq<char>>, c: Seq<Seq<char>>)
    ensures
        !listing_precedes(a, a),
        listing_precedes(a, b) ==> !listing_precedes(b, a),
        a != b ==> listing_precedes(a, b) || listing_precedes(b, a),
        listing_precedes(a, b) && listing_precedes(b, c) ==> listing_precedes(a, c),
{
    lemma_listing_from_order(a, b, c, 0);
    if a != b {
        assert(a.subrange(0, a.len() as int) =~= a);
        assert(b.subrange(0, b.len() as int) =~= b);
        lemma_listing_from_total(a, b, 0);
    }
}

impl NameSet {
    /// Whether this set comes strictly before `other` in the canonical order of sets.
    pub fn precedes_set(&self, other: &NameSet) -> (before: bool)
        ensures
            before == listing_precedes(self.listing(), other.listing()),
    {
        let a = self.members();
        let b = other.members();
        let mut i: usize = 0;
        while i < a.len() && i < b.len()
            invariant
                spelled(a@) == self.listing(),
                spelled(b@) == other.listing(),
                i <= a@.len(),
                i <= b@.len(),
                listing_precedes(self.listing(), other.listing())
                    == listing_precedes_from(self.listing(), other.listing(), i as nat),
            decreases a@.len() - i,
        {
            proof {
                assert(self.listing()[i as int] == a@[i as int]@);
                assert(other.listing()[i as int] == b@[i as int]@);
            }
            if !a[i].same(&b[i]) {
                return a[i].precedes(&b[i]);
            }
            i = i + 1;
        }
        i >= a.len() && i < b.len()
    }

    /// Whether this set and `other` hold the same identifiers.
    pub fn same_set(&self, other: &NameSet) -> (same: bool)
        ensures
            same == (self.contents() == other.contents()),
            same == (self.listing() == other.listing()),
    {
        let a = self.members();
        let b = other.members();
        proof {
            if self.contents() == other.contents() {
                lemma_ascending_unique(self.listing(), other.listing());
            }
            assert(a@.len() == self.listing().len());
            assert(b@.len() == other.listing().len());
        }
        if a.len() != b.len() {
            return false;
        }
        let mut i: usize = 0;
        while i < a.len()
            invariant
                spelled(a@) == self.listing(),
                spelled(b@) == other.listing(),
                a@.len() == b@.len(),
                i <= a@.len(),
                self.contents() == other.contents() ==> self.listing() == other.listing(),
                forall|k: int| 0 <= k < i ==> self.listing()[k] == other.listing()[k],
            decreases a@.len() - i,
        {
            proof {
                assert(self.listing()[i as int] == a@[i as int]@);
                assert(other.listing()[i as int] == b@[i as int]@);
            }
            if !a[i].same(&b[i]) {
                return false;
            }
            i = i + 1;
        }
        proof {
            assert(self.listing() =~= other.listing());
        }
        true
    }
}

/// The sets a sequence of listings spells.
pub open spec fn sets_of(listings: Seq<Seq<Seq<char>>>) -> Set<Set<Seq<char>>> {
    listings.map_values(|l: Seq<Seq<char>>| l.to_set()).to_set()
}

/// A finite family of finite sets of identifiers, held in the canonical order of sets.
#[derive(Debug, PartialEq, Eq)]
pub struct NameFamily {
    members: Vec<NameSet>,
}

impl Clone for NameFamily {
    fn clone(&self) -> (copy: NameFamily)
        ensures
            copy.listings() == self.listings(),
    {
        proof { use_type_invariant(self); }
        let mut members: Vec<NameSet> = Vec::new();
        let mut i: usize = 0;
        while i < self.members.len()
            invariant
                i <= self.members@.len(),
                members@.len() == i,
                forall|q: int| 0 <= q < i ==> (#[trigger] members@[q]).listing() == self.members@[q].listing(),
                forall|a: int, b: int| 0 <= a < b < self.members@.len()
                    ==> listing_precedes(#[trigger] self.members@[a].listing(), #[trigger] self.members@[b].listing()),
                forall|q: int| 0 <= q < self.members@.len() ==> strictly_ascending(#[trigger] self.members@[q].listing()),
            decreases self.members@.len() - i,
        {
            members.push(self.members[i].clone());
            i = i + 1;
        }
        let copy = NameFamily { members };
        proof {
            assert(copy.listings() =~= self.listings());
        }
        copy
    }
}

impl NameFamily {
    #[verifier::type_invariant]
    spec fn ordered(self) -> bool {
        &&& forall|i: int, j: int| 0 <= i < j < self.members@.len()
            ==> listing_precedes(#[trigger] self.members@[i].listing(), #[trigger] self.members@[j].listing())
        &&& forall|i: int| 0 <= i < self.members@.len() ==> strictly_ascending(#[trigger] self.members@[i].listing())
    }

    /// The members' canonical listings, in canonical order.
    pub closed spec fn listings(&self) -> Seq<Seq<Seq<char>>> {
        self.members@.map_values(|m: NameSet| m.listing())
    }

    /// The members, as sets.
    pub open spec fn sets(&self) -> Set<Set<Seq<char>>> {
        sets_of(self.listings())
    }

    /// The empty family.
    pub fn new() -> (family: NameFamily)
        ensures
            family.listings() == Seq::<Seq<Seq<char>>>::empty(),
            family.sets() == Set::<Set<Seq<char>>>::empty(),
    {
        let family = NameFamily { members: Vec::new() };
        assert(family.listings() =~= Seq::<Seq<Seq<char>>>::empty());
        assert(family.sets() =~= Set::<Set<Seq<char>>>::empty());
        family
    }

    /// How many members there are.
    pub fn len(&self) -> (count: usize)
        ensures
            count == self.listings().len(),
    {
        self.members.len()
    }

    /// The members, in canonical order; each listed canonically.
    pub fn members(&self) -> (members: &[NameSet])
        ensures
            members@.map_values(|m: NameSet| m.listing()) == self.listings(),
            forall|i: int, j: int| 0 <= i < j < self.listings().len()
                ==> listing_precedes(#[trigger] self.listings()[i], #[trigger] self.listings()[j]),
            forall|i: int| 0 <= i < self.listings().len() ==> strictly_ascending(#[trigger] self.listings()[i]),
    {
        proof {
            use_type_invariant(self);
            assert forall|i: int, j: int| 0 <= i < j < self.listings().len()
                implies listing_precedes(#[trigger] self.listings()[i], #[trigger] self.listings()[j]) by {
                assert(listing_precedes(self.members@[i].listing(), self.members@[j].listing()));
            }
            assert forall|i: int| 0 <= i < self.listings().len() implies strictly_ascending(#[trigger] self.listings()[i]) by {
                assert(strictly_ascending(self.members@[i].listing()));
            }
        }
        self.members.as_slice()
    }

    /// Add `set`, keeping canonical order. Returns whether it was absent before.
    pub fn insert(&mut self, set: NameSet) -> (added: bool)
        ensures
            final(self).sets() == old(self).sets().insert(set.contents()),
            added == !old(self).sets().contains(set.contents()),
    {
        let (_, added) = self.place(set);
        added
    }

    /// Add `set`, keeping canonical order. Returns where it stands and whether it was absent
    /// before.
    pub fn place(&mut self, set: NameSet) -> (placed: (usize, bool))
        ensures
            final(self).sets() == old(self).sets().insert(set.contents()),
            placed.1 == !old(self).sets().contains(set.contents()),
            placed.0 < final(self).listings().len(),
            placed.0 <= old(self).listings().len(),
            final(self).listings()[placed.0 as int] == set.listing(),
            placed.1 ==> final(self).listings() == old(self).listings().insert(placed.0 as int, set.listing()),
            !placed.1 ==> final(self).listings() == old(self).listings(),
    {
        proof { use_type_invariant(&*self); }
        let _canonical = set.members();
        let ghost old_listings = self.listings();
        let ghost x = set.listing();
        let n = self.members.len();
        let mut i: usize = 0;
        while i < n
            invariant
                n == self.members@.len(),
                old_listings == self.listings(),
                i <= n,
                x == set.listing(),
                forall|q: int| 0 <= q < i ==> listing_precedes(#[trigger] old_listings[q], x),
                forall|a: int, b: int| 0 <= a < b < n
                    ==> listing_precedes(#[trigger] self.members@[a].listing(), #[trigger] self.members@[b].listing()),
            ensures
                i <= n,
                forall|q: int| 0 <= q < i ==> listing_precedes(#[trigger] old_listings[q], x),
                i < n ==> listing_precedes(x, old_listings[i as int]) || x == old_listings[i as int],
            decreases n - i,
        {
            if !self.members[i].precedes_set(&set) {
                proof {
                    lemma_listing_order(x, old_listings[i as int], x);
                }
                break;
            }
            i = i + 1;
        }
        proof {
            assert forall|q: int| 0 <= q < old_listings.len() && q != i implies #[trigger] old_listings[q] != x by {
                lemma_listing_order(old_listings[q], x, old_listings[q]);
                if q > i {
                    assert(listing_precedes(old_listings[i as int], old_listings[q]));
                    if old_listings[i as int] != x {
                        lemma_listing_order(x, old_listings[i as int], old_listings[q]);
                    }
                    lemma_listing_order(x, old_listings[q], x);
                }
            }
        }
        if i < n && self.members[i].same_set(&set) {
            proof {
                assert(old_listings[i as int] == x);
                assert(sets_of(old_listings).contains(x.to_set())) by {
                    assert(old_listings.map_values(|l: Seq<Seq<char>>| l.to_set())[i as int] == x.to_set());
                }
                assert(sets_of(old_listings).insert(set.contents()) =~= sets_of(old_listings));
            }
            return (i, false);
        }
        proof {
            assert(sets_of(old_listings).contains(set.contents()) == false) by {
                if sets_of(old_listings).contains(set.contents()) {
                    let mapped = old_listings.map_values(|l: Seq<Seq<char>>| l.to_set());
                    let q = choose|q: int| 0 <= q < mapped.len() && mapped[q] == set.contents();
                    assert(old_listings[q].to_set() == x.to_set());
                    assert(strictly_ascending(self.members@[q].listing()));
                    lemma_ascending_unique(old_listings[q], x);
                }
            }
        }
        let mut members = Vec::new();
        std::mem::swap(&mut members, &mut self.members);
        let ghost before = members@;
        members.insert(i, set);
        proof {
            let now = members@.map_values(|m: NameSet| m.listing());
            assert(now =~= old_listings.insert(i as int, x));
            assert forall|a: int, b: int| 0 <= a < b < members@.len()
                implies listing_precedes(#[trigger] members@[a].listing(), #[trigger] members@[b].listing()) by {
                assert(now[a] == members@[a].listing());
                assert(now[b] == members@[b].listing());
                if b < i {
                    assert(listing_precedes(before[a].listing(), before[b].listing()));
                } else if b == i {
                } else if a < i {
                    lemma_listing_order(old_listings[a], x, old_listings[b - 1]);
                    if b - 1 > i {
                        assert(listing_precedes(old_listings[i as int], old_listings[b - 1]));
                        assert(listing_precedes(x, old_listings[i as int]));
                        lemma_listing_order(x, old_listings[i as int], old_listings[b - 1]);
                    } else {
                        assert(listing_precedes(x, old_listings[i as int]));
                    }
                } else if a == i {
                    assert(listing_precedes(x, old_listings[i as int]));
                    if b - 1 > i {
                        assert(listing_precedes(old_listings[i as int], old_listings[b - 1]));
                        lemma_listing_order(x, old_listings[i as int], old_listings[b - 1]);
                    }
                } else {
                    assert(listing_precedes(before[a - 1].listing(), before[b - 1].listing()));
                }
            }
            assert forall|q: int| 0 <= q < members@.len() implies strictly_ascending(#[trigger] members@[q].listing()) by {
                if q < i {
                    assert(members@[q] == before[q]);
                } else if q > i {
                    assert(members@[q] == before[q - 1]);
                }
            }
            let mapped_old = old_listings.map_values(|l: Seq<Seq<char>>| l.to_set());
            let mapped_new = now.map_values(|l: Seq<Seq<char>>| l.to_set());
            assert(mapped_new =~= mapped_old.insert(i as int, x.to_set()));
            assert(sets_of(now) =~= sets_of(old_listings).insert(set.contents())) by {
                assert forall|y: Set<Seq<char>>| mapped_new.to_set().contains(y) <==> mapped_old.to_set().insert(x.to_set()).contains(y) by {
                    if mapped_new.contains(y) {
                        let k = choose|k: int| 0 <= k < mapped_new.len() && mapped_new[k] == y;
                        if k < i {
                            assert(mapped_old[k] == y);
                        } else if k > i {
                            assert(mapped_old[k - 1] == y);
                        }
                    }
                    if mapped_old.contains(y) {
                        let k = choose|k: int| 0 <= k < mapped_old.len() && mapped_old[k] == y;
                        if k < i {
                            assert(mapped_new[k] == y);
                        } else {
                            assert(mapped_new[k + 1] == y);
                        }
                    }
                    if y == x.to_set() {
                        assert(mapped_new[i as int] == y);
                    }
                }
            }
        }
        self.members = members;
        proof {
            assert(self.listings() =~= old_listings.insert(i as int, x));
        }
        (i, true)
    }
}


/// The map parallel listings of keys and values spell.
pub open spec fn keyed<V>(names: Seq<Seq<char>>, values: Seq<V>) -> Map<Seq<char>, V> {
    Map::new(|k: Seq<char>| names.contains(k), |k: Seq<char>| values[names.index_of(k)])
}

/// In a listing without repeats, each key maps to the value beside it.
pub proof fn lemma_keyed_at<V>(names: Seq<Seq<char>>, values: Seq<V>, i: int)
    requires
        names.no_duplicates(),
        0 <= i < names.len(),
    ensures
        keyed(names, values).dom().contains(names[i]),
        keyed(names, values)[names[i]] == values[i],
{
    assert(names.contains(names[i]));
    let j = names.index_of(names[i]);
    assert(0 <= j < names.len() && names[j] == names[i]);
}

/// A finite map from identifiers, held in canonical order of its keys.
#[derive(Debug, PartialEq, Eq)]
pub struct NameMap<V> {
    names: Vec<Name>,
    values: Vec<V>,
}

impl<V> View for NameMap<V> {
    type V = Map<Seq<char>, V>;

    closed spec fn view(&self) -> Map<Seq<char>, V> {
        keyed(spelled(self.names@), self.values@)
    }
}

impl<V> NameMap<V> {
    #[verifier::type_invariant]
    spec fn canonical(self) -> bool {
        &&& self.names@.len() == self.values@.len()
        &&& strictly_ascending(spelled(self.names@))
    }

    /// The keys, in canonical order.
    pub closed spec fn key_listing(&self) -> Seq<Seq<char>> {
        spelled(self.names@)
    }

    fn facts(&self)
        ensures
            strictly_ascending(self.key_listing()),
            self.key_listing().no_duplicates(),
            self@.dom() == self.key_listing().to_set(),
            self.names@.len() == self.values@.len(),
            forall|i: int| 0 <= i < self.key_listing().len() ==> self@[#[trigger] self.key_listing()[i]] == self.values@[i],
    {
        proof {
            use_type_invariant(self);
            lemma_ascending_no_duplicates(self.key_listing());
            assert(self@.dom() =~= self.key_listing().to_set());
            assert forall|i: int| 0 <= i < self.key_listing().len() implies self@[#[trigger] self.key_listing()[i]] == self.values@[i] by {
                lemma_keyed_at(self.key_listing(), self.values@, i);
            }
        }
    }

    /// The empty map.
    pub fn new() -> (map: NameMap<V>)
        ensures
            map@ == Map::<Seq<char>, V>::empty(),
    {
        let map = NameMap { names: Vec::new(), values: Vec::new() };
        proof { assert(map@ =~= Map::<Seq<char>, V>::empty()); }
        map
    }

    /// The value at `key`, where there is one.
    pub fn get(&self, key: &Name) -> (value: Option<&V>)
        ensures
            value is Some <==> self@.dom().contains(key@),
            value matches Some(v) ==> *v == self@[key@],
    {
        self.facts();
        match locate(self.names.as_slice(), key) {
            Ok(p) => {
                proof { assert(self.key_listing()[p as int] == key@); }
                Some(&self.values[p])
            },
            Err(_) => {
                proof {
                    assert forall|q: int| 0 <= q < self.key_listing().len() implies self.key_listing()[q] != key@ by {
                        assert(self.key_listing()[q] == self.names@[q]@);
                    }
                }
                None
            },
        }
    }

    /// The keys, in canonical order.
    pub fn keys(&self) -> (keys: &[Name])
        ensures
            spelled(keys@) == self.key_listing(),
            strictly_ascending(self.key_listing()),
            self.key_listing().to_set() == self@.dom(),
            self.key_listing().len() == self@.dom().len(),
    {
        self.facts();
        proof { self.key_listing().unique_seq_to_set(); }
        self.names.as_slice()
    }

    /// How many keys there are.
    pub fn len(&self) -> (count: usize)
        ensures
            count == self@.dom().len(),
    {
        self.facts();
        proof { self.key_listing().unique_seq_to_set(); }
        self.names.len()
    }

    /// Bind `key` to `value` where `key` is not yet bound; leave the map as it is, and
    /// answer `false`, where it is.
    pub fn insert_new(&mut self, key: Name, value: V) -> (added: bool)
        ensures
            added == !old(self)@.dom().contains(key@),
            added ==> final(self)@ == old(self)@.insert(key@, value),
            !added ==> final(self)@ == old(self)@,
    {
        self.facts();
        let ghost before = self@;
        let ghost old_names = self.key_listing();
        let ghost old_values = self.values@;
        match locate(self.names.as_slice(), &key) {
            Ok(p) => {
                proof {
                    assert(old_names[p as int] == key@);
                    assert(old_names.to_set().contains(key@));
                }
                false
            },
            Err(p) => {
                proof {
                    lemma_insert_ascending(old_names, p as int, key@);
                    assert(!old_names.contains(key@));
                }
                let mut whole = NameMap::new();
                std::mem::swap(&mut whole, self);
                let NameMap { names: mut names, values: mut values } = whole;
                let ghost id = key@;
                names.insert(p, key);
                values.insert(p, value);
                proof {
                    let now = spelled(names@);
                    assert(now =~= old_names.insert(p as int, id));
                    lemma_ascending_no_duplicates(now);
                    assert(keyed(now, values@) =~= before.insert(id, value)) by {
                        assert forall|x: Seq<char>| keyed(now, values@).dom().contains(x)
                            <==> before.insert(id, value).dom().contains(x) by {
                            assert(now.to_set() == old_names.to_set().insert(id));
                            if now.contains(x) {
                                assert(now.to_set().contains(x));
                            }
                            if old_names.contains(x) {
                                assert(old_names.to_set().contains(x));
                                assert(now.to_set().contains(x));
                            }
                            if x == id {
                                assert(now[p as int] == id);
                            }
                        }
                        assert forall|x: Seq<char>| #[trigger] keyed(now, values@).dom().contains(x)
                            implies keyed(now, values@)[x] == before.insert(id, value)[x] by {
                            let q = now.index_of(x);
                            lemma_keyed_at(now, values@, q);
                            if q < p {
                                lemma_keyed_at(old_names, old_values, q);
                            } else if q > p {
                                lemma_keyed_at(old_names, old_values, q - 1);
                            }
                        }
                    }
                }
                *self = NameMap { names, values };
                true
            },
        }
    }
}

} // verus!
