//! Byte-budget packing arithmetic: the model the prefix search runs over, and the least
//! self-consistent measurement of a document that records its own size.

use vstd::prelude::*;

use crate::accounting::{
    chosen, chosen_upto, crowds_cell, entries_of, lemma_decide_at, lemma_dispositions_partition, lemma_names_unique,
    lemma_nothing_pending, lemma_sorted_input_kept, names_ascending, occurrences, omitted_cells, omitted_upto,
    repeats_earlier, Accounting, AccountingError, CandidateSet, Decision, Entry, Omitted,
};
use crate::expansion::{query_json, ExpansionQuery};
use crate::name::{precedes, Name};
use crate::omission::{
    cell_total, covers, lemma_cell_total_concat, lemma_cell_total_grows, lemma_cell_total_partition,
    lemma_overflow_somewhere, lemma_tally_sum_concat, lemma_totals_agree, overflows_at, partitions, ascending, tally_sum, Cell, Manifest,
    ManifestError, OmissionReason, OmissionRecord, QueryView, record_json,
};
use crate::selection::SelectionKind;
use vstd::utf8::encode_utf8;

verus! {

/// How many members the closed selection vocabulary has: this module's array width.
pub const KINDS: usize = 11;

/// How many rounds a self-measurement is iterated before it is declared unsettled.
pub const MEASUREMENT_ROUNDS: usize = 24;

/// How many decimal digits a count is written with; `0` is written `0`, so one.
pub open spec fn digit_count(value: nat) -> nat
    decreases value,
{
    if value < 10 {
        1
    } else {
        1 + digit_count(value / 10)
    }
}

/// More never has fewer digits.
pub proof fn lemma_digit_count_monotone(a: nat, b: nat)
    requires
        a <= b,
    ensures
        digit_count(a) <= digit_count(b),
    decreases b,
{
    if a >= 10 {
        lemma_digit_count_monotone(a / 10, b / 10);
    }
}

/// A 64-bit count has at most twenty digits.
pub proof fn lemma_digit_count_bounded(value: nat)
    requires
        value <= u64::MAX,
    ensures
        1 <= digit_count(value) <= 20,
{
    assert(pow10(20) == 100000000000000000000nat) by {
        reveal_with_fuel(pow10, 21);
    }
    lemma_digit_count_below(value, 20);
}

proof fn lemma_digit_count_below(value: nat, k: nat)
    requires
        k >= 1,
        value < pow10(k),
    ensures
        1 <= digit_count(value) <= k,
    decreases k,
{
    if value >= 10 {
        if k == 1 {
            assert(pow10(1) == 10) by {
                reveal_with_fuel(pow10, 2);
            }
        } else {
            assert(pow10(k) == 10 * pow10((k - 1) as nat));
            assert(value / 10 < pow10((k - 1) as nat));
            lemma_digit_count_below(value / 10, (k - 1) as nat);
        }
    }
}

/// Ten to the `k`.
pub open spec fn pow10(k: nat) -> nat
    decreases k,
{
    if k == 0 {
        1
    } else {
        10 * pow10((k - 1) as nat)
    }
}

/// A count's digit count is the length of its decimal spelling, the spelling canonical JSON
/// writes it in.
pub proof fn law_digit_count_is_the_spelling_length(value: nat)
    ensures
        digit_count(value) == crate::json::decimal(value).len(),
    decreases value,
{
    if value >= 10 {
        law_digit_count_is_the_spelling_length(value / 10);
    }
}

/// How many decimal digits a count is written with.
pub fn digits(value: u64) -> (count: u64)
    ensures
        count == digit_count(value as nat),
{
    let mut count: u64 = 1;
    let mut remaining = value;
    while remaining >= 10
        invariant
            count + digit_count(remaining as nat) == digit_count(value as nat) + 1,
            count <= 20,
            remaining <= value,
        decreases remaining,
    {
        proof {
            lemma_digit_count_bounded(value as nat);
            assert(digit_count(remaining as nat) == 1 + digit_count((remaining / 10) as nat));
        }
        remaining = remaining / 10;
        count = count + 1;
    }
    count
}

/// The canonical length of a JSON array from its elements' total length and their number.
pub open spec fn array_length(total: nat, count: nat) -> nat {
    if count == 0 {
        2
    } else {
        total + count + 1
    }
}

/// The canonical length of a JSON array from its elements' total length and their number:
/// `[]` when empty, else the brackets, the elements and one separator between each pair.
pub fn array_len(elements: (u64, u64)) -> (length: u64)
    requires
        elements.0 + elements.1 + 1 <= u64::MAX,
    ensures
        length == array_length(elements.0 as nat, elements.1 as nat),
{
    let (total, count) = elements;
    if count == 0 {
        2
    } else {
        total + count + 1
    }
}

/// Whether `measured` is a truthful measurement of a document whose other bytes number `base`.
pub open spec fn self_consistent(base: nat, measured: nat) -> bool {
    measured == base + digit_count(measured)
}

/// The least self-consistent measurement of a document whose other bytes number `base`.
pub open spec fn least_measurement(base: nat) -> nat {
    choose|m: nat| self_consistent(base, m) && forall|other: nat| self_consistent(base, other) ==> m <= other
}

/// Counting one further never adds more than one digit.
proof fn lemma_digit_count_step(n: nat)
    ensures
        digit_count(n) <= digit_count(n + 1) <= digit_count(n) + 1,
    decreases n,
{
    lemma_digit_count_monotone(n, n + 1);
    if n + 1 >= 10 {
        if n < 10 {
            assert(n == 9);
            assert(digit_count(1) == 1);
        } else {
            let q = n / 10;
            let r = (n + 1) / 10;
            assert(r == q || r == q + 1);
            if r == q + 1 {
                lemma_digit_count_step(q);
            }
        }
    }
}

/// A measurement's own digits never outgrow it: what a measurement leaves for the rest of the
/// document never shrinks as the measurement grows.
proof fn lemma_gap_monotone(m: nat, n: nat)
    requires
        m <= n,
    ensures
        m - digit_count(m) <= n - digit_count(n),
    decreases n - m,
{
    if m < n {
        lemma_gap_monotone(m, (n - 1) as nat);
        lemma_digit_count_step((n - 1) as nat);
    }
}

/// A count's digits number at most half of it, plus one.
proof fn lemma_digit_count_small(n: nat)
    ensures
        digit_count(n) <= n / 2 + 1,
    decreases n,
{
    if n >= 10 {
        lemma_digit_count_small(n / 10);
    }
}

/// Somewhere at or below `top` lies the least measurement whose gap reaches `base`, when the
/// gap at `top` does.
proof fn lemma_first_gap(base: nat, top: nat) -> (n: nat)
    requires
        top - digit_count(top) >= base,
    ensures
        n <= top,
        n - digit_count(n) == base,
        forall|m: nat| m < n ==> m - digit_count(m) < base,
    decreases top,
{
    if top == 0 {
        assert(digit_count(0) == 1);
        0
    } else if (top - 1) as nat - digit_count((top - 1) as nat) >= base {
        lemma_first_gap(base, (top - 1) as nat)
    } else {
        lemma_digit_count_step((top - 1) as nat);
        assert forall|m: nat| m < top implies m - digit_count(m) < base by {
            lemma_gap_monotone(m, (top - 1) as nat);
        }
        top
    }
}

/// Every document has a least self-consistent measurement.
pub proof fn lemma_least_measurement_exists(base: nat)
    ensures
        self_consistent(base, least_measurement(base)),
        forall|other: nat| self_consistent(base, other) ==> least_measurement(base) <= other,
{
    let top = 2 * base + 2;
    lemma_digit_count_small(top);
    let n = lemma_first_gap(base, top);
    assert(self_consistent(base, n));
    assert forall|other: nat| self_consistent(base, other) implies n <= other by {
        if other < n {
            assert(other - digit_count(other) < base);
        }
    }
    lemma_least_measurement(base, n);
}

/// More bytes elsewhere in a document always make it measure more.
pub proof fn law_measurement_grows_with_the_document(a: nat, b: nat)
    requires
        a < b,
    ensures
        least_measurement(a) < least_measurement(b),
{
    lemma_least_measurement_exists(a);
    lemma_least_measurement_exists(b);
    if least_measurement(b) <= least_measurement(a) {
        lemma_gap_monotone(least_measurement(b), least_measurement(a));
    }
}

/// A least self-consistent measurement is the one [`least_measurement`] names.
pub proof fn lemma_least_measurement(base: nat, m: nat)
    requires
        self_consistent(base, m),
        forall|other: nat| self_consistent(base, other) ==> m <= other,
    ensures
        least_measurement(base) == m,
{
    let l = least_measurement(base);
    assert(self_consistent(base, l) && forall|other: nat| self_consistent(base, other) ==> l <= other);
}

/// The least self-consistent measurement of a document whose other bytes number `base`:
/// iterated from zero until the number stops moving.
pub fn settle(base: u64) -> (measured: u64)
    requires
        base <= u64::MAX - 20,
    ensures
        self_consistent(base as nat, measured as nat),
        forall|other: nat| self_consistent(base as nat, other) ==> measured <= other,
        measured == least_measurement(base as nat),
{
    let mut measured: u64 = 0;
    let ghost mut prev: nat = 0;
    let mut round: usize = 0;
    while round < MEASUREMENT_ROUNDS
        invariant
            base <= u64::MAX - 20,
            round <= MEASUREMENT_ROUNDS,
            round == 0 ==> measured == 0,
            prev <= u64::MAX,
            round >= 1 ==> measured == base + digit_count(prev) && prev <= measured
                && digit_count(prev) >= round,
            forall|other: nat| self_consistent(base as nat, other) ==> measured <= other,
        decreases MEASUREMENT_ROUNDS - round,
    {
        proof {
            lemma_digit_count_bounded(measured as nat);
            lemma_digit_count_bounded(prev);
        }
        let next = base + digits(measured);
        if next == measured {
            proof { lemma_least_measurement(base as nat, measured as nat); }
            return measured;
        }
        proof {
            assert forall|other: nat| self_consistent(base as nat, other) implies next <= other by {
                lemma_digit_count_monotone(measured as nat, other);
            }
            if round >= 1 {
                lemma_digit_count_monotone(prev, measured as nat);
            }
            prev = measured as nat;
        }
        measured = next;
        round = round + 1;
    }
    proof {
        lemma_digit_count_bounded(prev);
    }
    measured
}

/// Whether the parts a model measures over these inputs all stay under [`MODEL_BOUND`].
pub open spec fn model_fits(rest: u64, item_lengths: Seq<u64>, residual: Seq<OmissionRecord>, shortfall: QueryView) -> bool {
    let split = residual_split(residual, shortfall);
    &&& rest <= MODEL_BOUND
    &&& item_lengths.len() + 1 <= MODEL_BOUND
    &&& running_sum(item_lengths, item_lengths.len() as int) <= MODEL_BOUND
    &&& split.0 <= MODEL_BOUND && split.1 <= MODEL_BOUND
    &&& split.2 <= MODEL_BOUND && split.3 <= MODEL_BOUND
    &&& forall|k: int| 0 <= k < KINDS ==> split.4[k] <= MODEL_BOUND
    &&& forall|k: int| 0 <= k < KINDS ==> shortfall_base(#[trigger] SelectionKind::ALL@[k], shortfall) <= MODEL_BOUND
    &&& query_bytes(shortfall) <= MODEL_BOUND
}

/// The bound every quantity in a [`Model`] stays under: one thirty-second of the widest exact
/// count. A modelled length adds at most twenty-nine such quantities and a few hundred bytes of
/// framing, so under this bound no sum the model forms leaves 64 bits; a part beyond it is one
/// whose sums would overflow the very arithmetic the measurement is made in.
pub const MODEL_BOUND: u64 = 0x07ff_ffff_ffff_ffff;

/// Whether measured parts fit a model: the prefix sums are not empty, and no part exceeds
/// [`MODEL_BOUND`].
pub open spec fn parts_fit(
    rest: u64,
    prefix: Seq<u64>,
    plain_records: (u64, u64),
    plain_queries: (u64, u64),
    resident: Seq<u64>,
    record_base: Seq<u64>,
    query_len: u64,
) -> bool {
    &&& rest <= MODEL_BOUND
    &&& 1 <= prefix.len() <= MODEL_BOUND
    &&& forall|i: int| 0 <= i < prefix.len() ==> prefix[i] <= MODEL_BOUND
    &&& plain_records.0 <= MODEL_BOUND && plain_records.1 <= MODEL_BOUND
    &&& plain_queries.0 <= MODEL_BOUND && plain_queries.1 <= MODEL_BOUND
    &&& forall|k: int| 0 <= k < KINDS ==> resident[k] <= MODEL_BOUND
    &&& forall|k: int| 0 <= k < KINDS ==> record_base[k] <= MODEL_BOUND
    &&& query_len <= MODEL_BOUND
}

/// How many members of `kinds` sit at rank `rank` of the closed vocabulary.
pub open spec fn count_rank(kinds: Seq<SelectionKind>, rank: int) -> nat
    decreases kinds.len(),
{
    if kinds.len() == 0 {
        0
    } else {
        count_rank(kinds.drop_last(), rank) + if kinds.last().rank() == rank { 1nat } else { 0nat }
    }
}

/// A kind never has more members in a sequence than the sequence has.
pub proof fn lemma_count_rank_bounded(kinds: Seq<SelectionKind>, rank: int)
    ensures
        count_rank(kinds, rank) <= kinds.len(),
    decreases kinds.len(),
{
    if kinds.len() > 0 {
        lemma_count_rank_bounded(kinds.drop_last(), rank);
    }
}

/// The per-kind counts of the candidates a child keeping the first `kept` drops.
pub open spec fn dropped_after(ordered: Seq<SelectionKind>, kept: int) -> Seq<nat> {
    Seq::new(KINDS as nat, |rank: int| count_rank(ordered.subrange(kept, ordered.len() as int), rank))
}

/// The byte length of the canonical JSON text of a record of `count` items in `cell`.
pub open spec fn record_bytes(cell: Cell, count: nat) -> nat {
    encode_utf8(record_json(cell, count)).len()
}

/// The byte length of the canonical JSON text of a query.
pub open spec fn query_bytes(query: QueryView) -> nat {
    encode_utf8(query_json(query.1, query.0)).len()
}

/// Whether `cell` is the shortfall cell of its kind: the `budget` cell the shortfall query
/// retrieves.
pub open spec fn is_shortfall_cell(cell: Cell, shortfall: QueryView) -> bool {
    cell.1 == OmissionReason::Budget && cell.2 == Some(shortfall)
}

/// What residual records contribute to a model: the plain records' total length and number,
/// their queries' total length and number, and each kind's count resident in its shortfall
/// cell. A plain record is one outside every shortfall cell.
pub open spec fn residual_split(records: Seq<OmissionRecord>, shortfall: QueryView) -> (nat, nat, nat, nat, Seq<nat>)
    decreases records.len(),
{
    if records.len() == 0 {
        (0, 0, 0, 0, Seq::new(KINDS as nat, |k: int| 0nat))
    } else {
        let before = residual_split(records.drop_last(), shortfall);
        let last = records.last();
        if is_shortfall_cell(last.cell(), shortfall) {
            let k = last.cell().0.rank();
            (before.0, before.1, before.2, before.3, before.4.update(k, before.4[k] + last.tally()))
        } else {
            (
                before.0 + record_bytes(last.cell(), last.tally()),
                before.1 + 1,
                before.2 + match last.cell().2 {
                    Some(query) => query_bytes(query),
                    None => 0,
                },
                before.3 + if last.cell().2 is Some {
                    1nat
                } else {
                    0nat
                },
                before.4,
            )
        }
    }
}

/// A residual record sits in its kind's shortfall cell exactly when it is a `budget` record
/// the shortfall query retrieves: such a record adds its count to its kind's resident count
/// and nothing else, and every other record, whatever its reason or query, adds its own text,
/// and its own query's text when it has one, and leaves every resident count alone.
pub proof fn law_only_budget_records_of_the_shortfall_query_are_resident(
    records: Seq<OmissionRecord>,
    record: OmissionRecord,
    shortfall: QueryView,
)
    ensures
        ({
            let before = residual_split(records, shortfall);
            let after = residual_split(records.push(record), shortfall);
            let cell = record.cell();
            if cell.1 == OmissionReason::Budget && cell.2 == Some(shortfall) {
                &&& after.0 == before.0 && after.1 == before.1
                &&& after.2 == before.2 && after.3 == before.3
                &&& after.4 == before.4.update(cell.0.rank(), before.4[cell.0.rank()] + record.tally())
            } else {
                &&& after.0 == before.0 + record_bytes(cell, record.tally())
                &&& after.1 == before.1 + 1
                &&& after.2 == before.2 + match cell.2 {
                    Some(query) => query_bytes(query),
                    None => 0,
                }
                &&& after.3 == before.3 + if cell.2 is Some { 1nat } else { 0nat }
                &&& after.4 == before.4
            }
        }),
{
    assert(records.push(record).drop_last() =~= records);
}

/// Whether every total the residual records contribute fits a 64-bit count.
pub open spec fn residual_fits(records: Seq<OmissionRecord>, shortfall: QueryView) -> bool {
    let split = residual_split(records, shortfall);
    &&& split.0 <= u64::MAX
    &&& split.2 <= u64::MAX
    &&& forall|k: int| 0 <= k < KINDS ==> split.4[k] <= u64::MAX
}

/// A prefix's contribution never exceeds a longer prefix's.
proof fn lemma_split_grows(records: Seq<OmissionRecord>, shortfall: QueryView, i: int, j: int)
    requires
        0 <= i <= j <= records.len(),
    ensures
        residual_split(records.subrange(0, i), shortfall).0 <= residual_split(records.subrange(0, j), shortfall).0,
        residual_split(records.subrange(0, i), shortfall).1 <= j,
        residual_split(records.subrange(0, i), shortfall).2 <= residual_split(records.subrange(0, j), shortfall).2,
        residual_split(records.subrange(0, i), shortfall).3 <= j,
        residual_split(records.subrange(0, i), shortfall).4.len() == KINDS,
        forall|k: int| 0 <= k < KINDS ==> residual_split(records.subrange(0, i), shortfall).4[k]
            <= #[trigger] residual_split(records.subrange(0, j), shortfall).4[k],
    decreases j,
{
    if j > 0 {
        let prev = records.subrange(0, j - 1);
        let now = records.subrange(0, j);
        assert(now.drop_last() =~= prev);
        if i < j {
            lemma_split_grows(records, shortfall, i, j - 1);
            lemma_split_counts(prev, shortfall);
            let r = records[j - 1];
            SelectionKind::lemma_all_lists(r.cell().0);
            assert forall|k: int| 0 <= k < KINDS implies residual_split(prev, shortfall).4[k]
                <= #[trigger] residual_split(now, shortfall).4[k] by {}
            assert forall|k: int| 0 <= k < KINDS implies residual_split(records.subrange(0, i), shortfall).4[k]
                <= #[trigger] residual_split(now, shortfall).4[k] by {
                assert(residual_split(records.subrange(0, i), shortfall).4[k] <= residual_split(records.subrange(0, j - 1), shortfall).4[k]);
            }
        } else {
            lemma_split_grows(records, shortfall, j - 1, j - 1);
            lemma_split_counts(now, shortfall);
        }
    } else {
        assert(records.subrange(0, 0).len() == 0);
    }
}

/// A listing's plain records and queries number no more than its records.
proof fn lemma_split_counts(records: Seq<OmissionRecord>, shortfall: QueryView)
    ensures
        residual_split(records, shortfall).1 <= records.len(),
        residual_split(records, shortfall).3 <= records.len(),
        residual_split(records, shortfall).4.len() == KINDS,
    decreases records.len(),
{
    if records.len() > 0 {
        lemma_split_counts(records.drop_last(), shortfall);
        SelectionKind::lemma_all_lists(records.last().cell().0);
    }
}

/// The residual records' contribution to a model: the plain records' total length and
/// number, their queries' total length and number, and the counts resident in each kind's
/// shortfall cell.
pub fn residual_parts(residual: &Manifest, shortfall: &ExpansionQuery) -> (parts: ((u64, u64), (u64, u64), [u64; KINDS]))
    requires
        residual_fits(residual.listing(), (shortfall.relation_spec(), shortfall.anchor_spec())),
    ensures
        ({
            let split = residual_split(residual.listing(), (shortfall.relation_spec(), shortfall.anchor_spec()));
            &&& parts.0.0 == split.0
            &&& parts.0.1 == split.1
            &&& parts.1.0 == split.2
            &&& parts.1.1 == split.3
            &&& forall|k: int| 0 <= k < KINDS ==> parts.2@[k] == split.4[k]
        }),
{
    let ghost view = (shortfall.relation_spec(), shortfall.anchor_spec());
    let ghost listing = residual.listing();
    let records = residual.records();
    let n = records.len();
    let mut plain_records: (u64, u64) = (0, 0);
    let mut plain_queries: (u64, u64) = (0, 0);
    let mut resident: [u64; KINDS] = [0; KINDS];
    proof {
        assert(listing.subrange(0, 0).len() == 0);
    }
    let mut i: usize = 0;
    while i < n
        invariant
            n == listing.len(),
            records@ == listing,
            view == (shortfall.relation_spec(), shortfall.anchor_spec()),
            residual_fits(listing, view),
            i <= n,
            ({
                let split = residual_split(listing.subrange(0, i as int), view);
                &&& plain_records.0 == split.0
                &&& plain_records.1 == split.1
                &&& plain_queries.0 == split.2
                &&& plain_queries.1 == split.3
                &&& forall|k: int| 0 <= k < KINDS ==> resident@[k] == split.4[k]
            }),
        decreases n - i,
    {
        let record = &records[i];
        proof {
            lemma_split_grows(listing, view, i + 1, n as int);
            lemma_split_grows(listing, view, i as int, i + 1);
            assert(listing.subrange(0, n as int) =~= listing);
            assert(listing.subrange(0, i + 1).drop_last() =~= listing.subrange(0, i as int));
            assert(listing.subrange(0, i + 1).last() == record);
            SelectionKind::lemma_all_lists(record.cell().0);
        }
        let query = record.retrievability().query();
        let in_shortfall = record.reason() == OmissionReason::Budget && match query {
            Some(q) => q.same(shortfall),
            None => false,
        };
        if in_shortfall {
            let at = slot(record.kind());
            proof {
                assert(is_shortfall_cell(record.cell(), view));
                let split_next = residual_split(listing.subrange(0, i + 1), view);
                assert(split_next.4[at as int] == resident@[at as int] + record.tally());
                assert(split_next.4[at as int] <= residual_split(listing.subrange(0, n as int), view).4[at as int]);
            }
            resident[at] = resident[at] + record.count() as u64;
        } else {
            let text = record.to_json();
            let length = text.as_str().as_bytes().len() as u64;
            plain_records = (plain_records.0 + length, plain_records.1 + 1);
            match query {
                Some(q) => {
                    let rendered = q.to_json();
                    let query_length = rendered.as_str().as_bytes().len() as u64;
                    plain_queries = (plain_queries.0 + query_length, plain_queries.1 + 1);
                },
                None => {},
            }
        }
        i = i + 1;
    }
    proof {
        assert(listing.subrange(0, n as int) =~= listing);
    }
    (plain_records, plain_queries, resident)
}

/// What a shortfall record of `kind` measures less its count's digits.
pub open spec fn shortfall_base(kind: SelectionKind, shortfall: QueryView) -> nat {
    let bytes = record_bytes((kind, OmissionReason::Budget, Some(shortfall)), 0);
    if bytes > 0 {
        (bytes - 1) as nat
    } else {
        0
    }
}

/// Each kind's shortfall record length less its count's digits, in slot order.
pub fn shortfall_bases(shortfall: &ExpansionQuery) -> (bases: [u64; KINDS])
    ensures
        forall|k: int| 0 <= k < KINDS ==> bases@[k] == shortfall_base(
            #[trigger] SelectionKind::ALL@[k],
            (shortfall.relation_spec(), shortfall.anchor_spec()),
        ),
{
    let mut bases: [u64; KINDS] = [0; KINDS];
    let mut k: usize = 0;
    while k < KINDS
        invariant
            k <= KINDS,
            forall|j: int| 0 <= j < k ==> bases@[j] == shortfall_base(
                #[trigger] SelectionKind::ALL@[j],
                (shortfall.relation_spec(), shortfall.anchor_spec()),
            ),
        decreases KINDS - k,
    {
        let kind = SelectionKind::ALL[k];
        let record = OmissionRecord::expandable(kind, 0, OmissionReason::Budget, shortfall.clone());
        let text = record.to_json();
        let bytes = text.as_str().as_bytes().len() as u64;
        bases[k] = if bytes > 0 {
            bytes - 1
        } else {
            0
        };
        k = k + 1;
    }
    bases
}

/// The running sums of `lengths`: the first `n` added up.
pub open spec fn running_sum(lengths: Seq<u64>, n: int) -> nat
    decreases n,
{
    if n <= 0 {
        0
    } else {
        running_sum(lengths, n - 1) + lengths[n - 1] as nat
    }
}

proof fn lemma_running_sum_grows(lengths: Seq<u64>, i: int, j: int)
    requires
        0 <= i <= j,
    ensures
        running_sum(lengths, i) <= running_sum(lengths, j),
    decreases j,
{
    if i < j {
        lemma_running_sum_grows(lengths, i, j - 1);
    }
}

/// The prefix sums of the candidates' canonical lengths, starting at zero: entry `i` is what
/// the first `i` candidates measure together.
pub fn prefix_sums(lengths: &[u64]) -> (prefix: Vec<u64>)
    requires
        running_sum(lengths@, lengths@.len() as int) <= u64::MAX,
    ensures
        prefix@.len() == lengths@.len() + 1,
        forall|i: int| 0 <= i <= lengths@.len() ==> prefix@[i] == running_sum(lengths@, i),
{
    let mut prefix: Vec<u64> = Vec::new();
    let mut running: u64 = 0;
    prefix.push(running);
    let mut i: usize = 0;
    while i < lengths.len()
        invariant
            i <= lengths@.len(),
            running_sum(lengths@, lengths@.len() as int) <= u64::MAX,
            running == running_sum(lengths@, i as int),
            prefix@.len() == i + 1,
            forall|j: int| 0 <= j <= i ==> prefix@[j] == running_sum(lengths@, j),
        decreases lengths@.len() - i,
    {
        proof { lemma_running_sum_grows(lengths@, i + 1, lengths@.len() as int); }
        running = running + lengths[i];
        prefix.push(running);
        i = i + 1;
    }
    prefix
}

/// The arithmetic the prefix search runs over: the parts of a child's canonical encoding
/// that move with the prefix length, and the one constant that does not. Every part stays
/// under [`MODEL_BOUND`], the 64-bit limit of the sums the model forms.
#[derive(Debug)]
pub struct Model {
    rest: u64,
    prefix: Vec<u64>,
    plain_records: (u64, u64),
    plain_queries: (u64, u64),
    resident: [u64; KINDS],
    record_base: [u64; KINDS],
    query_len: u64,
}

/// The shortfall cells' contribution, over the first `k` kinds: the records' total length and
/// number, and the `expansions[]` entries' total length and number.
pub open spec fn shortfall_cells(
    resident: Seq<u64>,
    record_base: Seq<u64>,
    query_len: nat,
    dropped: Seq<nat>,
    k: nat,
) -> (nat, nat, nat, nat)
    decreases k,
{
    if k == 0 {
        (0, 0, 0, 0)
    } else {
        let before = shortfall_cells(resident, record_base, query_len, dropped, (k - 1) as nat);
        let count = resident[k - 1] + dropped[k - 1];
        if count == 0 {
            before
        } else {
            (
                before.0 + record_base[k - 1] as nat + digit_count(count as nat),
                before.1 + 1,
                before.2 + query_len,
                before.3 + 1,
            )
        }
    }
}

/// Two resident listings that differ only at `k`, empty in the first and occupied in the
/// second, with nothing of kind `k` dropped: the second prices one more record and one more
/// query, the record's base plus its count's digits.
proof fn lemma_resident_cell(
    a: Seq<u64>,
    b: Seq<u64>,
    record_base: Seq<u64>,
    query_len: nat,
    dropped: Seq<nat>,
    k: int,
    upto: nat,
)
    requires
        0 <= k < KINDS,
        upto <= KINDS,
        a.len() == KINDS && b.len() == KINDS && dropped.len() == KINDS,
        a[k] == 0,
        b[k] > 0,
        dropped[k] == 0,
        forall|j: int| 0 <= j < KINDS && j != k ==> a[j] == b[j],
    ensures
        ({
            let ca = shortfall_cells(a, record_base, query_len, dropped, upto);
            let cb = shortfall_cells(b, record_base, query_len, dropped, upto);
            if upto <= k {
                cb == ca
            } else {
                &&& cb.0 == ca.0 + record_base[k] as nat + digit_count(b[k] as nat)
                &&& cb.1 == ca.1 + 1
                &&& cb.2 == ca.2 + query_len
                &&& cb.3 == ca.3 + 1
            }
        }),
    decreases upto,
{
    if upto > 0 {
        lemma_resident_cell(a, b, record_base, query_len, dropped, k, (upto - 1) as nat);
    }
}

/// A kind whose residual records already sit in its shortfall cell is priced even when nothing
/// more of it is dropped: of two models that differ only in that one kind's resident count,
/// nothing in the first and something in the second, the second always measures more, for
/// every prefix and every drop that leaves that kind alone.
pub proof fn law_a_resident_shortfall_record_is_priced(a: Model, b: Model, kept: nat, dropped: Seq<nat>, k: int)
    requires
        0 <= k < KINDS,
        dropped.len() == KINDS,
        dropped[k] == 0,
        a.parts().0 == b.parts().0,
        a.parts().1 == b.parts().1,
        a.parts().2 == b.parts().2,
        a.parts().3 == b.parts().3,
        a.parts().5 == b.parts().5,
        a.parts().6 == b.parts().6,
        a.parts().4[k] == 0,
        b.parts().4[k] > 0,
        forall|j: int| 0 <= j < KINDS && j != k ==> a.parts().4[j] == b.parts().4[j],
    ensures
        a.modelled_length(kept, dropped) < b.modelled_length(kept, dropped),
{
    let pa = a.parts();
    let pb = b.parts();
    assert(pa.4.len() == KINDS && pb.4.len() == KINDS);
    lemma_resident_cell(pa.4, pb.4, pa.5, pa.6 as nat, dropped, k, KINDS as nat);
    let ca = shortfall_cells(pa.4, pa.5, pa.6 as nat, dropped, KINDS as nat);
    let cb = shortfall_cells(pb.4, pb.5, pb.6 as nat, dropped, KINDS as nat);
    assert(digit_count(pb.4[k] as nat) >= 1);
    let records_a = array_length(pa.2.0 as nat + ca.0, pa.2.1 as nat + ca.1);
    let records_b = array_length(pb.2.0 as nat + cb.0, pb.2.1 as nat + cb.1);
    let queries_a = array_length(pa.3.0 as nat + ca.2, pa.3.1 as nat + ca.3);
    let queries_b = array_length(pb.3.0 as nat + cb.2, pb.3.1 as nat + cb.3);
    assert(records_a < records_b);
    assert(queries_a <= queries_b);
    let selected: nat = if kept == 0 {
        2
    } else {
        pa.1[kept as int] as nat + kept + 1
    };
    law_measurement_grows_with_the_document(
        pa.0 as nat + selected + records_a + queries_a,
        pb.0 as nat + selected + records_b + queries_b,
    );
}

impl Model {
    #[verifier::type_invariant]
    spec fn bounded(self) -> bool {
        &&& self.rest <= MODEL_BOUND
        &&& 1 <= self.prefix@.len() <= MODEL_BOUND
        &&& forall|i: int| 0 <= i < self.prefix@.len() ==> self.prefix@[i] <= MODEL_BOUND
        &&& self.plain_records.0 <= MODEL_BOUND && self.plain_records.1 <= MODEL_BOUND
        &&& self.plain_queries.0 <= MODEL_BOUND && self.plain_queries.1 <= MODEL_BOUND
        &&& forall|k: int| 0 <= k < KINDS ==> self.resident@[k] <= MODEL_BOUND
        &&& forall|k: int| 0 <= k < KINDS ==> self.record_base@[k] <= MODEL_BOUND
        &&& self.query_len <= MODEL_BOUND
    }

    /// How many candidates the model prices.
    pub open spec fn candidates(self) -> nat {
        (self.parts().1.len() - 1) as nat
    }

    /// The canonical length a child keeping `kept` candidates and dropping `dropped` of each
    /// kind measures under this model.
    pub open spec fn modelled_length(self, kept: nat, dropped: Seq<nat>) -> nat {
        let (rest, prefix, plain_records, plain_queries, resident, record_base, query_len) = self.parts();
        let selected: nat = if kept == 0 {
            2
        } else {
            prefix[kept as int] as nat + kept + 1
        };
        let cells = shortfall_cells(resident, record_base, query_len as nat, dropped, KINDS as nat);
        least_measurement(
            rest as nat + selected
                + array_length(plain_records.0 as nat + cells.0, plain_records.1 as nat + cells.1)
                + array_length(plain_queries.0 as nat + cells.2, plain_queries.1 as nat + cells.3),
        )
    }

    /// The model's parts: the fixed length, the prefix sums, the plain records and queries, the
    /// resident counts, the record bases and the query length.
    pub closed spec fn parts(self) -> (u64, Seq<u64>, (u64, u64), (u64, u64), Seq<u64>, Seq<u64>, u64) {
        (self.rest, self.prefix@, self.plain_records, self.plain_queries, self.resident@, self.record_base@, self.query_len)
    }

    /// Assemble a model from its measured parts: the document's fixed length, the prefix sums
    /// of the candidates' canonical lengths, the residual records and queries that share no
    /// cell with a shortfall record, the residual counts resident in each kind's shortfall cell,
    /// each kind's shortfall record length less its count's digits, and one query's length.
    /// `None` when the prefix sums are empty or a part exceeds [`MODEL_BOUND`], past which the
    /// model's sums would leave 64 bits.
    pub fn from_parts(
        rest: u64,
        prefix: Vec<u64>,
        plain_records: (u64, u64),
        plain_queries: (u64, u64),
        resident: [u64; KINDS],
        record_base: [u64; KINDS],
        query_len: u64,
    ) -> (model: Option<Model>)
        ensures
            model is Some <==> parts_fit(rest, prefix@, plain_records, plain_queries, resident@, record_base@, query_len),
            model matches Some(m) ==> m.parts() == (rest, prefix@, plain_records, plain_queries, resident@, record_base@, query_len),
            model matches Some(m) ==> m.candidates() + 1 == prefix@.len(),
    {
        if rest > MODEL_BOUND || prefix.len() == 0 || prefix.len() as u64 > MODEL_BOUND
            || plain_records.0 > MODEL_BOUND || plain_records.1 > MODEL_BOUND
            || plain_queries.0 > MODEL_BOUND || plain_queries.1 > MODEL_BOUND || query_len > MODEL_BOUND {
            return None;
        }
        let mut i: usize = 0;
        while i < prefix.len()
            invariant
                i <= prefix@.len(),
                forall|j: int| 0 <= j < i ==> prefix@[j] <= MODEL_BOUND,
            decreases prefix@.len() - i,
        {
            if prefix[i] > MODEL_BOUND {
                return None;
            }
            i = i + 1;
        }
        let mut k: usize = 0;
        while k < KINDS
            invariant
                k <= KINDS,
                forall|j: int| 0 <= j < k ==> resident@[j] <= MODEL_BOUND && record_base@[j] <= MODEL_BOUND,
            decreases KINDS - k,
        {
            if resident[k] > MODEL_BOUND || record_base[k] > MODEL_BOUND {
                return None;
            }
            k = k + 1;
        }
        Some(Model { rest, prefix, plain_records, plain_queries, resident, record_base, query_len })
    }

    /// Assemble the model of a child over candidates measuring `item_lengths`, with `residual`
    /// outstanding and `shortfall` the query a budget record points at: `rest` is what the
    /// child measures with no candidate and no record, less its byte count's own digits. The
    /// prefix sums, the split of the residual records into plain records and resident counts,
    /// each kind's shortfall record base and the query's length are all measured here. `None`
    /// when a part exceeds [`MODEL_BOUND`].
    pub fn new(rest: u64, item_lengths: &[u64], residual: &Manifest, shortfall: &ExpansionQuery) -> (model: Option<Model>)
        requires
            running_sum(item_lengths@, item_lengths@.len() as int) <= u64::MAX,
            residual_fits(residual.listing(), (shortfall.relation_spec(), shortfall.anchor_spec())),
        ensures
            model is Some <==> model_fits(rest, item_lengths@, residual.listing(), (shortfall.relation_spec(), shortfall.anchor_spec())),
            model matches Some(m) ==> ({
                let view = (shortfall.relation_spec(), shortfall.anchor_spec());
                let split = residual_split(residual.listing(), view);
                let parts = m.parts();
                &&& parts.0 == rest
                &&& parts.1.len() == item_lengths@.len() + 1
                &&& forall|i: int| 0 <= i <= item_lengths@.len() ==> parts.1[i] == running_sum(item_lengths@, i)
                &&& parts.2.0 == split.0 && parts.2.1 == split.1
                &&& parts.3.0 == split.2 && parts.3.1 == split.3
                &&& forall|k: int| 0 <= k < KINDS ==> parts.4[k] == split.4[k]
                &&& forall|k: int| 0 <= k < KINDS ==> parts.5[k] == shortfall_base(#[trigger] SelectionKind::ALL@[k], view)
                &&& parts.6 == query_bytes(view)
            }),
    {
        let ghost view = (shortfall.relation_spec(), shortfall.anchor_spec());
        let prefix = prefix_sums(item_lengths);
        let (plain_records, plain_queries, resident) = residual_parts(residual, shortfall);
        let record_base = shortfall_bases(shortfall);
        let rendered = shortfall.to_json();
        let query_len = rendered.as_str().as_bytes().len() as u64;
        proof {
            let n = item_lengths@.len() as int;
            assert forall|i: int| 0 <= i < prefix@.len() implies prefix@[i] <= running_sum(item_lengths@, n) by {
                lemma_running_sum_grows(item_lengths@, i, n);
            }
            assert(prefix@[n] == running_sum(item_lengths@, n));
            let split = residual_split(residual.listing(), view);
            let fits = parts_fit(rest, prefix@, plain_records, plain_queries, resident@, record_base@, query_len);
            if fits {
                assert forall|k: int| 0 <= k < KINDS implies split.4[k] <= MODEL_BOUND by {
                    assert(resident@[k] <= MODEL_BOUND);
                }
                assert forall|k: int| 0 <= k < KINDS implies shortfall_base(#[trigger] SelectionKind::ALL@[k], view) <= MODEL_BOUND by {
                    assert(record_base@[k] <= MODEL_BOUND);
                }
                assert(prefix@[n] <= MODEL_BOUND);
            }
            if model_fits(rest, item_lengths@, residual.listing(), view) {
                assert forall|k: int| 0 <= k < KINDS implies resident@[k] <= MODEL_BOUND by {
                    assert(split.4[k] <= MODEL_BOUND);
                }
                assert forall|k: int| 0 <= k < KINDS implies record_base@[k] <= MODEL_BOUND by {
                    assert(shortfall_base(SelectionKind::ALL@[k], view) <= MODEL_BOUND);
                }
                assert forall|i: int| 0 <= i < prefix@.len() implies prefix@[i] <= MODEL_BOUND by {
                    assert(prefix@[i] <= running_sum(item_lengths@, n));
                }
                assert(fits);
            }
        }
        Model::from_parts(rest, prefix, plain_records, plain_queries, resident, record_base, query_len)
    }

    /// The canonical length a child keeping `kept` candidates and dropping `dropped` of each
    /// kind would measure.
    pub fn length(&self, kept: usize, dropped: &[u64; KINDS]) -> (length: u64)
        requires
            kept <= self.candidates(),
            forall|k: int| 0 <= k < KINDS ==> dropped@[k] <= MODEL_BOUND,
        ensures
            length == self.modelled_length(kept as nat, dropped@.map_values(|v: u64| v as nat)),
    {
        proof { use_type_invariant(self); }
        let ghost counts = dropped@.map_values(|v: u64| v as nat);
        let selected: u64 = if kept == 0 {
            2
        } else {
            self.prefix[kept] + kept as u64 + 1
        };
        let mut records = self.plain_records;
        let mut queries = self.plain_queries;
        let mut k: usize = 0;
        while k < KINDS
            invariant
                k <= KINDS,
                forall|j: int| 0 <= j < KINDS ==> dropped@[j] <= MODEL_BOUND,
                forall|j: int| 0 <= j < KINDS ==> self.resident@[j] <= MODEL_BOUND,
                forall|j: int| 0 <= j < KINDS ==> self.record_base@[j] <= MODEL_BOUND,
                self.query_len <= MODEL_BOUND,
                self.plain_records.0 <= MODEL_BOUND && self.plain_records.1 <= MODEL_BOUND,
                self.plain_queries.0 <= MODEL_BOUND && self.plain_queries.1 <= MODEL_BOUND,
                counts == dropped@.map_values(|v: u64| v as nat),
                ({
                    let cells = shortfall_cells(self.resident@, self.record_base@, self.query_len as nat, counts, k as nat);
                    &&& records.0 == self.plain_records.0 + cells.0
                    &&& records.1 == self.plain_records.1 + cells.1
                    &&& queries.0 == self.plain_queries.0 + cells.2
                    &&& queries.1 == self.plain_queries.1 + cells.3
                    &&& cells.0 <= k * (MODEL_BOUND + 20)
                    &&& cells.1 <= k
                    &&& cells.2 <= k * MODEL_BOUND
                    &&& cells.3 <= k
                }),
            decreases KINDS - k,
        {
            proof {
                assert(k * (MODEL_BOUND + 20) <= 10 * (MODEL_BOUND + 20)) by (nonlinear_arith)
                    requires k < 11;
                assert(k * MODEL_BOUND <= 10 * MODEL_BOUND) by (nonlinear_arith)
                    requires k < 11;
            }
            let count = self.resident[k] + dropped[k];
            if count != 0 {
                proof { lemma_digit_count_bounded(count as nat); }
                records = (records.0 + self.record_base[k] + digits(count), records.1 + 1);
                queries = (queries.0 + self.query_len, queries.1 + 1);
            }
            proof {
                assert(counts[k as int] == dropped@[k as int] as nat);
                assert((k + 1) * (MODEL_BOUND + 20) == k * (MODEL_BOUND + 20) + (MODEL_BOUND + 20)) by (nonlinear_arith);
                assert((k + 1) * MODEL_BOUND == k * MODEL_BOUND + MODEL_BOUND) by (nonlinear_arith);
            }
            k = k + 1;
        }
        proof {
            assert(KINDS * (MODEL_BOUND + 20) <= 11 * (MODEL_BOUND + 20));
        }
        let base = self.rest + selected + array_len(records) + array_len(queries);
        settle(base)
    }

    /// The largest prefix, below everything, whose modelled size fits `ceiling`, scanning down
    /// from "everything but the last candidate"; zero when nothing is modelled to fit.
    pub fn largest_fit(&self, ceiling: u64, ordered: &[SelectionKind]) -> (kept: usize)
        requires
            ordered@.len() == self.candidates(),
        ensures
            kept == 0 || kept < ordered@.len(),
            kept > 0 ==> self.modelled_length(kept as nat, dropped_after(ordered@, kept as int)) <= ceiling,
            forall|k: int| kept < k < ordered@.len() ==> self.modelled_length(k as nat, dropped_after(ordered@, k)) > ceiling,
    {
        proof { use_type_invariant(self); }
        let mut dropped: [u64; KINDS] = [0; KINDS];
        let mut kept = ordered.len();
        proof {
            assert(dropped@.map_values(|v: u64| v as nat) =~= dropped_after(ordered@, kept as int)) by {
                assert(ordered@.subrange(kept as int, ordered@.len() as int) =~= Seq::<SelectionKind>::empty());
            }
        }
        while kept > 0
            invariant
                kept <= ordered@.len(),
                ordered@.len() == self.candidates(),
                self.candidates() <= MODEL_BOUND,
                dropped@.map_values(|v: u64| v as nat) =~= dropped_after(ordered@, kept as int),
                forall|k: int| kept <= k < ordered@.len() ==> self.modelled_length(k as nat, dropped_after(ordered@, k)) > ceiling,
            decreases kept,
        {
            kept = kept - 1;
            let at = slot(ordered[kept]);
            proof {
                lemma_count_rank_bounded(ordered@.subrange((kept + 1) as int, ordered@.len() as int), at as int);
                assert(dropped@.map_values(|v: u64| v as nat)[at as int] == dropped@[at as int] as nat);
                assert(dropped_after(ordered@, (kept + 1) as int)[at as int]
                    == count_rank(ordered@.subrange((kept + 1) as int, ordered@.len() as int), at as int));
            }
            let ghost before = dropped@;
            dropped[at] = dropped[at] + 1;
            proof {
                let tail = ordered@.subrange(kept as int, ordered@.len() as int);
                let rest = ordered@.subrange((kept + 1) as int, ordered@.len() as int);
                assert forall|r: int| 0 <= r < KINDS implies count_rank(tail, r) == count_rank(rest, r)
                    + if ordered@[kept as int].rank() == r { 1nat } else { 0nat } by {
                    lemma_count_rank_prepend(ordered@[kept as int], rest, r);
                    assert(tail =~= seq![ordered@[kept as int]] + rest);
                }
                assert forall|r: int| 0 <= r < KINDS implies dropped@.map_values(|v: u64| v as nat)[r]
                    == dropped_after(ordered@, kept as int)[r] by {
                    assert(before.map_values(|v: u64| v as nat)[r] == dropped_after(ordered@, (kept + 1) as int)[r]);
                    SelectionKind::lemma_all_lists(ordered@[kept as int]);
                }
                assert(dropped@.map_values(|v: u64| v as nat) =~= dropped_after(ordered@, kept as int));
                assert forall|r: int| 0 <= r < KINDS implies dropped@[r] <= MODEL_BOUND by {
                    lemma_count_rank_bounded(tail, r);
                    assert(dropped@.map_values(|v: u64| v as nat)[r] == dropped@[r] as nat);
                }
            }
            let length = self.length(kept, &dropped);
            if length <= ceiling {
                return kept;
            }
        }
        0
    }
}

/// Counting a kind over a sequence with one more member in front.
pub proof fn lemma_count_rank_prepend(first: SelectionKind, rest: Seq<SelectionKind>, rank: int)
    ensures
        count_rank(seq![first] + rest, rank) == count_rank(rest, rank) + if first.rank() == rank { 1nat } else { 0nat },
    decreases rest.len(),
{
    let whole = seq![first] + rest;
    if rest.len() == 0 {
        assert(whole.drop_last() =~= Seq::<SelectionKind>::empty());
        assert(count_rank(whole.drop_last(), rank) == 0);
        assert(whole.last() == first);
    } else {
        assert(whole.drop_last() =~= seq![first] + rest.drop_last());
        assert(whole.last() == rest.last());
        lemma_count_rank_prepend(first, rest.drop_last(), rank);
        assert(count_rank(whole, rank) == count_rank(whole.drop_last(), rank)
            + if whole.last().rank() == rank { 1nat } else { 0nat });
        assert(count_rank(rest, rank) == count_rank(rest.drop_last(), rank)
            + if rest.last().rank() == rank { 1nat } else { 0nat });
    }
}

/// A kind's position in the closed vocabulary, which is this module's array index.
pub fn slot(kind: SelectionKind) -> (index: usize)
    ensures
        index == kind.rank(),
        index < KINDS,
{
    proof { SelectionKind::lemma_all_lists(kind); }
    kind.slot()
}

/// A ceiling a candidate list cannot be packed to.
#[derive(Debug, PartialEq, Eq)]
pub enum BudgetError {
    /// Even the minimal child, the complete manifest and an empty selection, is larger than
    /// the ceiling: nothing is published.
    Exhausted {
        /// What the minimal child measured.
        minimal: u64,
        /// The ceiling it had to fit inside.
        ceiling: u64,
    },
    /// The candidates cannot be accounted for: a repeated identity, or a count beyond an
    /// exact one.
    Accounting(AccountingError),
    /// The residual records and the shortfall's own do not merge into one partition.
    Manifest(ManifestError),
}

/// Whether candidates stand in non-descending order of their names: the packing order, which a
/// repeated name does not break.
pub open spec fn names_nondescending(entries: Seq<Entry>) -> bool {
    forall|i: int, j: int| 0 <= i < j < entries.len() ==> !precedes(#[trigger] entries[j].0, #[trigger] entries[i].0)
}

/// The partition cells of the candidates after the first `kept`: each dropped for budget and
/// retrieved by `shortfall`.
pub open spec fn shortfall_drops(entries: Seq<Entry>, kept: int, shortfall: QueryView) -> Seq<Cell> {
    Seq::new((entries.len() - kept) as nat, |j: int| (entries[kept + j].1, OmissionReason::Budget, Some(shortfall)))
}

/// What a packed child's manifest counts in `cell`: the residual records' count there, plus the
/// candidates the ceiling dropped into it.
pub open spec fn packed_count(residual: Seq<OmissionRecord>, drops: Seq<Cell>, cell: Cell) -> nat {
    cell_total(residual, cell, residual.len() as int) + occurrences(drops, cell, drops.len() as int)
}

/// What packing decides about the candidate at `i`: in the child within the first `kept`, and
/// otherwise dropped for budget behind `shortfall`.
pub open spec fn packing_decisions(n: nat, kept: int, shortfall: QueryView) -> Seq<Decision> {
    Seq::new(n, |i: int| if i < kept { Decision::Selected } else { Decision::Omitted((OmissionReason::Budget, Some(shortfall))) })
}

/// The packing decisions choose exactly the first `kept` candidates and omit the rest, in order.
proof fn lemma_packing_decisions(entries: Seq<Entry>, kept: int, shortfall: QueryView, m: int)
    requires
        0 <= kept <= entries.len(),
        0 <= m <= entries.len(),
    ensures
        chosen_upto(entries, packing_decisions(entries.len(), kept, shortfall), m).len() == if m <= kept { m } else { kept },
        omitted_upto(entries, packing_decisions(entries.len(), kept, shortfall), m)
            == if m <= kept { Seq::<Cell>::empty() } else { shortfall_drops(entries, kept, shortfall).subrange(0, m - kept) },
    decreases m,
{
    let decisions = packing_decisions(entries.len(), kept, shortfall);
    if m > 0 {
        lemma_packing_decisions(entries, kept, shortfall, m - 1);
        if m > kept {
            let drops = shortfall_drops(entries, kept, shortfall);
            assert(drops.subrange(0, m - kept) =~= (if m - 1 <= kept { Seq::<Cell>::empty() } else {
                drops.subrange(0, m - 1 - kept)
            }).push(drops[m - 1 - kept]));
        }
    } else {
        assert(omitted_upto(entries, decisions, m) =~= Seq::<Cell>::empty());
    }
}

/// A cell no listed cell is occurs nowhere.
proof fn lemma_occurrences_absent(cells: Seq<Cell>, cell: Cell, n: int)
    requires
        forall|k: int| 0 <= k < n ==> cells[k] != cell,
    ensures
        occurrences(cells, cell, n) == 0,
    decreases n,
{
    if n > 0 {
        lemma_occurrences_absent(cells, cell, n - 1);
    }
}

/// The manifest of a child that keeps the first `kept` of `ordered` and drops the rest for
/// budget behind `shortfall`, merged with the `residual` records the expansion leaves
/// outstanding whatever the ceiling; and how many the ceiling dropped.
///
/// Read off one closed accounting, so the counting equation holds of the result: the merged
/// manifest counts the residual records' items and every dropped candidate, exactly once each.
/// Refuses a repeated candidate, a list too long for an exact count, and a cell whose merged
/// count leaves the exact-count width.
pub fn account(
    ordered: &Vec<(Name, SelectionKind)>,
    kept: usize,
    residual: &Manifest,
    shortfall: &ExpansionQuery,
) -> (outcome: Result<(Manifest, u32), BudgetError>)
    requires
        kept <= ordered@.len(),
        names_nondescending(entries_of(ordered@)),
    ensures
        ({
            let entries = entries_of(ordered@);
            let drops = shortfall_drops(entries, kept as int, (shortfall.relation_spec(), shortfall.anchor_spec()));
            let repeated = exists|j: int| 0 <= j < entries.len() && repeats_earlier(entries, j);
            let crowded = exists|c: Cell| {
                &&& (covers(residual.listing(), c) || drops.contains(c))
                &&& #[trigger] packed_count(residual.listing(), drops, c) > u32::MAX
            };
            &&& repeated ==> exists|j: int| {
                &&& 0 <= j < entries.len()
                &&& repeats_earlier(entries, j)
                &&& forall|k: int| 0 <= k < j ==> !repeats_earlier(entries, k)
                &&& (match outcome {
                    Err(BudgetError::Accounting(AccountingError::RepeatedCandidate { id })) => id@ == entries[j].0,
                    _ => false,
                })
            }
            &&& !repeated && entries.len() > u32::MAX ==> (outcome matches Err(BudgetError::Accounting(_)))
            &&& !repeated && entries.len() <= u32::MAX && crowded ==> exists|c: Cell| {
                &&& (covers(residual.listing(), c) || drops.contains(c))
                &&& #[trigger] packed_count(residual.listing(), drops, c) > u32::MAX
                &&& outcome == Err::<(Manifest, u32), BudgetError>(BudgetError::Manifest(
                    ManifestError::CountOverflow { kind: c.0, reason: c.1 },
                ))
            }
            &&& !repeated && entries.len() <= u32::MAX && !crowded ==> (match outcome {
                Ok((m, dropped)) => {
                    &&& dropped == if entries.len() - kept > u32::MAX { u32::MAX as int } else { entries.len() - kept }
                    &&& ascending(m.listing())
                    &&& partitions(m.listing())
                    &&& forall|k: int| 0 <= k < residual.listing().len() ==> #[trigger] covers(m.listing(), residual.listing()[k].cell())
                    &&& forall|j: int| 0 <= j < drops.len() ==> #[trigger] covers(m.listing(), drops[j])
                    &&& forall|p: int| 0 <= p < m.listing().len() ==> covers(residual.listing(), #[trigger] m.listing()[p].cell())
                        || drops.contains(m.listing()[p].cell())
                    &&& forall|p: int| 0 <= p < m.listing().len() ==> #[trigger] m.listing()[p].tally()
                        == packed_count(residual.listing(), drops, m.listing()[p].cell())
                    &&& tally_sum(m.listing()) == tally_sum(residual.listing()) + (entries.len() - kept)
                },
                _ => false,
            })
        }),
{
    let ghost entries = entries_of(ordered@);
    let ghost query = (shortfall.relation_spec(), shortfall.anchor_spec());
    let ghost drops = shortfall_drops(entries, kept as int, query);
    let n = ordered.len();
    let mut copy: Vec<(Name, SelectionKind)> = Vec::new();
    let mut i: usize = 0;
    while i < n
        invariant
            n == ordered@.len(),
            i <= n,
            entries_of(copy@) == entries_of(ordered@).subrange(0, i as int),
        decreases n - i,
    {
        let pair = (ordered[i].0.clone(), ordered[i].1);
        let ghost before = copy@;
        copy.push(pair);
        proof {
            assert(copy@ == before.push(pair));
            assert(entries_of(copy@) =~= entries_of(before).push((pair.0@, pair.1)));
            assert(entries_of(copy@) =~= entries_of(ordered@).subrange(0, i + 1));
        }
        i = i + 1;
    }
    proof {
        assert(entries_of(copy@) =~= entries);
    }
    let set = match CandidateSet::new(copy) {
        Ok(set) => set,
        Err(error) => {
            return Err(BudgetError::Accounting(error));
        },
    };
    proof {
        assert forall|a: int, b: int| 0 <= a < b < entries.len() implies precedes(#[trigger] entries[a].0, #[trigger] entries[b].0) by {
            assert(!precedes(entries[b].0, entries[a].0));
            if entries[a].0 == entries[b].0 {
                assert(repeats_earlier(entries, b));
            }
            crate::name::lemma_precedes_order(entries[a].0, entries[b].0, entries[a].0);
        }
        lemma_sorted_input_kept(entries, set.entries());
    }
    let mut accounting = Accounting::over(set);
    let ghost target = packing_decisions(n as nat, kept as int, query);
    let mut i: usize = 0;
    while i < n
        invariant
            n == ordered@.len(),
            n == entries.len(),
            entries == entries_of(ordered@),
            names_ascending(entries),
            kept <= n,
            query == (shortfall.relation_spec(), shortfall.anchor_spec()),
            target == packing_decisions(n as nat, kept as int, query),
            i <= n,
            accounting.candidates() == entries,
            accounting.decisions() == Seq::new(n as nat, |q: int| if q < i { target[q] } else { Decision::Open }),
        decreases n - i,
    {
        let id = &ordered[i].0;
        let ghost before = accounting.decisions();
        proof { assert(entries[i as int].0 == id@); }
        if i < kept {
            let outcome = accounting.select(id);
            proof {
                lemma_decide_at(entries, before, i as int, Decision::Selected, accounting.decisions(), outcome);
                assert(accounting.decisions() =~= Seq::new(n as nat, |q: int| if q < i + 1 { target[q] } else { Decision::Open }));
            }
        } else {
            let omitted = Omitted::Expandable { reason: OmissionReason::Budget, query: shortfall.clone() };
            let ghost placement = omitted.placement();
            let outcome = accounting.omit(id, omitted);
            proof {
                lemma_decide_at(entries, before, i as int, Decision::Omitted(placement), accounting.decisions(), outcome);
                assert(accounting.decisions() =~= Seq::new(n as nat, |q: int| if q < i + 1 { target[q] } else { Decision::Open }));
            }
        }
        i = i + 1;
    }
    let ghost decisions = accounting.decisions();
    proof {
        assert(decisions =~= target);
        assert forall|k: int| 0 <= k < n implies !(#[trigger] decisions[k] is Open) by {}
        lemma_nothing_pending(entries, decisions, n as int);
        lemma_dispositions_partition(entries, decisions, n as int);
        lemma_packing_decisions(entries, kept as int, query, n as int);
        assert(omitted_cells(entries, decisions) =~= drops);
        if n <= u32::MAX {
            assert forall|k: int| 0 <= k < drops.len() implies !crowds_cell(drops, k) by {
                crate::accounting::lemma_occurrences_bounded(drops, drops[k], k + 1);
            }
        }
    }
    let closed = match accounting.close() {
        Ok(closed) => closed,
        Err(error) => {
            return Err(BudgetError::Accounting(error));
        },
    };
    match closed.reconcile() {
        Ok(()) => {},
        Err(error) => {
            proof { assert(false); }
            return Err(BudgetError::Accounting(error));
        },
    }
    let ghost shortfall_records = closed.records();
    let mut records: Vec<OmissionRecord> = Vec::new();
    let held = residual.records();
    let mut k: usize = 0;
    while k < held.len()
        invariant
            k <= held@.len(),
            held@ == residual.listing(),
            records@.len() == k,
            forall|q: int| 0 <= q < k ==> (#[trigger] records@[q]).cell() == held@[q].cell() && records@[q].tally() == held@[q].tally(),
        decreases held@.len() - k,
    {
        let ghost before = records@;
        let copy = held[k].clone();
        records.push(copy);
        proof {
            assert(records@ == before.push(copy));
            assert(copy.cell() == held@[k as int].cell());
            assert(copy.tally() == held@[k as int].tally());
            assert(records@[k as int].cell() == held@[k as int].cell());
            assert forall|q: int| 0 <= q < k + 1 implies (#[trigger] records@[q]).cell() == held@[q].cell()
                && records@[q].tally() == held@[q].tally() by {
                if q < k {
                    assert(records@[q] == before[q]);
                }
            }
        }
        k = k + 1;
    }
    let own = closed.manifest().records();
    let mut k: usize = 0;
    while k < own.len()
        invariant
            k <= own@.len(),
            own@ == shortfall_records,
            records@.len() == residual.listing().len() + k,
            forall|q: int| 0 <= q < residual.listing().len() ==> (#[trigger] records@[q]).cell() == residual.listing()[q].cell()
                && records@[q].tally() == residual.listing()[q].tally(),
            forall|q: int| 0 <= q < k ==> (#[trigger] own@[q]).cell() == records@[residual.listing().len() + q].cell()
                && records@[residual.listing().len() + q].tally() == own@[q].tally(),
        decreases own@.len() - k,
    {
        let ghost before = records@;
        let copy = own[k].clone();
        records.push(copy);
        proof {
            assert(records@ == before.push(copy));
            assert(copy.cell() == own@[k as int].cell());
            assert forall|q: int| 0 <= q < residual.listing().len() implies (#[trigger] records@[q]).cell() == residual.listing()[q].cell()
                && records@[q].tally() == residual.listing()[q].tally() by {
                assert(records@[q] == before[q]);
            }
            assert forall|q: int| 0 <= q < k + 1 implies (#[trigger] own@[q]).cell() == records@[residual.listing().len() + q].cell()
                && records@[residual.listing().len() + q].tally() == own@[q].tally() by {
                if q < k {
                    assert(records@[residual.listing().len() + q] == before[residual.listing().len() + q]);
                }
            }
        }
        k = k + 1;
    }
    let ghost merged_from = records@;
    proof {
        crate::accounting::lemma_chosen_listing(entries, decisions, n as int);
        lemma_merge_sources(merged_from, residual.listing(), shortfall_records, drops, n as int - kept as int);
    }
    let manifest = match Manifest::merged(records) {
        Ok(manifest) => manifest,
        Err(error) => {
            proof {
                let i = choose|i: int| {
                    &&& 0 <= i < merged_from.len()
                    &&& overflows_at(merged_from, i)
                    &&& forall|k: int| 0 <= k < i ==> !overflows_at(merged_from, k)
                    &&& error == (ManifestError::CountOverflow { kind: merged_from[i].cell().0, reason: merged_from[i].cell().1 })
                };
                lemma_cell_total_grows(merged_from, merged_from[i].cell(), i + 1, merged_from.len() as int);
                let c = merged_from[i].cell();
                assert(packed_count(residual.listing(), drops, c) > u32::MAX);
                assert(covers(residual.listing(), c) || drops.contains(c));
            }
            return Err(BudgetError::Manifest(error));
        },
    };
    proof {
        lemma_overflow_somewhere(merged_from);
        assert forall|c: Cell| (covers(residual.listing(), c) || drops.contains(c))
            implies #[trigger] packed_count(residual.listing(), drops, c) <= u32::MAX by {
            assert(covers(merged_from, c));
            let i = choose|i: int| 0 <= i < merged_from.len() && #[trigger] merged_from[i].cell() == c;
            assert(cell_total(merged_from, merged_from[i].cell(), merged_from.len() as int) == packed_count(residual.listing(), drops, c));
        }
        assert forall|p: int| 0 <= p < manifest.listing().len() implies #[trigger] manifest.listing()[p].tally()
            == packed_count(residual.listing(), drops, manifest.listing()[p].cell()) by {
            assert(covers(merged_from, manifest.listing()[p].cell()));
        }
        assert forall|p: int| 0 <= p < manifest.listing().len() implies covers(residual.listing(), #[trigger] manifest.listing()[p].cell())
            || drops.contains(manifest.listing()[p].cell()) by {
            assert(covers(merged_from, manifest.listing()[p].cell()));
        }
        assert forall|k: int| 0 <= k < residual.listing().len() implies #[trigger] covers(manifest.listing(), residual.listing()[k].cell()) by {
            assert(covers(manifest.listing(), merged_from[k].cell()));
        }
        assert forall|j: int| 0 <= j < drops.len() implies #[trigger] covers(manifest.listing(), drops[j]) by {
            assert(covers(shortfall_records, drops[j]));
            let q = choose|q: int| 0 <= q < shortfall_records.len() && #[trigger] shortfall_records[q].cell() == drops[j];
            assert(merged_from[residual.listing().len() + q].cell() == drops[j]);
            assert(covers(manifest.listing(), merged_from[residual.listing().len() + q].cell()));
        }
    }
    let dropped: u32 = if n - kept > 0xffff_ffff {
        0xffff_ffff
    } else {
        (n - kept) as u32
    };
    Ok((manifest, dropped))
}

/// What merging a residual manifest with a shortfall manifest is merging: a cell's total over
/// the concatenation is its packed count, the concatenation's cells are the residual's and the
/// dropped candidates', and the concatenation counts the residual's items and every drop.
proof fn lemma_merge_sources(
    merged_from: Seq<OmissionRecord>,
    residual: Seq<OmissionRecord>,
    shortfall_records: Seq<OmissionRecord>,
    drops: Seq<Cell>,
    dropped: int,
)
    requires
        merged_from.len() == residual.len() + shortfall_records.len(),
        forall|q: int| 0 <= q < residual.len() ==> #[trigger] merged_from[q].cell() == residual[q].cell()
            && merged_from[q].tally() == residual[q].tally(),
        forall|q: int| 0 <= q < shortfall_records.len() ==> #[trigger] merged_from[residual.len() + q].cell()
            == shortfall_records[q].cell() && merged_from[residual.len() + q].tally() == shortfall_records[q].tally(),
        partitions(shortfall_records),
        forall|k: int| 0 <= k < drops.len() ==> #[trigger] covers(shortfall_records, drops[k]),
        forall|p: int| 0 <= p < shortfall_records.len() ==> drops.contains(#[trigger] shortfall_records[p].cell()),
        forall|p: int| 0 <= p < shortfall_records.len() ==> #[trigger] shortfall_records[p].tally()
            == occurrences(drops, shortfall_records[p].cell(), drops.len() as int),
        tally_sum(shortfall_records) == dropped,
    ensures
        forall|c: Cell| #[trigger] cell_total(merged_from, c, merged_from.len() as int) == packed_count(residual, drops, c),
        forall|i: int| 0 <= i < merged_from.len() ==> covers(residual, #[trigger] merged_from[i].cell())
            || drops.contains(merged_from[i].cell()),
        forall|c: Cell| (covers(residual, c) || drops.contains(c)) ==> #[trigger] covers(merged_from, c),
        tally_sum(merged_from) == tally_sum(residual) + dropped,
{
    let joined = residual + shortfall_records;
    let n = merged_from.len() as int;
    assert forall|k: int| 0 <= k < n implies #[trigger] merged_from[k].cell() == joined[k].cell()
        && merged_from[k].tally() == joined[k].tally() by {
        if k < residual.len() {
            assert(joined[k] == residual[k]);
        } else {
            assert(joined[k] == shortfall_records[k - residual.len()]);
            assert(merged_from[residual.len() + (k - residual.len())].cell() == shortfall_records[k - residual.len()].cell());
        }
    }
    assert forall|c: Cell| #[trigger] cell_total(merged_from, c, n) == packed_count(residual, drops, c) by {
        lemma_totals_agree(merged_from, joined, c, n);
        lemma_cell_total_concat(residual, shortfall_records, c, shortfall_records.len() as int);
        lemma_cell_total_partition(shortfall_records, c, shortfall_records.len() as int);
        if exists|p: int| 0 <= p < shortfall_records.len() && #[trigger] shortfall_records[p].cell() == c {
            let p = choose|p: int| 0 <= p < shortfall_records.len() && #[trigger] shortfall_records[p].cell() == c;
            assert(shortfall_records[p].tally() == occurrences(drops, c, drops.len() as int));
        } else {
            assert forall|k: int| 0 <= k < drops.len() implies drops[k] != c by {
                assert(covers(shortfall_records, drops[k]));
            }
            lemma_occurrences_absent(drops, c, drops.len() as int);
        }
    }
    assert forall|i: int| 0 <= i < n implies covers(residual, #[trigger] merged_from[i].cell())
        || drops.contains(merged_from[i].cell()) by {
        if i < residual.len() {
            assert(residual[i].cell() == merged_from[i].cell());
        } else {
            let q = i - residual.len();
            assert(merged_from[residual.len() + q].cell() == shortfall_records[q].cell());
            assert(drops.contains(shortfall_records[q].cell()));
        }
    }
    assert forall|c: Cell| (covers(residual, c) || drops.contains(c)) implies #[trigger] covers(merged_from, c) by {
        if covers(residual, c) {
            let k = choose|k: int| 0 <= k < residual.len() && #[trigger] residual[k].cell() == c;
            assert(merged_from[k].cell() == c);
        } else {
            let j = choose|j: int| 0 <= j < drops.len() && drops[j] == c;
            assert(covers(shortfall_records, drops[j]));
            let q = choose|q: int| 0 <= q < shortfall_records.len() && #[trigger] shortfall_records[q].cell() == drops[j];
            assert(merged_from[residual.len() + q].cell() == c);
        }
    }
    lemma_totals_agree(merged_from, joined, (SelectionKind::Event, OmissionReason::Budget, None), n);
    lemma_tally_sum_concat(residual, shortfall_records);
}


impl BudgetError {
    /// The refusal's explanation.
    pub open spec fn explanation(&self) -> Seq<char> {
        match self {
            BudgetError::Exhausted { minimal, ceiling } =>
                "the smallest conforming child measures "@ + crate::json::decimal(*minimal as nat) + " bytes against a ceiling of "@
                    + crate::json::decimal(*ceiling as nat) + "; a manifest is never what a budget squeezes out"@,
            BudgetError::Accounting(error) => error.explanation(),
            BudgetError::Manifest(error) => error.explanation(),
        }
    }

    /// The refusal's explanation.
    pub fn message(&self) -> (text: String)
        ensures
            text@ == self.explanation(),
    {
        match self {
            BudgetError::Exhausted { minimal, ceiling } => {
                let mut out = String::new();
                crate::json::write_raw(&mut out, "the smallest conforming child measures ");
                crate::json::write_decimal(&mut out, *minimal);
                crate::json::write_raw(&mut out, " bytes against a ceiling of ");
                crate::json::write_decimal(&mut out, *ceiling);
                crate::json::write_raw(&mut out, "; a manifest is never what a budget squeezes out");
                proof { assert(out@ =~= self.explanation()); }
                out
            },
            BudgetError::Accounting(error) => error.message(),
            BudgetError::Manifest(error) => error.message(),
        }
    }
}

} // verus!
