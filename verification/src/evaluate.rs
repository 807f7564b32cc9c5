//! Scoring and ranking of stations by punctuality.
//!
//! For a chosen product filter, each station's recorded trips are filtered
//! by product category and scored by the share of them that were delayed
//! (a trip counts as delayed from six minutes, the domain's punctuality
//! threshold). Stations with no matching trips are left out entirely. The
//! result is ranked worst-first, with ties broken by station id, so the
//! same records always rank the same way.

use vstd::prelude::*;

use crate::stations::Station;
use crate::trips::{StationData, Trip};

verus! {

/// Delay in seconds from which a trip counts as delayed: six minutes, the
/// domain's punctuality threshold.
pub const DELAY_THRESHOLD_SECS: i32 = 360;

/// Which trips an evaluation takes into account: one product category, a
/// class of categories, or all of them.
#[derive(Debug, Clone, Copy, PartialEq, Eq, Structural)]
pub enum ProductType {
    NationalExpress,
    National,
    AllNational,
    RegionalExpress,
    Regional,
    AllRegional,
    Suburban,
    All,
}

/// How stations are scored. Only `DelayPercentage` has a defined
/// computation; `AverageDelayTime` is part of the command surface but has
/// none, and an evaluation run with it reports `UnsupportedMode`.
#[derive(Debug, Clone, Copy, PartialEq, Eq, Structural)]
pub enum EvaluationMode {
    DelayPercentage,
    AverageDelayTime,
}

/// Why an evaluation run can fail.
#[derive(Debug, Clone, Copy, PartialEq, Eq, Structural)]
pub enum EvalError {
    /// The chosen evaluation mode has no defined computation.
    UnsupportedMode,
}

/// One station's score: `delayed` of its `total` matching trips were
/// delayed, so the metric value is the fraction `delayed / total`. Kept
/// as the exact pair; `total` is never zero.
#[derive(Debug)]
pub struct EvalResult {
    /// Id of the scored station.
    pub id: u64,
    /// Name of the scored station.
    pub name: String,
    /// How many matching trips were delayed or counted as such.
    pub delayed: usize,
    /// How many trips matched the product filter; always positive.
    pub total: usize,
}

/// Whether a trip's product category passes the filter. The category is
/// the recorded string; a string naming no known category passes only the
/// `All` filter.
pub open spec fn product_matches(product: Seq<char>, filter: ProductType) -> bool {
    match filter {
        ProductType::All => true,
        ProductType::NationalExpress => product == "nationalExpress"@,
        ProductType::National => product == "national"@,
        ProductType::AllNational => product == "nationalExpress"@ || product == "national"@,
        ProductType::RegionalExpress => product == "regionalExpress"@,
        ProductType::Regional => product == "regional"@,
        ProductType::AllRegional => product == "regionalExpress"@ || product == "regional"@,
        ProductType::Suburban => product == "suburban"@,
    }
}

/// A trip counts as delayed from the six-minute threshold on. The
/// cancellation sentinel is negative, so a cancelled trip never counts as
/// delayed here, while it still counts among the matching trips.
pub open spec fn is_delayed_spec(t: Trip) -> bool {
    t.delay >= DELAY_THRESHOLD_SECS
}

/// How many trips of a record pass the product filter.
pub open spec fn matching_count(s: Seq<(String, Trip)>, filter: ProductType) -> nat
    decreases s.len(),
{
    if s.len() == 0 {
        0
    } else {
        matching_count(s.drop_last(), filter) + if product_matches(
            s.last().1.product_type@,
            filter,
        ) {
            1nat
        } else {
            0nat
        }
    }
}

/// How many trips of a record pass the product filter and count as
/// delayed.
pub open spec fn delayed_count(s: Seq<(String, Trip)>, filter: ProductType) -> nat
    decreases s.len(),
{
    if s.len() == 0 {
        0
    } else {
        delayed_count(s.drop_last(), filter) + if product_matches(s.last().1.product_type@, filter)
            && is_delayed_spec(s.last().1) {
            1nat
        } else {
            0nat
        }
    }
}

/// Whether a string equals a literal category name.
fn string_eq_lit(a: &String, lit: &str) -> (b: bool)
    ensures
        b == (a@ == lit@),
{
    let owned: String = lit.to_owned();
    *a == owned
}

/// Whether a trip's recorded product category passes the filter.
pub fn matches_filter(product_type: &String, filter: ProductType) -> (b: bool)
    ensures
        b == product_matches(product_type@, filter),
{
    match filter {
        ProductType::All => true,
        ProductType::NationalExpress => string_eq_lit(product_type, "nationalExpress"),
        ProductType::National => string_eq_lit(product_type, "national"),
        ProductType::AllNational => string_eq_lit(product_type, "nationalExpress")
            || string_eq_lit(product_type, "national"),
        ProductType::RegionalExpress => string_eq_lit(product_type, "regionalExpress"),
        ProductType::Regional => string_eq_lit(product_type, "regional"),
        ProductType::AllRegional => string_eq_lit(product_type, "regionalExpress")
            || string_eq_lit(product_type, "regional"),
        ProductType::Suburban => string_eq_lit(product_type, "suburban"),
    }
}

/// Whether a trip counts as delayed: at or above the six-minute
/// threshold. A delay of 359 is not delayed, 360 is; the cancellation
/// sentinel is not.
pub fn is_delayed(t: &Trip) -> (b: bool)
    ensures
        b == is_delayed_spec(*t),
{
    t.delay >= DELAY_THRESHOLD_SECS
}

/// Counts a record's delayed and matching trips under the filter:
/// returns `(delayed, matching)`.
pub fn station_counts(data: &StationData, filter: ProductType) -> (c: (usize, usize))
    ensures
        c.0 == delayed_count(data.trips@, filter),
        c.1 == matching_count(data.trips@, filter),
        c.0 <= c.1 <= data.trips@.len(),
{
    let mut delayed: usize = 0;
    let mut total: usize = 0;
    let n = data.trips.len();
    let mut i: usize = 0;
    while i < n
        invariant
            n == data.trips@.len(),
            i <= n,
            delayed as nat == delayed_count(data.trips@.take(i as int), filter),
            total as nat == matching_count(data.trips@.take(i as int), filter),
            delayed <= total <= i,
        decreases n - i,
    {
        proof {
            assert(data.trips@.take(i as int + 1).drop_last() =~= data.trips@.take(i as int));
            assert(data.trips@.take(i as int + 1).last() == data.trips@[i as int]);
        }
        let t = &data.trips[i].1;
        if matches_filter(&t.product_type, filter) {
            total += 1;
            if is_delayed(t) {
                delayed += 1;
            }
        }
        i += 1;
    }
    proof {
        assert(data.trips@.take(data.trips@.len() as int) =~= data.trips@);
    }
    (delayed, total)
}

/// A score the evaluation can emit: at least one matching trip, and no
/// more delayed trips than matching ones.
pub open spec fn result_valid(r: EvalResult) -> bool {
    0 < r.total && r.delayed <= r.total
}

/// Every score of the sequence is one the evaluation can emit.
pub open spec fn all_valid(s: Seq<EvalResult>) -> bool {
    forall|i: int| 0 <= i < s.len() ==> result_valid(#[trigger] s[i])
}

/// Ranking order of the report: `a` may stand at or before `b` when `a`'s
/// metric fraction is larger, or equal with `a`'s station id not larger.
/// The fractions `delayed / total` are compared by cross-multiplication.
pub open spec fn rank_le(a: EvalResult, b: EvalResult) -> bool {
    let x = (a.delayed as int) * (b.total as int);
    let y = (b.delayed as int) * (a.total as int);
    x > y || (x == y && a.id <= b.id)
}

/// The report is ranked: metric descending, ties by station id.
pub open spec fn results_sorted(s: Seq<EvalResult>) -> bool {
    forall|i: int, j: int| 0 <= i < j < s.len() ==> rank_le(s[i], s[j])
}

/// Any two scores are ordered one way or the other.
pub proof fn lemma_rank_le_total(a: EvalResult, b: EvalResult)
    ensures
        rank_le(a, b) || rank_le(b, a),
{
}

/// Scores ordered both ways carry the same station id.
pub proof fn lemma_rank_le_antisym_ids(a: EvalResult, b: EvalResult)
    requires
        rank_le(a, b),
        rank_le(b, a),
    ensures
        a.id == b.id,
{
}

/// Transitivity of fraction comparison by cross-multiplication, with
/// strictness carried through.
proof fn lemma_frac_le_trans(x1: int, y1: int, x2: int, y2: int, x3: int, y3: int)
    requires
        y1 > 0,
        y2 > 0,
        y3 > 0,
        x1 * y2 >= x2 * y1,
        x2 * y3 >= x3 * y2,
    ensures
        x1 * y3 >= x3 * y1,
        x1 * y2 > x2 * y1 || x2 * y3 > x3 * y2 ==> x1 * y3 > x3 * y1,
{
    assert((x1 * y2) * y3 >= (x2 * y1) * y3 && ((x1 * y2) > (x2 * y1) ==> (x1 * y2) * y3 > (x2
        * y1) * y3)) by (nonlinear_arith)
        requires
            y3 > 0,
            x1 * y2 >= x2 * y1,
    ;
    assert((x2 * y3) * y1 >= (x3 * y2) * y1 && ((x2 * y3) > (x3 * y2) ==> (x2 * y3) * y1 > (x3
        * y2) * y1)) by (nonlinear_arith)
        requires
            y1 > 0,
            x2 * y3 >= x3 * y2,
    ;
    assert((x1 * y2) * y3 == (x1 * y3) * y2 && (x2 * y1) * y3 == (x2 * y3) * y1 && (x3 * y2) * y1
        == (x3 * y1) * y2) by (nonlinear_arith);
    assert(x1 * y3 >= x3 * y1 && ((x1 * y3) * y2 > (x3 * y1) * y2 ==> x1 * y3 > x3 * y1))
        by (nonlinear_arith)
        requires
            y2 > 0,
            (x1 * y3) * y2 >= (x3 * y1) * y2,
    ;
}

/// The ranking order is transitive over scores the evaluation can emit.
pub proof fn lemma_rank_le_trans(a: EvalResult, b: EvalResult, c: EvalResult)
    requires
        result_valid(a),
        result_valid(b),
        result_valid(c),
        rank_le(a, b),
        rank_le(b, c),
    ensures
        rank_le(a, c),
{
    let x1 = a.delayed as int;
    let y1 = a.total as int;
    let x2 = b.delayed as int;
    let y2 = b.total as int;
    let x3 = c.delayed as int;
    let y3 = c.total as int;
    lemma_frac_le_trans(x1, y1, x2, y2, x3, y3);
    if x1 * y2 == x2 * y1 && x2 * y3 == x3 * y2 {
        lemma_frac_le_trans(x3, y3, x2, y2, x1, y1);
    }
}

/// Executable ranking comparison; decides `rank_le` exactly.
fn rank_before(a: &EvalResult, b: &EvalResult) -> (r: bool)
    ensures
        r == rank_le(*a, *b),
{
    proof {
        assert((a.delayed as u128) * (b.total as u128) <= (u64::MAX as u128) * (u64::MAX as u128)
            && (b.delayed as u128) * (a.total as u128) <= (u64::MAX as u128) * (u64::MAX as u128))
            by (nonlinear_arith)
            requires
                a.delayed as u128 <= u64::MAX as u128,
                b.total as u128 <= u64::MAX as u128,
                b.delayed as u128 <= u64::MAX as u128,
                a.total as u128 <= u64::MAX as u128,
        ;
    }
    let x = (a.delayed as u128) * (b.total as u128);
    let y = (b.delayed as u128) * (a.total as u128);
    if x != y {
        x > y
    } else {
        a.id <= b.id
    }
}

/// Sorts scores into ranking order in place: metric descending, ties by
/// station id. Keeps exactly the same scores.
pub fn sort_results(v: &mut Vec<EvalResult>)
    requires
        all_valid(old(v)@),
    ensures
        final(v)@.len() == old(v)@.len(),
        final(v)@.to_multiset() == old(v)@.to_multiset(),
        results_sorted(final(v)@),
        all_valid(final(v)@),
{
    broadcast use vstd::seq_lib::group_to_multiset_ensures;

    if v.len() <= 1 {
        return ;
    }
    let ghost orig = old(v)@;
    let mut i: usize = 1;
    while i < v.len()
        invariant
            1 <= i <= v@.len(),
            v@.len() == orig.len(),
            v@.to_multiset() == orig.to_multiset(),
            all_valid(v@),
            forall|a: int, b: int| 0 <= a < b < i ==> rank_le(v@[a], v@[b]),
        decreases v@.len() - i,
    {
        let mut p: usize = 0;
        while p < i
            invariant_except_break
                0 <= p <= i < v@.len(),
                forall|q: int| 0 <= q < p ==> rank_le(v@[q], v@[i as int]),
            ensures
                0 <= p <= i < v@.len(),
                forall|q: int| 0 <= q < p ==> rank_le(v@[q], v@[i as int]),
                p < i ==> !rank_le(v@[p as int], v@[i as int]),
            decreases i - p,
        {
            if !rank_before(&v[p], &v[i]) {
                break ;
            }
            p += 1;
        }
        let ghost v0 = v@;
        let ghost x = v@[i as int];
        let moved = v.remove(i);
        v.insert(p, moved);
        proof {
            broadcast use vstd::seq_lib::group_to_multiset_ensures;

            let v2 = v@;
            // The move keeps the same scores.
            assert(v0.remove(i as int).to_multiset() == v0.to_multiset().remove(x));
            assert(v2.remove(p as int) =~= v0.remove(i as int));
            assert(v2[p as int] == x);
            assert(v2.remove(p as int).to_multiset() == v2.to_multiset().remove(x));
            assert(v2.to_multiset().contains(x)) by {
                assert(v2.contains(x));
            }
            assert(v2.to_multiset() =~= v0.to_multiset());
            // Where each score now stands.
            assert forall|q: int| 0 <= q < v2.len() implies #[trigger] v2[q] == (if q < p {
                v0[q]
            } else if q == p {
                x
            } else if q <= i {
                v0[q - 1]
            } else {
                v0[q]
            }) by {}
            assert(all_valid(v2)) by {
                assert(forall|q: int| 0 <= q < v0.len() ==> result_valid(#[trigger] v0[q]));
            }
            // The moved score sits below everything shifted behind it.
            if p < i {
                lemma_rank_le_total(v0[p as int], x);
                assert forall|r: int| p <= r < i implies rank_le(x, v0[r]) by {
                    if r > p {
                        lemma_rank_le_trans(x, v0[p as int], v0[r]);
                    }
                }
            }
            assert forall|a: int, b: int| 0 <= a < b < i + 1 implies rank_le(v2[a], v2[b]) by {}
        }
        i += 1;
    }
}

/// The scores an evaluation derives, in input order: one per station with
/// at least one matching trip, none for the others.
pub open spec fn scored(entries: Seq<(Station, StationData)>, filter: ProductType) -> Seq<
    EvalResult,
>
    decreases entries.len(),
{
    if entries.len() == 0 {
        Seq::empty()
    } else {
        let rest = scored(entries.drop_last(), filter);
        let st = entries.last().0;
        let trips = entries.last().1.trips@;
        if matching_count(trips, filter) > 0 {
            rest.push(
                EvalResult {
                    id: st.id,
                    name: st.name,
                    delayed: delayed_count(trips, filter) as usize,
                    total: matching_count(trips, filter) as usize,
                },
            )
        } else {
            rest
        }
    }
}

/// No two stations of the input carry the same id.
pub open spec fn distinct_entry_ids(entries: Seq<(Station, StationData)>) -> bool {
    forall|i: int, j: int| 0 <= i < j < entries.len() ==> entries[i].0.id != entries[j].0.id
}

/// No two scores of the report carry the same station id.
pub open spec fn distinct_result_ids(s: Seq<EvalResult>) -> bool {
    forall|i: int, j: int| 0 <= i < j < s.len() ==> s[i].id != s[j].id
}

/// Every score stems from a station of the input with at least one
/// matching trip and carries that station's id.
proof fn lemma_scored_sources(entries: Seq<(Station, StationData)>, filter: ProductType)
    ensures
        forall|j: int|
            0 <= j < scored(entries, filter).len() ==> exists|i: int|
                0 <= i < entries.len() && #[trigger] scored(entries, filter)[j].id
                    == entries[i].0.id && matching_count(entries[i].1.trips@, filter) > 0,
    decreases entries.len(),
{
    if entries.len() == 0 {
    } else {
        lemma_scored_sources(entries.drop_last(), filter);
        let s = scored(entries, filter);
        let rest = scored(entries.drop_last(), filter);
        assert forall|j: int| 0 <= j < s.len() implies exists|i: int|
            0 <= i < entries.len() && #[trigger] s[j].id == entries[i].0.id && matching_count(
                entries[i].1.trips@,
                filter,
            ) > 0 by {
            if j < rest.len() {
                assert(s[j] == rest[j]);
                let i = choose|i: int|
                    0 <= i < entries.drop_last().len() && #[trigger] rest[j].id
                        == entries.drop_last()[i].0.id && matching_count(
                        entries.drop_last()[i].1.trips@,
                        filter,
                    ) > 0;
                assert(entries[i] == entries.drop_last()[i]);
                assert(0 <= i < entries.len() && s[j].id == entries[i].0.id && matching_count(
                    entries[i].1.trips@,
                    filter,
                ) > 0);
            } else {
                let i = entries.len() - 1;
                assert(0 <= i < entries.len() && s[j].id == entries[i].0.id && matching_count(
                    entries[i].1.trips@,
                    filter,
                ) > 0);
            }
        }
    }
}

/// With distinct station ids in the input, the derived scores carry
/// distinct station ids.
proof fn lemma_scored_distinct(entries: Seq<(Station, StationData)>, filter: ProductType)
    requires
        distinct_entry_ids(entries),
    ensures
        distinct_result_ids(scored(entries, filter)),
    decreases entries.len(),
{
    if entries.len() == 0 {
    } else {
        assert(distinct_entry_ids(entries.drop_last())) by {
            assert forall|i: int, j: int|
                0 <= i < j < entries.drop_last().len() implies entries.drop_last()[i].0.id
                != entries.drop_last()[j].0.id by {
                assert(entries[i].0.id != entries[j].0.id);
            }
        }
        lemma_scored_distinct(entries.drop_last(), filter);
        let s = scored(entries, filter);
        let rest = scored(entries.drop_last(), filter);
        if s.len() > rest.len() {
            assert forall|i: int, j: int| 0 <= i < j < s.len() implies s[i].id != s[j].id by {
                if j == s.len() - 1 {
                    assert(s[i] == rest[i]);
                    lemma_scored_sources(entries.drop_last(), filter);
                    let a = choose|a: int|
                        0 <= a < entries.drop_last().len() && #[trigger] rest[i].id
                            == entries.drop_last()[a].0.id && matching_count(
                            entries.drop_last()[a].1.trips@,
                            filter,
                        ) > 0;
                    assert(entries[a].0.id != entries[entries.len() - 1].0.id);
                } else {
                    assert(s[i] == rest[i] && s[j] == rest[j]);
                }
            }
        }
    }
}

/// Scores the stations and ranks them. Succeeds exactly under
/// `DelayPercentage`, the one mode with a defined computation; the report
/// then holds exactly the derived scores (`scored`), ranked worst-first
/// with ties broken by station id, every score with at least one matching
/// trip behind it, and station ids distinct.
pub fn evaluate(
    entries: &Vec<(Station, StationData)>,
    product_type: ProductType,
    evaluation_mode: EvaluationMode,
) -> (r: Result<Vec<EvalResult>, EvalError>)
    requires
        forall|i: int| 0 <= i < entries@.len() ==> (#[trigger] entries@[i].1).wf(),
        distinct_entry_ids(entries@),
    ensures
        r is Ok <==> evaluation_mode is DelayPercentage,
        r is Err ==> r == Err::<Vec<EvalResult>, EvalError>(EvalError::UnsupportedMode),
        r is Ok ==> (r->Ok_0)@.to_multiset() == scored(entries@, product_type).to_multiset(),
        r is Ok ==> results_sorted((r->Ok_0)@),
        r is Ok ==> all_valid((r->Ok_0)@),
        r is Ok ==> distinct_result_ids((r->Ok_0)@),
{
    match evaluation_mode {
        EvaluationMode::AverageDelayTime => Err(EvalError::UnsupportedMode),
        EvaluationMode::DelayPercentage => {
            let mut results: Vec<EvalResult> = Vec::new();
            let mut i: usize = 0;
            while i < entries.len()
                invariant
                    i <= entries@.len(),
                    forall|k: int| 0 <= k < entries@.len() ==> (#[trigger] entries@[k].1).wf(),
                    results@ == scored(entries@.take(i as int), product_type),
                    all_valid(results@),
                decreases entries@.len() - i,
            {
                proof {
                    assert(entries@.take(i as int + 1).drop_last() =~= entries@.take(i as int));
                    assert(entries@.take(i as int + 1).last() == entries@[i as int]);
                }
                let entry = &entries[i];
                let (delayed, total) = station_counts(&entry.1, product_type);
                if total > 0 {
                    let res = EvalResult {
                        id: entry.0.id,
                        name: entry.0.name.clone(),
                        delayed,
                        total,
                    };
                    proof {
                        assert(res == scored(entries@.take(i as int + 1), product_type).last());
                    }
                    results.push(res);
                }
                i += 1;
            }
            proof {
                assert(entries@.take(entries@.len() as int) =~= entries@);
                lemma_scored_distinct(entries@, product_type);
            }
            let ghost unsorted = results@;
            sort_results(&mut results);
            proof {
                lemma_permutation_distinct_ids(unsorted, results@);
            }
            Ok(results)
        },
    }
}

/// A permutation of scores with distinct station ids keeps them distinct.
proof fn lemma_permutation_distinct_ids(s1: Seq<EvalResult>, s2: Seq<EvalResult>)
    requires
        s1.to_multiset() == s2.to_multiset(),
        distinct_result_ids(s1),
    ensures
        distinct_result_ids(s2),
{
    broadcast use vstd::seq_lib::group_to_multiset_ensures;

    assert forall|a: int, b: int| 0 <= a < b < s2.len() implies s2[a].id != s2[b].id by {
        if s2[a].id == s2[b].id {
            assert(s1.to_multiset().contains(s2[a])) by {
                assert(s2.contains(s2[a]));
            }
            assert(s1.to_multiset().contains(s2[b])) by {
                assert(s2.contains(s2[b]));
            }
            let ia = choose|i: int| 0 <= i < s1.len() && s1[i] == s2[a];
            let ib = choose|i: int| 0 <= i < s1.len() && s1[i] == s2[b];
            // Distinct ids in s1 force the two witnesses onto one
            // position, so the two scores are one and the same.
            assert(ia == ib);
            assert(s2[a] == s2[b]);
            // But a sequence whose scores carry distinct ids has no
            // duplicate score, and a permutation keeps counts.
            s1.lemma_multiset_has_no_duplicates();
            let sub = s2.subrange(a, b + 1);
            assert(s2 =~= s2.subrange(0, a) + sub + s2.subrange(b + 1, s2.len() as int));
            vstd::seq_lib::lemma_multiset_commutative(s2.subrange(0, a) + sub, s2.subrange(b + 1, s2.len() as int));
            vstd::seq_lib::lemma_multiset_commutative(s2.subrange(0, a), sub);
            assert(sub.to_multiset().contains(s2[a])) by {
                assert(sub[0] == s2[a]);
                assert(sub.contains(s2[a]));
            }
            assert(sub.to_multiset().remove(s2[a]).contains(s2[b])) by {
                assert(sub.remove(0)[b - a - 1] == s2[b]);
                assert(sub.remove(0).contains(s2[b]));
                assert(sub.remove(0).to_multiset() == sub.to_multiset().remove(sub[0]));
            }
            assert(s2.to_multiset().count(s2[a]) >= 2) by {
                assert(sub.to_multiset().count(s2[a]) >= 2) by {
                    assert(sub.to_multiset().remove(s2[a]).count(s2[a]) >= 1);
                }
            }
            assert(s1.to_multiset().contains(s2[a]));
            assert(false);
        }
    }
}

/// Running the ranking twice over the same scores can only produce one
/// order: two ranked sequences of the same scores, with distinct station
/// ids, are equal.
pub proof fn lemma_ranking_deterministic(s1: Seq<EvalResult>, s2: Seq<EvalResult>)
    requires
        results_sorted(s1),
        results_sorted(s2),
        s1.to_multiset() == s2.to_multiset(),
        distinct_result_ids(s1),
    ensures
        s1 == s2,
    decreases s1.len(),
{
    broadcast use vstd::seq_lib::group_to_multiset_ensures;

    if s1.len() == 0 {
        assert(s1.to_multiset() =~= s2.to_multiset());
        assert(s2.len() == 0);
        assert(s1 =~= s2);
    } else {
        assert(s2.len() == s1.len()) by {
            s1.to_multiset_ensures();
            s2.to_multiset_ensures();
        }
        // The two heads are mutually ranked, so they carry one id, and
        // distinct ids make them one score.
        assert(s1.to_multiset().contains(s2[0])) by {
            assert(s2.contains(s2[0]));
        }
        let k = choose|k: int| 0 <= k < s1.len() && s1[k] == s2[0];
        assert(rank_le(s1[0], s2[0])) by {
            if k != 0 {
                assert(rank_le(s1[0], s1[k]));
            }
        }
        assert(s2.to_multiset().contains(s1[0])) by {
            assert(s1.contains(s1[0]));
        }
        let m = choose|m: int| 0 <= m < s2.len() && s2[m] == s1[0];
        assert(rank_le(s2[0], s1[0])) by {
            if m != 0 {
                assert(rank_le(s2[0], s2[m]));
            }
        }
        lemma_rank_le_antisym_ids(s1[0], s2[0]);
        assert(s1[k].id == s1[0].id);
        assert(k == 0);
        assert(s1[0] == s2[0]);
        // Strip the shared head and recurse.
        let t1 = s1.drop_first();
        let t2 = s2.drop_first();
        assert(t1 =~= s1.remove(0));
        assert(t2 =~= s2.remove(0));
        assert(t1.to_multiset() == s1.to_multiset().remove(s1[0]));
        assert(t2.to_multiset() == s2.to_multiset().remove(s2[0]));
        assert(results_sorted(t1)) by {
            assert forall|i: int, j: int| 0 <= i < j < t1.len() implies rank_le(t1[i], t1[j]) by {
                assert(rank_le(s1[i + 1], s1[j + 1]));
            }
        }
        assert(results_sorted(t2)) by {
            assert forall|i: int, j: int| 0 <= i < j < t2.len() implies rank_le(t2[i], t2[j]) by {
                assert(rank_le(s2[i + 1], s2[j + 1]));
            }
        }
        assert(distinct_result_ids(t1)) by {
            assert forall|i: int, j: int| 0 <= i < j < t1.len() implies t1[i].id != t1[j].id by {
                assert(s1[i + 1].id != s1[j + 1].id);
            }
        }
        lemma_ranking_deterministic(t1, t2);
        assert(s1 =~= s2) by {
            assert forall|i: int| 0 <= i < s1.len() implies s1[i] == s2[i] by {
                if i > 0 {
                    assert(t1[i - 1] == t2[i - 1]);
                }
            }
        }
    }
}

/// A station with no matching trip is absent from the report: no score of
/// an evaluation's output carries its id.
pub proof fn lemma_empty_station_excluded(
    entries: Seq<(Station, StationData)>,
    filter: ProductType,
    out: Seq<EvalResult>,
    i: int,
)
    requires
        out.to_multiset() == scored(entries, filter).to_multiset(),
        distinct_entry_ids(entries),
        0 <= i < entries.len(),
        matching_count(entries[i].1.trips@, filter) == 0,
    ensures
        forall|j: int| 0 <= j < out.len() ==> out[j].id != entries[i].0.id,
{
    broadcast use vstd::seq_lib::group_to_multiset_ensures;

    let s = scored(entries, filter);
    lemma_scored_sources(entries, filter);
    assert forall|j: int| 0 <= j < out.len() implies out[j].id != entries[i].0.id by {
        if out[j].id == entries[i].0.id {
            assert(s.to_multiset().contains(out[j])) by {
                assert(out.contains(out[j]));
            }
            let jj = choose|jj: int| 0 <= jj < s.len() && s[jj] == out[j];
            let a = choose|a: int|
                0 <= a < entries.len() && #[trigger] s[jj].id == entries[a].0.id && matching_count(
                    entries[a].1.trips@,
                    filter,
                ) > 0;
            // The source station carries the same id as station `i`, and
            // ids are distinct, so it is station `i` — whose matching
            // count is zero.
            assert(a == i);
            assert(false);
        }
    }
}

} // verus!
