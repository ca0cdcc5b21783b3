//! Ranking of scored search candidates.
//!
//! Scores arrive as the raw bit patterns of 32-bit IEEE-754 floats. The
//! function `sort_key` maps such a bit pattern to an unsigned key whose
//! integer order agrees with the numeric order of the finite floats the
//! patterns denote (the sign bit is flipped for non-negative patterns, the
//! whole word is complemented for negative ones). All ranking in this crate
//! is by descending key, with ties broken by ascending vector id, which makes
//! every search result deterministic.

use vstd::prelude::*;
use vstd::relations::{sorted_by, total_ordering};

verus! {

/// One search hit: a stored vector's id together with its similarity score,
/// carried as the IEEE-754 bit pattern of the 32-bit float score.
#[derive(Clone, Copy, Debug)]
pub struct SearchResult {
    pub id: usize,
    pub score_bits: u32,
}

/// Order key of a 32-bit float bit pattern: non-negative patterns are mapped
/// into the upper half, negative patterns are reversed into the lower half.
pub open spec fn spec_sort_key(bits: u32) -> u32 {
    if bits >= 0x8000_0000 {
        (0xffff_ffffu32 - bits) as u32
    } else {
        (bits + 0x8000_0000u32) as u32
    }
}

/// Computes the order key of a score's bit pattern.
pub fn sort_key(bits: u32) -> (key: u32)
    ensures
        key == spec_sort_key(bits),
{
    if bits >= 0x8000_0000 {
        0xffff_ffff - bits
    } else {
        bits + 0x8000_0000
    }
}

/// `a` is ranked at or before `b`: higher key first, ties by ascending id.
pub open spec fn ranks_before_eq(a: SearchResult, b: SearchResult) -> bool {
    let ka = spec_sort_key(a.score_bits);
    let kb = spec_sort_key(b.score_bits);
    ka > kb || (ka == kb && a.id <= b.id)
}

/// The ranking relation as a first-class function, shared by every contract
/// that speaks of sorted results.
pub open spec fn rank_order() -> spec_fn(SearchResult, SearchResult) -> bool {
    |a: SearchResult, b: SearchResult| ranks_before_eq(a, b)
}

/// The order key is injective: two bit patterns with equal keys are equal.
pub proof fn lemma_sort_key_injective(x: u32, y: u32)
    requires
        spec_sort_key(x) == spec_sort_key(y),
    ensures
        x == y,
{
}

/// The ranking relation is a total ordering, so sorting by it has a unique
/// result for any fixed multiset of scored candidates.
pub proof fn lemma_rank_order_total()
    ensures
        total_ordering(rank_order()),
{
    let leq = rank_order();
    assert forall|a: SearchResult, b: SearchResult| #[trigger] leq(a, b) && #[trigger] leq(
        b,
        a,
    ) implies a == b by {
        lemma_sort_key_injective(a.score_bits, b.score_bits);
    }
}

/// Exact comparison used by the sorting routine.
fn ranks_at_or_before(a: &SearchResult, b: &SearchResult) -> (r: bool)
    ensures
        r == ranks_before_eq(*a, *b),
{
    let ka = sort_key(a.score_bits);
    let kb = sort_key(b.score_bits);
    ka > kb || (ka == kb && a.id <= b.id)
}

/// Whether the standalone cosine-similarity helper accepts two vectors of
/// the given lengths: exactly when the lengths are equal and nonzero. On
/// any other pair the helper reports a dimension mismatch instead of a
/// score.
pub fn cosine_inputs_valid(len_a: usize, len_b: usize) -> (ok: bool)
    ensures
        ok <==> (len_a == len_b && len_a > 0),
{
    len_a == len_b && len_a > 0
}

/// The top `k` of a scored candidate list: the candidates sorted by
/// descending score key (ties by ascending id), truncated to the first `k`.
pub open spec fn spec_top_k(scored: Seq<SearchResult>, k: int) -> Seq<SearchResult> {
    let sorted = scored.sort_by(rank_order());
    if k <= scored.len() {
        sorted.subrange(0, k)
    } else {
        sorted
    }
}

/// Sorts the scored candidates by descending score key, ties by ascending id,
/// and returns the first `k` of them (all of them when `k` exceeds the count).
pub fn top_k(scored: &Vec<SearchResult>, k: usize) -> (r: Vec<SearchResult>)
    ensures
        r@ == spec_top_k(scored@, k as int),
{
    let mut v = sort_results(scored);
    proof {
        lemma_rank_order_total();
        scored@.lemma_sort_by_ensures(rank_order());
        vstd::seq_lib::lemma_sorted_unique(v@, scored@.sort_by(rank_order()), rank_order());
        assert(v@ =~= scored@.sort_by(rank_order()));
    }
    v.truncate(k);
    assert(v@ =~= spec_top_k(scored@, k as int));
    v
}

/// Insertion sort of scored candidates under the ranking relation; returns a
/// permutation of the input that is sorted by `rank_order()`.
fn sort_results(scored: &Vec<SearchResult>) -> (r: Vec<SearchResult>)
    ensures
        r@.to_multiset() == scored@.to_multiset(),
        sorted_by(r@, rank_order()),
        r@.len() == scored@.len(),
{
    broadcast use vstd::seq_lib::group_to_multiset_ensures;

    let ghost leq = rank_order();
    let mut v: Vec<SearchResult> = Vec::new();
    let mut i: usize = 0;
    while i < scored.len()
        invariant
            i <= scored.len(),
            v@ =~= scored@.subrange(0, i as int),
        decreases scored.len() - i,
    {
        v.push(scored[i]);
        i += 1;
    }
    assert(v@ =~= scored@);
    let mut i: usize = 0;
    while i < v.len()
        invariant
            i <= v.len(),
            v@.len() == scored@.len(),
            v@.to_multiset() == scored@.to_multiset(),
            sorted_by(v@.subrange(0, i as int), leq),
            leq == rank_order(),
        decreases v.len() - i,
    {
        let mut j: usize = i;
        proof {
            assert forall|a: int, b: int| 0 <= a < b <= i && b != j implies #[trigger] leq(
                v@[a],
                v@[b],
            ) by {
                assert(v@.subrange(0, i as int)[a] == v@[a]);
                assert(v@.subrange(0, i as int)[b] == v@[b]);
            }
        }
        while j > 0
            invariant
                j <= i < v.len(),
                v@.len() == scored@.len(),
                v@.to_multiset() == scored@.to_multiset(),
                leq == rank_order(),
                forall|a: int, b: int| 0 <= a < b <= i && b != j ==> #[trigger] leq(v@[a], v@[b]),
                forall|b: int| j < b <= i ==> #[trigger] leq(v@[j as int], v@[b]),
            ensures
                j <= i < v.len(),
                v@.len() == scored@.len(),
                v@.to_multiset() == scored@.to_multiset(),
                forall|a: int, b: int| 0 <= a < b <= i && b != j ==> #[trigger] leq(v@[a], v@[b]),
                forall|b: int| j < b <= i ==> #[trigger] leq(v@[j as int], v@[b]),
                j == 0 || leq(v@[j - 1], v@[j as int]),
            decreases j,
        {
            if ranks_at_or_before(&v[j - 1], &v[j]) {
                break;
            }
            proof {
                lemma_rank_order_total();
            }
            let x = v[j];
            let y = v[j - 1];
            let ghost pre = v@;
            v[j - 1] = x;
            v[j] = y;
            proof {
                assert(v@ =~= pre.update(j - 1, pre[j as int]).update(j as int, pre[j - 1]));
                lemma_swap_multiset(pre, j - 1, j as int);
            }
            j -= 1;
        }
        proof {
            lemma_rank_order_total();
            assert forall|a: int, b: int| 0 <= a < b <= i implies #[trigger] leq(
                v@[a],
                v@[b],
            ) by {
                if b == j && a < j - 1 {
                    assert(leq(v@[a], v@[j - 1]));
                    assert(leq(v@[j - 1], v@[j as int]));
                }
            }
            assert forall|a: int, b: int|
                0 <= a < b < (i + 1) as int implies #[trigger] leq(
                v@.subrange(0, (i + 1) as int)[a],
                v@.subrange(0, (i + 1) as int)[b],
            ) by {
                assert(leq(v@[a], v@[b]));
            }
            assert(sorted_by(v@.subrange(0, (i + 1) as int), leq));
        }
        i += 1;
    }
    assert(v@.subrange(0, i as int) =~= v@);
    v
}

/// Swapping two positions of a sequence leaves its multiset unchanged.
proof fn lemma_swap_multiset(s: Seq<SearchResult>, a: int, b: int)
    requires
        0 <= a < s.len(),
        0 <= b < s.len(),
        a != b,
    ensures
        s.update(a, s[b]).update(b, s[a]).to_multiset() == s.to_multiset(),
{
    broadcast use vstd::seq_lib::group_to_multiset_ensures;
    broadcast use vstd::multiset::group_multiset_axioms;

    let s1 = s.update(a, s[b]);
    let s2 = s1.update(b, s[a]);
    assert(s.contains(s[a]));
    assert(s1.to_multiset() == s.to_multiset().insert(s[b]).remove(s[a]));
    assert(s1[b] == s[b]);
    assert(s2.to_multiset() == s1.to_multiset().insert(s[a]).remove(s1[b]));
    assert(s2.to_multiset() =~= s.to_multiset());
}

} // verus!
