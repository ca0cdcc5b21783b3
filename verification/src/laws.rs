//! The laws of the library: how search, indexing and persistence relate.
//!
//! Each proof function here states a property that spans several operations
//! and is proved from their contracts alone, so a caller can rely on it
//! without reading any body.

use vstd::prelude::*;

use crate::codec::spec_encode;
use crate::ivf::{cluster_scored, filter_ids, flatten_selected, spec_query_candidates, IVFIndex};
use crate::rank::{rank_order, spec_top_k, SearchResult};
use crate::store::{id_range, spec_search_candidates, VectorDB};

verus! {

/// The scored form of a candidate list: each id paired with its score under
/// the given scoring function (the dot product the embedding layer computes).
pub open spec fn scored_of(cands: Seq<usize>, score: spec_fn(usize) -> u32) -> Seq<SearchResult> {
    Seq::new(cands.len(), |i: int| SearchResult { id: cands[i], score_bits: score(cands[i]) })
}

/// Exact search: without an index, the candidates a search scores are every
/// stored id, so its ranking is exactly the brute-force top-k ranking over
/// the whole store, whatever probe arguments were passed.
pub proof fn lemma_exact_search_is_brute_force(
    db: VectorDB,
    bits: Seq<u32>,
    nprobe: int,
    score: spec_fn(usize) -> u32,
    k: int,
)
    requires
        db.index is None,
    ensures
        spec_search_candidates(db, bits, nprobe) == id_range(db.spec_len()),
        spec_top_k(scored_of(spec_search_candidates(db, bits, nprobe), score), k) == spec_top_k(
            scored_of(id_range(db.spec_len()), score),
            k,
        ),
{
}

/// Invalidation: adding a vector leaves the store without an index, so the
/// next search scans every id — the new vector's id included — whatever
/// probe arguments it is given.
pub proof fn lemma_add_invalidates_index(
    pre: VectorDB,
    post: VectorDB,
    v: Vec<u32>,
    bits: Seq<u32>,
    nprobe: int,
)
    requires
        post.vectors@ == pre.vectors@.push(v),
        post.index is None,
    ensures
        spec_search_candidates(post, bits, nprobe) == id_range(pre.spec_len() + 1),
        spec_search_candidates(post, bits, nprobe).len() == pre.spec_len() + 1,
        spec_search_candidates(post, bits, nprobe)[pre.spec_len()] == pre.spec_len() as usize,
{
    assert(post.spec_len() == pre.spec_len() + 1);
}

/// Two stores that cannot be told apart: the same vectors, and either both
/// without an index or with indexes holding the same centroids, inverted
/// file and training assignment.
pub open spec fn observably_equal(a: VectorDB, b: VectorDB) -> bool {
    &&& a.spec_vectors() == b.spec_vectors()
    &&& a.spec_len() == b.spec_len()
    &&& match (a.index, b.index) {
        (None, None) => true,
        (Some(x), Some(y)) => {
            &&& x.spec_centroids() == y.spec_centroids()
            &&& x.spec_inverted() == y.spec_inverted()
            &&& x.spec_assignment() == y.spec_assignment()
        },
        _ => false,
    }
}

/// Observably equal stores return the same search candidates for every
/// query, so they rank identically under every scoring function.
pub proof fn lemma_observably_equal_same_search(
    a: VectorDB,
    b: VectorDB,
    bits: Seq<u32>,
    nprobe: int,
)
    requires
        observably_equal(a, b),
    ensures
        spec_search_candidates(a, bits, nprobe) == spec_search_candidates(b, bits, nprobe),
{
    match (a.index, b.index) {
        (None, None) => {
            assert(id_range(a.spec_len()) == id_range(b.spec_len()));
        },
        (Some(x), Some(y)) => {
            assert(spec_query_candidates(x, bits, nprobe) == spec_query_candidates(
                y,
                bits,
                nprobe,
            ));
        },
        _ => {
            assert(false);
        },
    }
}

/// Round trip: the saved artifact determines the store. A well-formed
/// store whose artifact equals `db`'s — in particular, whatever a
/// successful decode of `db`'s artifact returns — is observably equal to
/// `db` and yields the same search candidates for every query, indexed or
/// not.
pub proof fn lemma_round_trip(db: VectorDB, loaded: VectorDB)
    requires
        db.wf(),
        loaded.wf(),
        spec_encode(loaded) == spec_encode(db),
    ensures
        observably_equal(loaded, db),
        forall|bits: Seq<u32>, nprobe: int|
            spec_search_candidates(loaded, bits, nprobe) == #[trigger] spec_search_candidates(
                db,
                bits,
                nprobe,
            ),
{
    crate::codec::lemma_encode_injective(loaded, db);
    assert forall|bits: Seq<u32>, nprobe: int|
        spec_search_candidates(loaded, bits, nprobe) == #[trigger] spec_search_candidates(
        db,
        bits,
        nprobe,
    ) by {
        lemma_observably_equal_same_search(loaded, db, bits, nprobe);
    }
}

/// How often an id occurs in one cluster's list: once when the id is
/// assigned to that cluster, never otherwise.
proof fn lemma_filter_ids_count(a: Seq<usize>, c: int, id: usize)
    requires
        a.len() <= usize::MAX,
    ensures
        filter_ids(a, c).to_multiset().count(id) == if id < a.len() && a[id as int] as int == c {
            1nat
        } else {
            0nat
        },
    decreases a.len(),
{
    broadcast use vstd::seq_lib::group_to_multiset_ensures;
    broadcast use vstd::multiset::group_multiset_axioms;

    if a.len() == 0 {
        assert(!filter_ids(a, c).contains(id));
    } else {
        let prev = a.drop_last();
        lemma_filter_ids_count(prev, c, id);
        let last_id = (a.len() - 1) as usize;
        if a.last() as int == c {
            assert(filter_ids(a, c) == filter_ids(prev, c).push(last_id));
            assert(filter_ids(prev, c).push(last_id).to_multiset() =~= filter_ids(
                prev,
                c,
            ).to_multiset().insert(last_id));
            if id == last_id {
                assert(filter_ids(prev, c).to_multiset().count(id) == 0nat);
            } else {
                if id < prev.len() {
                    assert(prev[id as int] == a[id as int]);
                }
            }
        } else {
            assert(filter_ids(a, c) == filter_ids(prev, c));
            if id == last_id {
                assert(filter_ids(prev, c).to_multiset().count(id) == 0nat);
            } else {
                if id < prev.len() {
                    assert(prev[id as int] == a[id as int]);
                }
            }
        }
    }
}

/// How often an id occurs among the concatenated lists of the selected
/// clusters: as often as its own cluster was selected.
proof fn lemma_flatten_selected_count(
    inv: Seq<Seq<usize>>,
    a: Seq<usize>,
    bits: Seq<u32>,
    sel: Seq<SearchResult>,
    x: usize,
)
    requires
        a.len() <= usize::MAX,
        forall|c: int| 0 <= c < inv.len() ==> #[trigger] inv[c] == filter_ids(a, c),
        forall|p: int|
            0 <= p < sel.len() ==> (#[trigger] sel[p]).id < inv.len() && sel[p].score_bits
                == bits[sel[p].id as int],
        forall|i: int| 0 <= i < a.len() ==> (#[trigger] a[i]) < inv.len(),
    ensures
        flatten_selected(inv, sel).to_multiset().count(x) == if x < a.len() {
            sel.to_multiset().count(
                SearchResult { id: a[x as int], score_bits: bits[a[x as int] as int] },
            )
        } else {
            0nat
        },
    decreases sel.len(),
{
    broadcast use vstd::seq_lib::group_to_multiset_ensures;
    broadcast use vstd::multiset::group_multiset_axioms;

    if sel.len() == 0 {
        assert(!flatten_selected(inv, sel).contains(x));
        if x < a.len() {
            let t = SearchResult { id: a[x as int], score_bits: bits[a[x as int] as int] };
            assert(!sel.contains(t));
        }
    } else {
        let head = inv[sel[0].id as int];
        let rest = flatten_selected(inv, sel.drop_first());
        assert(flatten_selected(inv, sel) == head + rest);
        vstd::seq_lib::lemma_multiset_commutative(head, rest);
        lemma_filter_ids_count(a, sel[0].id as int, x);
        lemma_flatten_selected_count(inv, a, bits, sel.drop_first(), x);
        assert(sel.remove(0) =~= sel.drop_first());
        assert(sel.remove(0).to_multiset() =~= sel.to_multiset().remove(sel[0]));
        assert(sel.contains(sel[0]));
        assert(sel.to_multiset().count(sel[0]) >= 1nat);
        if x < a.len() {
            let t = SearchResult { id: a[x as int], score_bits: bits[a[x as int] as int] };
            if sel[0].id == a[x as int] {
                assert(sel[0] == t);
                assert(head.to_multiset().count(x) == 1nat);
                assert(sel.drop_first().to_multiset().count(t) == sel.to_multiset().count(t)
                    - 1nat);
            } else {
                assert(sel[0] != t);
                assert(head.to_multiset().count(x) == 0nat);
                assert(sel.drop_first().to_multiset().count(t) == sel.to_multiset().count(t));
            }
        }
    }
}

/// Exhaustive probing visits every vector exactly once: with an index and
/// `nprobe` covering every cluster, the candidate ids of a query are a
/// permutation of the full id range.
pub proof fn lemma_exhaustive_probe_covers_all(ivf: IVFIndex, bits: Seq<u32>, nprobe: int)
    requires
        ivf.wf(),
        bits.len() == ivf.spec_num_clusters(),
        nprobe >= ivf.spec_num_clusters(),
    ensures
        spec_query_candidates(ivf, bits, nprobe).to_multiset() == id_range(
            ivf.spec_num_points(),
        ).to_multiset(),
{
    broadcast use vstd::seq_lib::group_to_multiset_ensures;
    broadcast use vstd::multiset::group_multiset_axioms;

    let k = ivf.spec_num_clusters();
    let n = ivf.spec_num_points();
    let a = ivf.spec_assignment();
    let inv = ivf.spec_inverted();
    let scored = cluster_scored(bits);
    let sel = spec_top_k(scored, nprobe);
    vstd::std_specs::vec::axiom_spec_len(&ivf.centroids);
    vstd::std_specs::vec::axiom_spec_len(&ivf.assignment);
    assert(bits.len() <= usize::MAX);
    assert(a.len() <= usize::MAX);
    crate::rank::lemma_rank_order_total();
    scored.lemma_sort_by_ensures(rank_order());
    let sorted = scored.sort_by(rank_order());
    assert(scored.to_multiset().len() == scored.len());
    assert(sorted.to_multiset().len() == sorted.len());
    if nprobe <= scored.len() {
        assert(nprobe == scored.len());
        assert(sel == sorted.subrange(0, nprobe));
        assert(sorted.len() == scored.len());
        assert(sorted.subrange(0, nprobe) =~= sorted);
    }
    assert(sel == sorted);
    assert(sel.to_multiset() == scored.to_multiset());
    assert(scored.no_duplicates()) by {
        assert forall|i: int, j: int|
            0 <= i < scored.len() && 0 <= j < scored.len() && i != j implies scored[i]
            != scored[j] by {
            assert(scored[i].id == i as usize);
            assert(scored[j].id == j as usize);
        }
    }
    scored.lemma_multiset_has_no_duplicates();
    assert forall|p: int|
        0 <= p < sel.len() implies (#[trigger] sel[p]).id < inv.len() && sel[p].score_bits
        == bits[sel[p].id as int] by {
        assert(sel.to_multiset().count(sel[p]) > 0nat) by {
            assert(sel.contains(sel[p]));
        }
        assert(scored.to_multiset().count(sel[p]) > 0nat);
        assert(scored.contains(sel[p]));
        let i = choose|i: int| 0 <= i < scored.len() && scored[i] == sel[p];
        assert(scored[i].id == i as usize);
        assert(scored[i].score_bits == bits[i]);
    }
    assert forall|c: int| 0 <= c < inv.len() implies #[trigger] inv[c] == filter_ids(a, c) by {
        assert(ivf.inverted_file@[c]@ == filter_ids(a, c));
    }
    let cands = spec_query_candidates(ivf, bits, nprobe);
    let ids = id_range(n);
    assert forall|i: int, j: int|
        0 <= i < ids.len() && 0 <= j < ids.len() && i != j implies ids[i] != ids[j] by {
        assert(ids[i] == i as usize);
        assert(ids[j] == j as usize);
    }
    assert(ids.no_duplicates());
    ids.lemma_multiset_has_no_duplicates();
    assert forall|x: usize| cands.to_multiset().count(x) == ids.to_multiset().count(x) by {
        lemma_flatten_selected_count(inv, a, bits, sel, x);
        if (x as int) < n {
            let c = a[x as int];
            let t = SearchResult { id: c, score_bits: bits[c as int] };
            assert(scored[c as int] == t);
            assert(scored.contains(t));
            assert(scored.to_multiset().count(t) == 1nat);
            assert(ids[x as int] == x);
            assert(ids.contains(x));
            assert(ids.to_multiset().count(x) == 1nat);
        } else {
            assert(!ids.contains(x));
            assert(ids.to_multiset().count(x) == 0nat);
        }
    }
    assert(cands.to_multiset() =~= ids.to_multiset());
}

/// Removing a candidate commutes with scoring it.
proof fn lemma_scored_of_remove(c: Seq<usize>, f: spec_fn(usize) -> u32, j: int)
    requires
        0 <= j < c.len(),
    ensures
        scored_of(c, f).remove(j) =~= scored_of(c.remove(j), f),
{
    assert forall|i: int|
        0 <= i < scored_of(c, f).remove(j).len() implies scored_of(c, f).remove(j)[i] == scored_of(
        c.remove(j),
        f,
    )[i] by {
        if i < j {
            assert(c.remove(j)[i] == c[i]);
            assert(scored_of(c, f).remove(j)[i] == scored_of(c, f)[i]);
        } else {
            assert(c.remove(j)[i] == c[i + 1]);
            assert(scored_of(c, f).remove(j)[i] == scored_of(c, f)[i + 1]);
        }
    }
}

/// Scoring respects reordering: candidate lists with equal multisets have
/// scored forms with equal multisets.
proof fn lemma_scored_of_multiset(c1: Seq<usize>, c2: Seq<usize>, f: spec_fn(usize) -> u32)
    requires
        c1.to_multiset() == c2.to_multiset(),
    ensures
        scored_of(c1, f).to_multiset() == scored_of(c2, f).to_multiset(),
    decreases c1.len(),
{
    broadcast use vstd::seq_lib::group_to_multiset_ensures;
    broadcast use vstd::multiset::group_multiset_axioms;

    assert(c1.to_multiset().len() == c1.len());
    assert(c2.to_multiset().len() == c2.len());
    if c1.len() == 0 {
        assert(scored_of(c1, f) =~= Seq::<SearchResult>::empty());
        assert(scored_of(c2, f) =~= Seq::<SearchResult>::empty());
        assert(scored_of(c1, f).to_multiset() =~= scored_of(c2, f).to_multiset());
    } else {
        let x = c1[0];
        assert(c1.contains(x));
        assert(c1.to_multiset().count(x) > 0nat);
        assert(c2.to_multiset().count(x) > 0nat);
        assert(c2.contains(x));
        let j = choose|j: int| 0 <= j < c2.len() && c2[j] == x;
        assert(c1.remove(0) =~= c1.drop_first());
        assert(c1.remove(0).to_multiset() =~= c1.to_multiset().remove(x));
        assert(c2.remove(j).to_multiset() =~= c2.to_multiset().remove(x));
        lemma_scored_of_multiset(c1.drop_first(), c2.remove(j), f);
        let t = SearchResult { id: x, score_bits: f(x) };
        lemma_scored_of_remove(c1, f, 0);
        lemma_scored_of_remove(c2, f, j);
        assert(scored_of(c1, f)[0] == t);
        assert(scored_of(c1, f).remove(0).to_multiset() =~= scored_of(c1, f).to_multiset().remove(
            t,
        ));
        assert(scored_of(c2, f)[j] == t);
        assert(scored_of(c2, f).remove(j).to_multiset() =~= scored_of(c2, f).to_multiset().remove(
            t,
        ));
        assert(scored_of(c1, f).contains(t));
        assert(scored_of(c1, f).to_multiset().count(t) > 0nat);
        assert(scored_of(c2, f).contains(t));
        assert(scored_of(c2, f).to_multiset().count(t) > 0nat);
        assert(scored_of(c1.drop_first(), f).to_multiset() == scored_of(
            c2.remove(j),
            f,
        ).to_multiset());
        let m1 = scored_of(c1, f).to_multiset();
        let m2 = scored_of(c2, f).to_multiset();
        assert(m1.remove(t) == m2.remove(t));
        assert forall|y: SearchResult| m1.count(y) == m2.count(y) by {
            assert(m1.remove(t).count(y) == m2.remove(t).count(y));
            if y == t {
                assert(m1.count(t) == m1.remove(t).count(t) + 1nat);
                assert(m2.count(t) == m2.remove(t).count(t) + 1nat);
            } else {
                assert(m1.remove(t).count(y) == m1.count(y));
                assert(m2.remove(t).count(y) == m2.count(y));
            }
        }
        assert(m1 =~= m2);
    }
}

/// Ranking sees the candidates as a collection: scored lists with equal
/// multisets produce the same top-k, whatever order they were produced in.
pub proof fn lemma_top_k_multiset_invariant(s1: Seq<SearchResult>, s2: Seq<SearchResult>, k: int)
    requires
        s1.to_multiset() == s2.to_multiset(),
    ensures
        spec_top_k(s1, k) == spec_top_k(s2, k),
{
    broadcast use vstd::seq_lib::group_to_multiset_ensures;

    crate::rank::lemma_rank_order_total();
    s1.lemma_sort_by_ensures(rank_order());
    s2.lemma_sort_by_ensures(rank_order());
    let t1 = s1.sort_by(rank_order());
    let t2 = s2.sort_by(rank_order());
    assert(s1.to_multiset().len() == s1.len());
    assert(s2.to_multiset().len() == s2.len());
    assert(t1.to_multiset().len() == t1.len());
    assert(t2.to_multiset().len() == t2.len());
    vstd::seq_lib::lemma_sorted_unique(t1, t2, rank_order());
    assert(t1 == t2);
    assert(s1.len() == s2.len());
}

/// Exhaustive probing matches exact search: once every cluster is probed,
/// an indexed search ranks exactly as the brute-force ranking over the
/// whole store, for every scoring function and every cutoff.
pub proof fn lemma_exhaustive_probe_matches_exact(
    ivf: IVFIndex,
    bits: Seq<u32>,
    nprobe: int,
    score: spec_fn(usize) -> u32,
    k: int,
)
    requires
        ivf.wf(),
        bits.len() == ivf.spec_num_clusters(),
        nprobe >= ivf.spec_num_clusters(),
    ensures
        spec_top_k(scored_of(spec_query_candidates(ivf, bits, nprobe), score), k) == spec_top_k(
            scored_of(id_range(ivf.spec_num_points()), score),
            k,
        ),
{
    lemma_exhaustive_probe_covers_all(ivf, bits, nprobe);
    lemma_scored_of_multiset(
        spec_query_candidates(ivf, bits, nprobe),
        id_range(ivf.spec_num_points()),
        score,
    );
    lemma_top_k_multiset_invariant(
        scored_of(spec_query_candidates(ivf, bits, nprobe), score),
        scored_of(id_range(ivf.spec_num_points()), score),
        k,
    );
}

} // verus!
