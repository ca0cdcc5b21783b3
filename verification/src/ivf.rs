//! The clustering (inverted-file) index.
//!
//! A trained index holds one centroid per cluster and an inverted file that
//! partitions the vector ids `[0, n)` that were present at training time:
//! every id appears in exactly one cluster's list, and each list keeps
//! ascending id order. The index is immutable once built.
//!
//! Training is driven by the caller, who owns the floating-point kernel: the
//! caller scores points against centroids and hands the scores to this module
//! as bit patterns. Everything that decides lives here behind contracts —
//! validation, the seeded draw of the initial centroid ids (a trusted call
//! into rand), assignment of points to centroids, change detection and the
//! construction of the inverted file.

use vstd::prelude::*;

use crate::errors::VectorDBError;
use crate::rank::{spec_sort_key, sort_key, SearchResult, spec_top_k, top_k};
use vstd::string::StringExecFns;

verus! {

/// The views of a list of bit-pattern vectors, in order.
pub open spec fn views_of(vs: Seq<Vec<u32>>) -> Seq<Seq<u32>> {
    vs.map_values(|v: Vec<u32>| v@)
}

/// The ids assigned to cluster `c`, in ascending order: every `i` with
/// `assignment[i] == c`.
pub open spec fn filter_ids(assignment: Seq<usize>, c: int) -> Seq<usize>
    decreases assignment.len(),
{
    if assignment.len() == 0 {
        Seq::empty()
    } else if assignment.last() as int == c {
        filter_ids(assignment.drop_last(), c).push((assignment.len() - 1) as usize)
    } else {
        filter_ids(assignment.drop_last(), c)
    }
}

/// A trained clustering index: centroids (as sequences of float bit
/// patterns) and the inverted file, together with the assignment that the
/// inverted file was built from.
pub struct IVFIndex {
    /// One centroid per cluster, as component bit patterns.
    pub centroids: Vec<Vec<u32>>,
    /// For each cluster, the ids assigned to it, in ascending order.
    pub inverted_file: Vec<Vec<usize>>,
    /// The final training assignment the inverted file was built from; its
    /// length is the number of vectors present at training time, and it is
    /// what persistence writes out.
    pub assignment: Vec<usize>,
}

impl IVFIndex {
    /// The number of clusters.
    pub open spec fn spec_num_clusters(self) -> int {
        self.centroids@.len() as int
    }

    /// The number of vectors that were present at training time.
    pub open spec fn spec_num_points(self) -> int {
        self.assignment@.len() as int
    }

    /// The cluster each trained vector id is assigned to.
    pub open spec fn spec_assignment(self) -> Seq<usize> {
        self.assignment@
    }

    /// The centroids, component bit patterns in order.
    pub open spec fn spec_centroids(self) -> Seq<Seq<u32>> {
        views_of(self.centroids@)
    }

    /// The inverted file: for each cluster, the ids assigned to it.
    pub open spec fn spec_inverted(self) -> Seq<Seq<usize>> {
        self.inverted_file@.map_values(|v: Vec<usize>| v@)
    }

    /// Well-formedness: at least one cluster, one inverted list per cluster,
    /// every id assigned to an existing cluster, and each inverted list
    /// holding exactly the ids assigned to its cluster, in ascending order.
    pub open spec fn wf(self) -> bool {
        &&& self.centroids@.len() >= 1
        &&& self.inverted_file@.len() == self.centroids@.len()
        &&& forall|i: int|
            0 <= i < self.assignment@.len() ==> (#[trigger] self.assignment@[i]) < self.centroids@.len()
        &&& forall|c: int|
            0 <= c < self.inverted_file@.len() ==> (#[trigger] self.inverted_file@[c])@
                == filter_ids(self.assignment@, c)
    }

    /// Builds the index from its final assignment: cluster `c`'s list holds
    /// exactly the ids assigned to `c`, in ascending order. Fails only when
    /// the assignment speaks of a cluster that has no centroid, which no
    /// correct training run produces.
    pub fn from_assignment(centroids: Vec<Vec<u32>>, assignment: Vec<usize>) -> (r: Result<
        IVFIndex,
        VectorDBError,
    >)
        ensures
            (r matches Ok(_)) <==> (centroids@.len() >= 1 && forall|i: int|
                0 <= i < assignment@.len() ==> (#[trigger] assignment@[i]) < centroids@.len()),
            r matches Ok(ivf) ==> {
                &&& ivf.wf()
                &&& ivf.centroids@ == centroids@
                &&& ivf.spec_assignment() == assignment@
                &&& ivf.spec_num_points() == assignment@.len()
            },
            r matches Err(e) ==> e matches VectorDBError::InternalError(_),
    {
        let k = centroids.len();
        let n = assignment.len();
        if k == 0 {
            return Err(
                VectorDBError::InternalError(
                    <String as StringExecFns>::from_str("index built without any centroid"),
                ),
            );
        }
        let mut i: usize = 0;
        while i < n
            invariant
                i <= n,
                n == assignment@.len(),
                k == centroids@.len(),
                forall|p: int| 0 <= p < i ==> (#[trigger] assignment@[p]) < k,
            decreases n - i,
        {
            if assignment[i] >= k {
                assert(!(assignment@[i as int] < centroids@.len()));
                return Err(
                    VectorDBError::InternalError(
                        <String as StringExecFns>::from_str("point assigned to a cluster with no centroid"),
                    ),
                );
            }
            i += 1;
        }
        let mut inverted: Vec<Vec<usize>> = Vec::new();
        let mut c: usize = 0;
        while c < k
            invariant
                c <= k,
                n == assignment@.len(),
                inverted@.len() == c as int,
                forall|cc: int|
                    0 <= cc < c ==> (#[trigger] inverted@[cc])@ == filter_ids(assignment@, cc),
            decreases k - c,
        {
            let mut ids: Vec<usize> = Vec::new();
            let mut i: usize = 0;
            while i < n
                invariant
                    i <= n,
                    n == assignment@.len(),
                    ids@ == filter_ids(assignment@.subrange(0, i as int), c as int),
                decreases n - i,
            {
                proof {
                    lemma_filter_ids_step(assignment@, i as int, c as int);
                }
                if assignment[i] == c {
                    ids.push(i);
                }
                i += 1;
            }
            proof {
                assert(assignment@.subrange(0, n as int) =~= assignment@);
            }
            inverted.push(ids);
            c += 1;
        }
        Ok(IVFIndex { centroids, inverted_file: inverted, assignment })
    }

    /// The count of trained centroids.
    pub fn num_clusters(&self) -> (r: usize)
        ensures
            r as int == self.spec_num_clusters(),
    {
        self.centroids.len()
    }

    /// The count of vectors that were present at training time.
    pub fn num_points(&self) -> (r: usize)
        ensures
            r as int == self.spec_num_points(),
    {
        self.assignment.len()
    }

    /// The centroids, for scoring against a query.
    pub fn centroid_vectors(&self) -> (r: &Vec<Vec<u32>>)
        ensures
            r@ == self.centroids@,
    {
        &self.centroids
    }

    /// The candidate ids produced by probing: clusters are ranked by
    /// descending centroid score (ties by ascending cluster id), the top
    /// `nprobe` are selected, and their inverted lists are concatenated in
    /// that order.
    pub fn query(&self, centroid_score_bits: &Vec<u32>, nprobe: usize) -> (r: Vec<usize>)
        requires
            self.wf(),
            centroid_score_bits@.len() == self.spec_num_clusters(),
        ensures
            r@ == spec_query_candidates(*self, centroid_score_bits@, nprobe as int),
    {
        let k = self.centroids.len();
        let mut scored: Vec<SearchResult> = Vec::new();
        let mut c: usize = 0;
        while c < k
            invariant
                c <= k,
                k == centroid_score_bits@.len(),
                scored@ =~= cluster_scored(centroid_score_bits@).subrange(0, c as int),
            decreases k - c,
        {
            scored.push(SearchResult { id: c, score_bits: centroid_score_bits[c] });
            proof {
                assert(cluster_scored(centroid_score_bits@)[c as int] == (SearchResult {
                    id: c,
                    score_bits: centroid_score_bits@[c as int],
                }));
            }
            c += 1;
        }
        proof {
            assert(scored@ =~= cluster_scored(centroid_score_bits@));
        }
        let probe = top_k(&scored, nprobe);
        let ghost sel = spec_top_k(cluster_scored(centroid_score_bits@), nprobe as int);
        let mut out: Vec<usize> = Vec::new();
        let mut p: usize = 0;
        while p < probe.len()
            invariant
                p <= probe@.len(),
                probe@ == sel,
                self.wf(),
                out@ == flatten_selected(self.spec_inverted(), sel.subrange(0, p as int)),
            decreases probe@.len() - p,
        {
            let cid = probe[p].id;
            let ghost pre = out@;
            if cid < self.inverted_file.len() {
                let list = &self.inverted_file[cid];
                let mut q: usize = 0;
                while q < list.len()
                    invariant
                        q <= list@.len(),
                        list@ == self.inverted_file@[cid as int]@,
                        cid < self.inverted_file@.len(),
                        out@ == pre + list@.subrange(0, q as int),
                    decreases list@.len() - q,
                {
                    out.push(list[q]);
                    assert(out@ =~= pre + list@.subrange(0, q + 1));
                    q += 1;
                }
                proof {
                    assert(list@.subrange(0, list@.len() as int) =~= list@);
                }
            }
            proof {
                lemma_flatten_selected_push(
                    self.spec_inverted(),
                    sel.subrange(0, p as int),
                    sel[p as int],
                );
                assert(sel.subrange(0, p as int).push(sel[p as int]) =~= sel.subrange(
                    0,
                    (p + 1) as int,
                ));
            }
            p += 1;
        }
        proof {
            assert(sel.subrange(0, sel.len() as int) =~= sel);
        }
        out
    }
}

/// The centroid scores of a query, as ranked candidates: one entry per
/// cluster, carrying the cluster id and the score's bit pattern.
pub open spec fn cluster_scored(bits: Seq<u32>) -> Seq<SearchResult> {
    Seq::new(bits.len(), |i: int| SearchResult { id: i as usize, score_bits: bits[i] })
}

/// Concatenation of the inverted lists of the selected clusters, in
/// selection order; a selected cluster without a list contributes nothing.
pub open spec fn flatten_selected(inv: Seq<Seq<usize>>, sel: Seq<SearchResult>) -> Seq<usize>
    decreases sel.len(),
{
    if sel.len() == 0 {
        Seq::empty()
    } else {
        let head = if sel[0].id < inv.len() {
            inv[sel[0].id as int]
        } else {
            Seq::empty()
        };
        head + flatten_selected(inv, sel.drop_first())
    }
}

/// What `query` returns: the inverted lists of the `nprobe` best-scoring
/// clusters (descending score, ties by ascending cluster id), concatenated
/// in that order.
pub open spec fn spec_query_candidates(ivf: IVFIndex, bits: Seq<u32>, nprobe: int) -> Seq<usize> {
    flatten_selected(ivf.spec_inverted(), spec_top_k(cluster_scored(bits), nprobe))
}

/// Appending one selected cluster extends the concatenation by that
/// cluster's list.
proof fn lemma_flatten_selected_push(inv: Seq<Seq<usize>>, sel: Seq<SearchResult>, x: SearchResult)
    ensures
        flatten_selected(inv, sel.push(x)) == flatten_selected(inv, sel) + (if x.id < inv.len() {
            inv[x.id as int]
        } else {
            Seq::empty()
        }),
    decreases sel.len(),
{
    let tail = if x.id < inv.len() {
        inv[x.id as int]
    } else {
        Seq::empty()
    };
    if sel.len() == 0 {
        assert(sel.push(x).drop_first() =~= Seq::<SearchResult>::empty());
        assert(sel.push(x)[0] == x);
        assert(flatten_selected(inv, sel.push(x)) == tail + flatten_selected(
            inv,
            Seq::<SearchResult>::empty(),
        ));
        assert(tail + Seq::<usize>::empty() =~= tail);
        assert(flatten_selected(inv, sel) + tail =~= tail);
    } else {
        assert(sel.push(x).drop_first() =~= sel.drop_first().push(x));
        lemma_flatten_selected_push(inv, sel.drop_first(), x);
        let head = if sel[0].id < inv.len() {
            inv[sel[0].id as int]
        } else {
            Seq::empty()
        };
        assert(flatten_selected(inv, sel.push(x)) == head + flatten_selected(
            inv,
            sel.drop_first().push(x),
        ));
        assert(head + (flatten_selected(inv, sel.drop_first()) + tail) =~= (head
            + flatten_selected(inv, sel.drop_first())) + tail);
    }
}

/// The first best position of a row of scores: it beats every earlier
/// position strictly and at least ties with every later one.
pub open spec fn is_first_best(row: Seq<u32>, i: int) -> bool {
    &&& 0 <= i < row.len()
    &&& forall|j: int|
        0 <= j < row.len() ==> spec_sort_key(row[i]) >= spec_sort_key(#[trigger] row[j])
    &&& forall|j: int| 0 <= j < i ==> spec_sort_key(#[trigger] row[j]) < spec_sort_key(row[i])
}

/// Picks the centroid a point is assigned to: the one whose score (given as
/// float bit patterns) is highest, the lowest-numbered centroid winning ties
/// so that assignment is deterministic. Fails only when there is no centroid
/// at all, which no validated training run produces.
pub fn closest_centroid(score_bits: &Vec<u32>) -> (r: Result<usize, VectorDBError>)
    ensures
        (r matches Ok(_)) <==> score_bits@.len() > 0,
        r matches Ok(i) ==> is_first_best(score_bits@, i as int),
        r matches Err(e) ==> e matches VectorDBError::InternalError(_),
{
    if score_bits.len() == 0 {
        return Err(
            VectorDBError::InternalError(
                <String as StringExecFns>::from_str("could not determine closest centroid"),
            ),
        );
    }
    let mut best: usize = 0;
    let mut best_key = sort_key(score_bits[0]);
    let mut j: usize = 1;
    while j < score_bits.len()
        invariant
            1 <= j <= score_bits@.len(),
            best < j,
            best_key == spec_sort_key(score_bits@[best as int]),
            forall|p: int|
                0 <= p < j ==> spec_sort_key(#[trigger] score_bits@[p]) <= best_key,
            forall|p: int| 0 <= p < best ==> spec_sort_key(#[trigger] score_bits@[p]) < best_key,
        decreases score_bits@.len() - j,
    {
        let kj = sort_key(score_bits[j]);
        if kj > best_key {
            best = j;
            best_key = kj;
        }
        j += 1;
    }
    Ok(best)
}

/// One assignment pass of training: every point moves to its closest
/// centroid (first best of its score row), and the result says whether any
/// assignment changed. On failure — some score row is empty, which no
/// validated training run produces — the assignment keeps its length but may
/// be partially updated.
pub fn reassign_points(score_rows: &Vec<Vec<u32>>, assignment: &mut Vec<usize>) -> (r: Result<
    bool,
    VectorDBError,
>)
    requires
        old(assignment)@.len() == score_rows@.len(),
    ensures
        (r matches Ok(_)) <==> (forall|i: int|
            0 <= i < score_rows@.len() ==> (#[trigger] score_rows@[i])@.len() > 0),
        r matches Ok(changed) ==> {
            &&& forall|i: int|
                0 <= i < score_rows@.len() ==> is_first_best(
                    score_rows@[i]@,
                    (#[trigger] final(assignment)@[i]) as int,
                )
            &&& changed == (final(assignment)@ != old(assignment)@)
        },
        r matches Err(e) ==> e matches VectorDBError::InternalError(_),
        final(assignment)@.len() == old(assignment)@.len(),
{
    let n = score_rows.len();
    let mut changed = false;
    let mut i: usize = 0;
    while i < n
        invariant
            i <= n,
            n == score_rows@.len(),
            assignment@.len() == old(assignment)@.len() == n as int,
            forall|p: int|
                0 <= p < i ==> is_first_best(
                    score_rows@[p]@,
                    (#[trigger] assignment@[p]) as int,
                ),
            forall|p: int| i <= p < n ==> assignment@[p] == old(assignment)@[p],
            forall|p: int| 0 <= p < i ==> (#[trigger] score_rows@[p])@.len() > 0,
            !changed ==> assignment@ =~= old(assignment)@,
            changed ==> exists|p: int| 0 <= p < i && assignment@[p] != old(assignment)@[p],
        decreases n - i,
    {
        let row = &score_rows[i];
        let c = match closest_centroid(row) {
            Ok(c) => c,
            Err(e) => {
                assert(!(score_rows@[i as int]@.len() > 0));
                return Err(e);
            },
        };
        if assignment[i] != c {
            changed = true;
            assignment[i] = c;
            assert(assignment@[i as int] != old(assignment)@[i as int]);
        }
        i += 1;
    }
    proof {
        if changed {
            let p = choose|p: int| 0 <= p < n && assignment@[p] != old(assignment)@[p];
            assert(assignment@[p] != old(assignment)@[p]);
        }
    }
    Ok(changed)
}

/// Relies on rand's `seq::index::sample` over a `StdRng` seeded with
/// `seed_from_u64`: it returns exactly `amount` distinct indices drawn
/// uniformly from `0..length`, and panics only when `amount > length`,
/// which the precondition rules out.
#[verifier::external_body]
fn sample_distinct_indices(length: usize, amount: usize, seed: u64) -> (r: Vec<usize>)
    requires
        amount <= length,
    ensures
        r@.len() == amount,
        forall|i: int| 0 <= i < r@.len() ==> (#[trigger] r@[i]) < length,
        forall|i: int, j: int| 0 <= i < j < r@.len() ==> r@[i] != r@[j],
{
    let mut rng = <rand::rngs::StdRng as rand::SeedableRng>::seed_from_u64(seed);
    rand::seq::index::sample(&mut rng, length, amount).into_vec()
}

/// Validates a training request and draws the initial centroids: training
/// over `data_len` vectors fails on an empty data set or a cluster count of
/// zero or above `data_len`; otherwise it starts from `num_clusters`
/// distinct vector ids sampled with the caller's seed, so that training is
/// reproducible.
pub fn plan_training(data_len: usize, num_clusters: usize, seed: u64) -> (r: Result<
    Vec<usize>,
    VectorDBError,
>)
    ensures
        data_len == 0 ==> r == Err::<Vec<usize>, VectorDBError>(VectorDBError::EmptyDataSet),
        data_len > 0 && (num_clusters == 0 || num_clusters > data_len) ==> r == Err::<
            Vec<usize>,
            VectorDBError,
        >(VectorDBError::InvalidClusterCount),
        (r matches Ok(_)) <==> (data_len > 0 && 0 < num_clusters <= data_len),
        r matches Ok(ids) ==> {
            &&& ids@.len() == num_clusters
            &&& forall|i: int| 0 <= i < ids@.len() ==> (#[trigger] ids@[i]) < data_len
            &&& forall|i: int, j: int| 0 <= i < j < ids@.len() ==> ids@[i] != ids@[j]
        },
{
    if data_len == 0 {
        return Err(VectorDBError::EmptyDataSet);
    }
    if num_clusters == 0 || num_clusters > data_len {
        return Err(VectorDBError::InvalidClusterCount);
    }
    Ok(sample_distinct_indices(data_len, num_clusters, seed))
}

/// Extending the assignment by one point extends exactly that point's
/// cluster list.
proof fn lemma_filter_ids_step(assignment: Seq<usize>, i: int, c: int)
    requires
        0 <= i < assignment.len(),
    ensures
        filter_ids(assignment.subrange(0, i + 1), c) == if assignment[i] as int == c {
            filter_ids(assignment.subrange(0, i), c).push(i as usize)
        } else {
            filter_ids(assignment.subrange(0, i), c)
        },
{
    let s = assignment.subrange(0, i + 1);
    assert(s.drop_last() =~= assignment.subrange(0, i));
    assert(s.last() == assignment[i]);
    assert(s.len() == i + 1);
}

} // verus!
