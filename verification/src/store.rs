//! The vector store: an append-only collection of vectors with an optional
//! clustering index.
//!
//! Vectors are stored as sequences of 32-bit float bit patterns; the
//! embedding layer normalizes a vector before handing it in, so the stored
//! form is what every later score is computed against. Ids are dense and
//! equal to insertion order. Adding a vector discards any existing index;
//! search falls back to scanning every id until the index is rebuilt.

use vstd::prelude::*;

use crate::errors::VectorDBError;
use crate::ivf::{spec_query_candidates, IVFIndex};
use crate::ivf::plan_training;

verus! {

/// The dense id sequence `0, 1, ..., n - 1`: every stored vector's id.
pub open spec fn id_range(n: int) -> Seq<usize> {
    Seq::new(n as nat, |i: int| i as usize)
}

/// The vector store.
pub struct VectorDB {
    /// The stored vectors, as component bit patterns, indexed by id.
    pub vectors: Vec<Vec<u32>>,
    /// The current clustering index, if one has been built since the last
    /// insertion.
    pub index: Option<IVFIndex>,
}

impl VectorDB {
    /// The number of stored vectors.
    pub open spec fn spec_len(self) -> int {
        self.vectors@.len() as int
    }

    /// The stored vectors as sequences of bit patterns.
    pub open spec fn spec_vectors(self) -> Seq<Seq<u32>> {
        crate::ivf::views_of(self.vectors@)
    }

    /// The cluster count of the current index, if any.
    pub open spec fn spec_num_clusters(self) -> Option<int> {
        match self.index {
            Some(ivf) => Some(ivf.spec_num_clusters()),
            None => None,
        }
    }

    /// Well-formedness: any installed index is itself well formed and was
    /// trained over exactly the vectors that are stored now.
    pub open spec fn wf(self) -> bool {
        match self.index {
            Some(ivf) => ivf.wf() && ivf.spec_num_points() == self.vectors@.len(),
            None => true,
        }
    }

    /// Creates an empty store with no index.
    pub fn new() -> (r: VectorDB)
        ensures
            r.vectors@.len() == 0,
            r.index is None,
            r.wf(),
    {
        VectorDB { vectors: Vec::new(), index: None }
    }

    /// Appends a vector in its stored form and returns its id, which equals
    /// the prior count. Never fails. Any existing index is discarded, since
    /// it no longer partitions the full id range; the next search scans
    /// every vector until the index is rebuilt.
    pub fn add(&mut self, vector: Vec<u32>) -> (id: usize)
        ensures
            id == old(self).vectors@.len(),
            final(self).vectors@ == old(self).vectors@.push(vector),
            final(self).index is None,
            final(self).wf(),
    {
        if self.index.is_some() {
            self.index = None;
        }
        let id = self.vectors.len();
        self.vectors.push(vector);
        id
    }

    /// The number of stored vectors.
    pub fn len(&self) -> (r: usize)
        ensures
            r as int == self.spec_len(),
    {
        self.vectors.len()
    }

    /// Whether the store holds no vectors.
    pub fn is_empty(&self) -> (r: bool)
        ensures
            r == (self.spec_len() == 0),
    {
        self.vectors.len() == 0
    }

    /// The cluster count of the current index, or `None` without one.
    pub fn num_clusters(&self) -> (r: Option<usize>)
        ensures
            match r {
                Some(c) => self.spec_num_clusters() == Some(c as int),
                None => self.spec_num_clusters() is None,
            },
    {
        match &self.index {
            Some(ivf) => Some(ivf.num_clusters()),
            None => None,
        }
    }

    /// Validates an index build over the current contents and draws the
    /// initial centroid ids; the store itself is untouched. Fails with
    /// `EmptyDataSet` on an empty store and with `InvalidClusterCount` when
    /// `num_clusters` is zero or exceeds the vector count.
    pub fn plan_index_build(&self, num_clusters: usize, seed: u64) -> (r: Result<
        Vec<usize>,
        VectorDBError,
    >)
        ensures
            self.spec_len() == 0 ==> r == Err::<Vec<usize>, VectorDBError>(
                VectorDBError::EmptyDataSet,
            ),
            self.spec_len() > 0 && (num_clusters == 0 || num_clusters > self.spec_len()) ==> r
                == Err::<Vec<usize>, VectorDBError>(VectorDBError::InvalidClusterCount),
            (r matches Ok(_)) <==> (0 < num_clusters <= self.spec_len()),
            r matches Ok(ids) ==> {
                &&& ids@.len() == num_clusters
                &&& forall|i: int| 0 <= i < ids@.len() ==> (#[trigger] ids@[i]) < self.spec_len()
                &&& forall|i: int, j: int| 0 <= i < j < ids@.len() ==> ids@[i] != ids@[j]
            },
    {
        plan_training(self.vectors.len(), num_clusters, seed)
    }

    /// The stored vectors with the given ids, copied out — the initial
    /// centroids of a training run, drawn by `plan_index_build`.
    pub fn initial_centroids(&self, ids: &Vec<usize>) -> (r: Vec<Vec<u32>>)
        requires
            forall|i: int| 0 <= i < ids@.len() ==> (#[trigger] ids@[i]) < self.spec_len(),
        ensures
            r@.len() == ids@.len(),
            forall|i: int|
                0 <= i < r@.len() ==> (#[trigger] r@[i])@ == self.spec_vectors()[ids@[i] as int],
    {
        let mut out: Vec<Vec<u32>> = Vec::new();
        let mut i: usize = 0;
        while i < ids.len()
            invariant
                i <= ids@.len(),
                out@.len() == i as int,
                forall|p: int| 0 <= p < ids@.len() ==> (#[trigger] ids@[p]) < self.spec_len(),
                forall|p: int|
                    0 <= p < i ==> (#[trigger] out@[p])@ == self.spec_vectors()[ids@[p] as int],
            decreases ids@.len() - i,
        {
            let id = ids[i];
            let stored = &self.vectors[id];
            let mut copy: Vec<u32> = Vec::new();
            let mut q: usize = 0;
            while q < stored.len()
                invariant
                    q <= stored@.len(),
                    copy@ =~= stored@.subrange(0, q as int),
                decreases stored@.len() - q,
            {
                copy.push(stored[q]);
                q += 1;
            }
            proof {
                assert(copy@ =~= stored@);
            }
            out.push(copy);
            i += 1;
        }
        out
    }

    /// A borrow of the stored vector with the given id.
    pub fn vector_at(&self, id: usize) -> (r: &Vec<u32>)
        requires
            id < self.spec_len(),
        ensures
            r@ == self.spec_vectors()[id as int],
    {
        &self.vectors[id]
    }

    /// Installs a freshly trained index, replacing any previous one. Fails —
    /// leaving the store unchanged — only when the index was not trained
    /// over exactly the stored vectors, which no correct build run produces.
    pub fn install_index(&mut self, index: IVFIndex) -> (r: Result<(), VectorDBError>)
        requires
            index.wf(),
        ensures
            (r matches Ok(_)) <==> index.spec_num_points() == old(self).vectors@.len(),
            r matches Ok(_) ==> {
                &&& final(self).index == Some(index)
                &&& final(self).vectors@ == old(self).vectors@
                &&& final(self).wf()
            },
            r matches Err(e) ==> *final(self) == *old(self) && e
                matches VectorDBError::InternalError(_),
    {
        if index.num_points() != self.vectors.len() {
            return Err(
                VectorDBError::InternalError(
                    <String as vstd::string::StringExecFns>::from_str(
                        "index does not cover the stored vectors",
                    ),
                ),
            );
        }
        self.index = Some(index);
        Ok(())
    }

    /// The candidate ids a search scores: with an index, the inverted lists
    /// of the `nprobe` best clusters for the given centroid scores, in rank
    /// order; without one, every stored id in ascending order.
    pub fn search_candidates(&self, centroid_score_bits: &Vec<u32>, nprobe: usize) -> (r: Vec<
        usize,
    >)
        requires
            self.wf(),
            match self.index {
                Some(ivf) => centroid_score_bits@.len() == ivf.spec_num_clusters(),
                None => true,
            },
        ensures
            r@ == spec_search_candidates(*self, centroid_score_bits@, nprobe as int),
    {
        match &self.index {
            Some(ivf) => ivf.query(centroid_score_bits, nprobe),
            None => {
                let n = self.vectors.len();
                let mut out: Vec<usize> = Vec::new();
                let mut i: usize = 0;
                while i < n
                    invariant
                        i <= n,
                        out@ =~= id_range(n as int).subrange(0, i as int),
                    decreases n - i,
                {
                    out.push(i);
                    i += 1;
                }
                proof {
                    assert(out@ =~= id_range(n as int));
                }
                out
            },
        }
    }
}

/// What `search_candidates` returns: the index's probe concatenation when an
/// index is installed, and the full id range otherwise.
pub open spec fn spec_search_candidates(db: VectorDB, bits: Seq<u32>, nprobe: int) -> Seq<usize> {
    match db.index {
        Some(ivf) => spec_query_candidates(ivf, bits, nprobe),
        None => id_range(db.spec_len()),
    }
}

impl Default for VectorDB {
    /// Creates an empty store with no index.
    fn default() -> (r: VectorDB)
        ensures
            r.vectors@.len() == 0,
            r.index is None,
            r.wf(),
    {
        VectorDB::new()
    }
}

} // verus!
