//! Persistence: the store as a single self-describing artifact.
//!
//! The artifact is a sequence of 64-bit words — the embedding application
//! writes them to storage in little-endian byte order and reads them back.
//! Layout: the vector count; each vector as a length followed by its
//! component bit patterns; a flag word for the index; and, when an index is
//! present, the cluster count, the centroids in the same shape as the
//! vectors, and the training assignment (one cluster id per stored vector),
//! from which loading rebuilds the inverted file through the verified
//! constructor. The layout is a private contract between `encode_store` and
//! `decode_store` of the same build, not an interchange format.

use vstd::prelude::*;

use crate::errors::VectorDBError;
use crate::ivf::{filter_ids, views_of, IVFIndex};
use crate::store::VectorDB;

verus! {

/// The encoded components of one vector: each `u32` bit pattern widened to
/// a word.
pub open spec fn enc_comps(v: Seq<u32>) -> Seq<u64> {
    Seq::new(v.len(), |i: int| v[i] as u64)
}

/// One encoded vector: its length, then its components.
pub open spec fn enc_vec(v: Seq<u32>) -> Seq<u64> {
    seq![v.len() as u64] + enc_comps(v)
}

/// A list of encoded vectors, concatenated in order.
pub open spec fn enc_vec_list(vs: Seq<Seq<u32>>) -> Seq<u64>
    decreases vs.len(),
{
    if vs.len() == 0 {
        Seq::empty()
    } else {
        enc_vec(vs[0]) + enc_vec_list(vs.drop_first())
    }
}

/// An encoded id sequence: each id widened to a word.
pub open spec fn enc_ids(a: Seq<usize>) -> Seq<u64> {
    Seq::new(a.len(), |i: int| a[i] as u64)
}

/// The whole store as words: vector count, vectors, index flag, and — when
/// an index is present — cluster count, centroids and training assignment.
pub open spec fn spec_encode(db: VectorDB) -> Seq<u64> {
    seq![db.vectors@.len() as u64] + enc_vec_list(db.spec_vectors()) + (match db.index {
        None => seq![0u64],
        Some(ivf) => seq![1u64, ivf.centroids@.len() as u64] + enc_vec_list(ivf.spec_centroids())
            + enc_ids(ivf.assignment@),
    })
}

/// Appending one vector to a list extends its encoding by that vector's
/// encoding.
proof fn lemma_enc_vec_list_push(vs: Seq<Seq<u32>>, v: Seq<u32>)
    ensures
        enc_vec_list(vs.push(v)) == enc_vec_list(vs) + enc_vec(v),
    decreases vs.len(),
{
    if vs.len() == 0 {
        assert(vs.push(v).drop_first() =~= Seq::<Seq<u32>>::empty());
        assert(vs.push(v)[0] == v);
        assert(enc_vec_list(vs.push(v)) == enc_vec(v) + enc_vec_list(Seq::<Seq<u32>>::empty()));
        assert(enc_vec(v) + Seq::<u64>::empty() =~= enc_vec(v));
        assert(enc_vec_list(vs) + enc_vec(v) =~= enc_vec(v));
    } else {
        assert(vs.push(v).drop_first() =~= vs.drop_first().push(v));
        lemma_enc_vec_list_push(vs.drop_first(), v);
        assert(enc_vec_list(vs.push(v)) == enc_vec(vs[0]) + enc_vec_list(vs.drop_first().push(v)));
        assert(enc_vec(vs[0]) + (enc_vec_list(vs.drop_first()) + enc_vec(v)) =~= (enc_vec(vs[0])
            + enc_vec_list(vs.drop_first())) + enc_vec(v));
    }
}

/// Writes one vector — length, then components — onto the output.
fn push_vec(out: &mut Vec<u64>, v: &Vec<u32>)
    ensures
        final(out)@ == old(out)@ + enc_vec(v@),
{
    out.push(v.len() as u64);
    let mut q: usize = 0;
    while q < v.len()
        invariant
            q <= v@.len(),
            out@ == old(out)@ + seq![v@.len() as u64] + enc_comps(v@.subrange(0, q as int)),
        decreases v@.len() - q,
    {
        out.push(v[q] as u64);
        proof {
            assert(enc_comps(v@.subrange(0, q + 1)) =~= enc_comps(
                v@.subrange(0, q as int),
            ).push(v@[q as int] as u64));
            assert(out@ =~= old(out)@ + seq![v@.len() as u64] + enc_comps(
                v@.subrange(0, q + 1),
            ));
        }
        q += 1;
    }
    proof {
        assert(v@.subrange(0, v@.len() as int) =~= v@);
        assert(out@ =~= old(out)@ + enc_vec(v@));
    }
}

/// Writes a list of vectors onto the output.
fn push_vec_list(out: &mut Vec<u64>, vs: &Vec<Vec<u32>>)
    ensures
        final(out)@ == old(out)@ + enc_vec_list(views_of(vs@)),
{
    let mut i: usize = 0;
    while i < vs.len()
        invariant
            i <= vs@.len(),
            out@ == old(out)@ + enc_vec_list(views_of(vs@.subrange(0, i as int))),
        decreases vs@.len() - i,
    {
        push_vec(out, &vs[i]);
        proof {
            assert(views_of(vs@.subrange(0, i + 1)) =~= views_of(
                vs@.subrange(0, i as int),
            ).push(vs@[i as int]@));
            lemma_enc_vec_list_push(views_of(vs@.subrange(0, i as int)), vs@[i as int]@);
            assert(out@ =~= old(out)@ + enc_vec_list(views_of(vs@.subrange(0, i + 1))));
        }
        i += 1;
    }
    proof {
        assert(vs@.subrange(0, vs@.len() as int) =~= vs@);
    }
}

/// Encodes the whole store as its artifact words.
pub fn encode_store(db: &VectorDB) -> (r: Vec<u64>)
    ensures
        r@ == spec_encode(*db),
{
    let mut out: Vec<u64> = Vec::new();
    out.push(db.vectors.len() as u64);
    assert(out@ =~= seq![db.vectors@.len() as u64]);
    push_vec_list(&mut out, &db.vectors);
    match &db.index {
        None => {
            out.push(0u64);
            proof {
                assert(out@ =~= seq![db.vectors@.len() as u64] + enc_vec_list(db.spec_vectors())
                    + seq![0u64]);
            }
        },
        Some(ivf) => {
            out.push(1u64);
            out.push(ivf.centroids.len() as u64);
            push_vec_list(&mut out, &ivf.centroids);
            let ghost with_cents = out@;
            let mut j: usize = 0;
            while j < ivf.assignment.len()
                invariant
                    j <= ivf.assignment@.len(),
                    out@ == with_cents + enc_ids(ivf.assignment@.subrange(0, j as int)),
                decreases ivf.assignment@.len() - j,
            {
                out.push(ivf.assignment[j] as u64);
                proof {
                    assert(enc_ids(ivf.assignment@.subrange(0, j + 1)) =~= enc_ids(
                        ivf.assignment@.subrange(0, j as int),
                    ).push(ivf.assignment@[j as int] as u64));
                    assert(out@ =~= with_cents + enc_ids(ivf.assignment@.subrange(0, j + 1)));
                }
                j += 1;
            }
            proof {
                assert(ivf.assignment@.subrange(0, ivf.assignment@.len() as int)
                    =~= ivf.assignment@);
                assert(out@ =~= seq![db.vectors@.len() as u64] + enc_vec_list(db.spec_vectors())
                    + (seq![1u64, ivf.centroids@.len() as u64] + enc_vec_list(ivf.spec_centroids())
                    + enc_ids(ivf.assignment@)));
            }
        },
    }
    out
}

/// A vector-list encoding splits at any position into the encoding of the
/// prefix followed by the encoding of the rest.
proof fn lemma_enc_vec_list_split(vs: Seq<Seq<u32>>, i: int)
    requires
        0 <= i <= vs.len(),
    ensures
        enc_vec_list(vs) == enc_vec_list(vs.subrange(0, i)) + enc_vec_list(
            vs.subrange(i, vs.len() as int),
        ),
    decreases i,
{
    if i == 0 {
        assert(vs.subrange(0, 0) =~= Seq::<Seq<u32>>::empty());
        assert(vs.subrange(0, vs.len() as int) =~= vs);
        assert(Seq::<u64>::empty() + enc_vec_list(vs) =~= enc_vec_list(vs));
    } else {
        lemma_enc_vec_list_split(vs, i - 1);
        lemma_enc_vec_list_push(vs.subrange(0, i - 1), vs[i - 1]);
        assert(vs.subrange(0, i - 1).push(vs[i - 1]) =~= vs.subrange(0, i));
        let rest_long = vs.subrange(i - 1, vs.len() as int);
        let rest_short = vs.subrange(i, vs.len() as int);
        assert(rest_long.len() > 0);
        assert(rest_long[0] == vs[i - 1]);
        assert(rest_long.drop_first() =~= rest_short);
        assert(enc_vec_list(rest_long) == enc_vec(vs[i - 1]) + enc_vec_list(rest_short));
        assert((enc_vec_list(vs.subrange(0, i - 1)) + enc_vec(vs[i - 1])) + enc_vec_list(
            rest_short,
        ) =~= enc_vec_list(vs.subrange(0, i - 1)) + (enc_vec(vs[i - 1]) + enc_vec_list(
            rest_short,
        )));
    }
}

/// A common prefix cancels: equal concatenations with equal first parts
/// have equal second parts.
proof fn lemma_concat_cancel_left(p: Seq<u64>, x: Seq<u64>, y: Seq<u64>)
    requires
        p + x == p + y,
    ensures
        x == y,
{
    assert((p + x).len() == (p + y).len());
    assert(p.len() + x.len() == (p + x).len());
    assert(p.len() + y.len() == (p + y).len());
    assert(x.len() == y.len());
    assert forall|i: int| 0 <= i < x.len() implies x[i] == y[i] by {
        let j = p.len() + i;
        assert(p.len() <= j < p.len() + y.len());
        assert((p + x)[j] == x[j - p.len()]);
        assert((p + y)[j] == y[j - p.len()]);
        assert(j - p.len() == i);
    }
    assert(x =~= y);
}

/// A vector-list encoding determines the list: two encodings of lists of
/// the same count that agree as prefixes of one word sequence come from the
/// same list, and leave the same remainder.
proof fn lemma_enc_vec_list_inj(va: Seq<Seq<u32>>, vb: Seq<Seq<u32>>, ra: Seq<u64>, rb: Seq<u64>)
    requires
        va.len() == vb.len(),
        forall|i: int| 0 <= i < va.len() ==> (#[trigger] va[i]).len() <= usize::MAX,
        forall|i: int| 0 <= i < vb.len() ==> (#[trigger] vb[i]).len() <= usize::MAX,
        enc_vec_list(va) + ra == enc_vec_list(vb) + rb,
    ensures
        va == vb,
        ra == rb,
    decreases va.len(),
{
    if va.len() == 0 {
        assert(Seq::<u64>::empty() + ra =~= ra);
        assert(Seq::<u64>::empty() + rb =~= rb);
        assert(va =~= vb);
    } else {
        let a0 = va[0];
        let b0 = vb[0];
        let ta = enc_vec_list(va.drop_first()) + ra;
        let tb = enc_vec_list(vb.drop_first()) + rb;
        assert(enc_vec_list(va) + ra =~= enc_vec(a0) + ta);
        assert(enc_vec_list(vb) + rb =~= enc_vec(b0) + tb);
        let w = enc_vec(a0) + ta;
        assert(w[0] == enc_vec(a0)[0]);
        assert(enc_vec(a0)[0] == a0.len() as u64);
        assert(w == enc_vec(b0) + tb);
        assert(w[0] == enc_vec(b0)[0]);
        assert(enc_vec(b0)[0] == b0.len() as u64);
        assert(a0.len() == b0.len());
        assert(enc_vec(a0).len() == enc_vec(b0).len());
        assert forall|i: int| 0 <= i < enc_vec(a0).len() implies enc_vec(a0)[i] == enc_vec(
            b0,
        )[i] by {
            assert(w[i] == enc_vec(a0)[i]);
            assert(w[i] == enc_vec(b0)[i]);
        }
        assert(enc_vec(a0) =~= enc_vec(b0));
        lemma_concat_cancel_left(seq![a0.len() as u64], enc_comps(a0), enc_comps(b0));
        assert forall|i: int| 0 <= i < a0.len() implies a0[i] == b0[i] by {
            assert(enc_comps(a0)[i] == a0[i] as u64);
            assert(enc_comps(b0)[i] == b0[i] as u64);
        }
        assert(a0 =~= b0);
        lemma_concat_cancel_left(enc_vec(a0), ta, tb);
        lemma_enc_vec_list_inj(va.drop_first(), vb.drop_first(), ra, rb);
        assert forall|i: int| 0 <= i < va.len() implies va[i] == vb[i] by {
            if i > 0 {
                assert(va.drop_first()[i - 1] == va[i]);
                assert(vb.drop_first()[i - 1] == vb[i]);
            }
        }
        assert(va =~= vb);
    }
}

/// The encoding is injective on every part of the store a caller can
/// observe: two well-formed stores with the same artifact hold the same
/// vectors and, when indexed, the same centroids, inverted file and
/// training assignment.
pub proof fn lemma_encode_injective(a: VectorDB, b: VectorDB)
    requires
        a.wf(),
        b.wf(),
        spec_encode(a) == spec_encode(b),
    ensures
        a.spec_vectors() == b.spec_vectors(),
        a.spec_len() == b.spec_len(),
        match (a.index, b.index) {
            (None, None) => true,
            (Some(x), Some(y)) => {
                &&& x.spec_centroids() == y.spec_centroids()
                &&& x.spec_inverted() == y.spec_inverted()
                &&& x.spec_assignment() == y.spec_assignment()
            },
            _ => false,
        },
{
    vstd::std_specs::vec::axiom_spec_len(&a.vectors);
    vstd::std_specs::vec::axiom_spec_len(&b.vectors);
    let la = enc_vec_list(a.spec_vectors());
    let lb = enc_vec_list(b.spec_vectors());
    let tail_a = spec_encode_tail(a);
    let tail_b = spec_encode_tail(b);
    let w = spec_encode(a);
    assert(w =~= seq![a.vectors@.len() as u64] + (la + tail_a));
    assert(w =~= seq![b.vectors@.len() as u64] + (lb + tail_b));
    assert(w[0] == a.vectors@.len() as u64);
    assert(w[0] == b.vectors@.len() as u64);
    assert(a.vectors@.len() == b.vectors@.len());
    lemma_concat_cancel_left(seq![a.vectors@.len() as u64], la + tail_a, lb + tail_b);
    assert forall|i: int| 0 <= i < a.spec_vectors().len() implies (#[trigger] a.spec_vectors()[i]).len()
        <= usize::MAX by {
        vstd::std_specs::vec::axiom_spec_len(&a.vectors[i]);
    }
    assert forall|i: int| 0 <= i < b.spec_vectors().len() implies (#[trigger] b.spec_vectors()[i]).len()
        <= usize::MAX by {
        vstd::std_specs::vec::axiom_spec_len(&b.vectors[i]);
    }
    lemma_enc_vec_list_inj(a.spec_vectors(), b.spec_vectors(), tail_a, tail_b);
    match (a.index, b.index) {
        (None, None) => {
        },
        (Some(x), Some(y)) => {
            vstd::std_specs::vec::axiom_spec_len(&x.centroids);
            vstd::std_specs::vec::axiom_spec_len(&y.centroids);
            let ca = enc_vec_list(x.spec_centroids());
            let cb = enc_vec_list(y.spec_centroids());
            assert(tail_a =~= seq![1u64, x.centroids@.len() as u64] + (ca + enc_ids(
                x.assignment@,
            )));
            assert(tail_b =~= seq![1u64, y.centroids@.len() as u64] + (cb + enc_ids(
                y.assignment@,
            )));
            assert(tail_a[1] == x.centroids@.len() as u64);
            assert(tail_a[1] == y.centroids@.len() as u64);
            assert(x.centroids@.len() == y.centroids@.len());
            lemma_concat_cancel_left(
                seq![1u64, x.centroids@.len() as u64],
                ca + enc_ids(x.assignment@),
                cb + enc_ids(y.assignment@),
            );
            assert forall|i: int|
                0 <= i < x.spec_centroids().len() implies (#[trigger] x.spec_centroids()[i]).len()
                <= usize::MAX by {
                vstd::std_specs::vec::axiom_spec_len(&x.centroids[i]);
            }
            assert forall|i: int|
                0 <= i < y.spec_centroids().len() implies (#[trigger] y.spec_centroids()[i]).len()
                <= usize::MAX by {
                vstd::std_specs::vec::axiom_spec_len(&y.centroids[i]);
            }
            lemma_enc_vec_list_inj(
                x.spec_centroids(),
                y.spec_centroids(),
                enc_ids(x.assignment@),
                enc_ids(y.assignment@),
            );
            assert forall|i: int| 0 <= i < x.assignment@.len() implies x.assignment@[i]
                == y.assignment@[i] by {
                assert(enc_ids(x.assignment@)[i] == x.assignment@[i] as u64);
                assert(enc_ids(y.assignment@)[i] == y.assignment@[i] as u64);
            }
            assert(x.assignment@ =~= y.assignment@);
            assert forall|c: int| 0 <= c < x.spec_inverted().len() implies x.spec_inverted()[c]
                == y.spec_inverted()[c] by {
                assert(x.inverted_file@[c]@ == filter_ids(x.assignment@, c));
                assert(y.inverted_file@[c]@ == filter_ids(y.assignment@, c));
                assert(x.spec_inverted()[c] == x.inverted_file@[c]@);
                assert(y.spec_inverted()[c] == y.inverted_file@[c]@);
            }
            assert(x.spec_inverted() =~= y.spec_inverted());
        },
        (None, Some(y)) => {
            assert(tail_a[0] == 0u64);
            assert(tail_b[0] == 1u64);
        },
        (Some(x), None) => {
            assert(tail_a[0] == 1u64);
            assert(tail_b[0] == 0u64);
        },
    }
}

/// The part of the artifact after the stored vectors: the index flag and,
/// when an index is present, its payload.
pub open spec fn spec_encode_tail(db: VectorDB) -> Seq<u64> {
    match db.index {
        None => seq![0u64],
        Some(ivf) => seq![1u64, ivf.centroids@.len() as u64] + enc_vec_list(ivf.spec_centroids())
            + enc_ids(ivf.assignment@),
    }
}

/// Reads one encoded vector at `pos`, leaving `pos` just past it. When the
/// caller knows which encoded vector stands at `pos`, it passes that
/// knowledge along and the read is guaranteed to succeed and recover it.
fn read_vec(words: &Vec<u64>, pos: &mut usize, expect: Ghost<Option<(Seq<u32>, int)>>) -> (r:
    Result<Vec<u32>, VectorDBError>)
    requires
        *old(pos) <= words@.len(),
        expect@ matches Some(e) ==> {
            &&& *old(pos) <= e.1 <= words@.len()
            &&& e.0.len() <= usize::MAX
            &&& words@.subrange(*old(pos) as int, e.1) == enc_vec(e.0)
        },
    ensures
        *old(pos) <= *final(pos) <= words@.len(),
        r matches Ok(v) ==> words@.subrange(*old(pos) as int, *final(pos) as int) == enc_vec(v@),
        r matches Err(e) ==> e == VectorDBError::DecodeError,
        expect@ matches Some(e) ==> (r matches Ok(v) && v@ == e.0 && *final(pos) as int == e.1),
{
    let n_words = words.len();
    let ghost pos0 = *pos as int;
    proof {
        if let Some(e) = expect@ {
            assert(words@.subrange(pos0, e.1).len() == e.1 - pos0);
            assert(enc_comps(e.0).len() == e.0.len());
            assert(enc_vec(e.0).len() == 1 + e.0.len());
            assert(e.1 - pos0 == 1 + e.0.len());
            assert(words@.subrange(pos0, e.1)[0] == words@[pos0]);
            assert(enc_vec(e.0)[0] == e.0.len() as u64);
        }
    }
    if *pos >= n_words {
        return Err(VectorDBError::DecodeError);
    }
    let lw = words[*pos];
    if lw > usize::MAX as u64 {
        return Err(VectorDBError::DecodeError);
    }
    let l = lw as usize;
    *pos += 1;
    let mut v: Vec<u32> = Vec::new();
    let mut q: usize = 0;
    while q < l
        invariant
            q <= l,
            v@.len() == q as int,
            n_words == words@.len(),
            pos0 == *old(pos) as int,
            pos0 + 1 + q as int == *pos as int,
            *pos <= n_words,
            words@[pos0] == lw,
            lw == l as u64,
            words@.subrange(pos0 + 1, *pos as int) == enc_comps(v@),
            expect@ matches Some(e) ==> {
                &&& e.0.len() == l as int
                &&& e.1 == pos0 + 1 + l as int
                &&& e.1 <= n_words
                &&& words@.subrange(pos0, e.1) == enc_vec(e.0)
            },
        decreases l - q,
    {
        proof {
            if let Some(e) = expect@ {
                assert(words@.subrange(pos0, e.1)[1 + q as int] == words@[pos0 + 1 + q]);
                assert(enc_vec(e.0)[1 + q as int] == enc_comps(e.0)[q as int]);
                assert(enc_comps(e.0)[q as int] == e.0[q as int] as u64);
            }
        }
        if *pos >= n_words {
            return Err(VectorDBError::DecodeError);
        }
        let w = words[*pos];
        if w > 0xffff_ffffu64 {
            return Err(VectorDBError::DecodeError);
        }
        v.push(w as u32);
        *pos += 1;
        proof {
            assert(enc_comps(v@) =~= words@.subrange(pos0 + 1, *pos as int));
        }
        q += 1;
    }
    proof {
        assert(words@.subrange(pos0, *pos as int) =~= seq![l as u64] + enc_comps(v@));
        assert(v@.len() as u64 == l as u64);
        assert(words@.subrange(pos0, *pos as int) =~= enc_vec(v@));
        if let Some(e) = expect@ {
            assert(*pos as int == e.1);
            assert forall|i: int| 0 <= i < v@.len() implies v@[i] == e.0[i] by {
                assert(words@.subrange(pos0, e.1)[1 + i] == words@[pos0 + 1 + i]);
                assert(enc_vec(e.0)[1 + i] == e.0[i] as u64);
                assert(words@.subrange(pos0 + 1, *pos as int)[i] == words@[pos0 + 1 + i]);
                assert(enc_comps(v@)[i] == v@[i] as u64);
            }
            assert(v@ =~= e.0);
        }
    }
    Ok(v)
}

/// Reads `count` encoded vectors at `pos`, leaving `pos` just past them.
/// When the caller knows which encoded list stands at `pos`, it passes that
/// knowledge along and the read is guaranteed to succeed and recover it.
fn read_vec_list(
    words: &Vec<u64>,
    pos: &mut usize,
    count: usize,
    expect: Ghost<Option<(Seq<Seq<u32>>, int)>>,
) -> (r: Result<Vec<Vec<u32>>, VectorDBError>)
    requires
        *old(pos) <= words@.len(),
        expect@ matches Some(e) ==> {
            &&& e.0.len() == count as int
            &&& *old(pos) <= e.1 <= words@.len()
            &&& forall|i: int| 0 <= i < e.0.len() ==> (#[trigger] e.0[i]).len() <= usize::MAX
            &&& words@.subrange(*old(pos) as int, e.1) == enc_vec_list(e.0)
        },
    ensures
        *old(pos) <= *final(pos) <= words@.len(),
        r matches Ok(vs) ==> vs@.len() == count && words@.subrange(
            *old(pos) as int,
            *final(pos) as int,
        ) == enc_vec_list(views_of(vs@)),
        r matches Err(e) ==> e == VectorDBError::DecodeError,
        expect@ matches Some(e) ==> (r matches Ok(vs) && views_of(vs@) == e.0 && *final(pos) as int
            == e.1),
{
    let ghost pos0 = *pos as int;
    let mut vs: Vec<Vec<u32>> = Vec::new();
    let mut i: usize = 0;
    while i < count
        invariant
            i <= count,
            vs@.len() == i as int,
            pos0 == *old(pos) as int,
            pos0 <= *pos as int <= words@.len(),
            words@.subrange(pos0, *pos as int) == enc_vec_list(views_of(vs@)),
            expect@ matches Some(e) ==> {
                &&& e.0.len() == count as int
                &&& pos0 <= e.1 <= words@.len()
                &&& forall|p: int| 0 <= p < e.0.len() ==> (#[trigger] e.0[p]).len() <= usize::MAX
                &&& words@.subrange(pos0, e.1) == enc_vec_list(e.0)
                &&& views_of(vs@) == e.0.subrange(0, i as int)
            },
        decreases count - i,
    {
        let ghost before = *pos as int;
        let ghost pre_vs = vs@;
        let ghost inner: Option<(Seq<u32>, int)> = match expect@ {
            Some(e) => Some(
                (e.0[i as int], *pos as int + enc_vec(e.0[i as int]).len() as int),
            ),
            None => None,
        };
        proof {
            if let Some(e) = expect@ {
                lemma_enc_vec_list_split(e.0, i as int);
                let prefix = e.0.subrange(0, i as int);
                let suffix = e.0.subrange(i as int, e.0.len() as int);
                assert(suffix.len() > 0);
                assert(suffix[0] == e.0[i as int]);
                assert(enc_vec_list(suffix) == enc_vec(e.0[i as int]) + enc_vec_list(
                    suffix.drop_first(),
                ));
                assert(words@.subrange(pos0, e.1) =~= words@.subrange(pos0, before)
                    + words@.subrange(before, e.1));
                assert(enc_vec_list(prefix).len() == before - pos0);
                lemma_concat_cancel_left(
                    enc_vec_list(prefix),
                    words@.subrange(before, e.1),
                    enc_vec_list(suffix),
                );
                let li = enc_vec(e.0[i as int]).len() as int;
                assert(before + li <= e.1);
                assert(words@.subrange(before, e.1) =~= words@.subrange(before, before + li)
                    + words@.subrange(before + li, e.1));
                assert forall|j: int|
                    0 <= j < li implies words@.subrange(before, before + li)[j] == enc_vec(
                    e.0[i as int],
                )[j] by {
                    assert(words@.subrange(before, e.1)[j] == words@.subrange(
                        before,
                        before + li,
                    )[j]);
                    assert((enc_vec(e.0[i as int]) + enc_vec_list(suffix.drop_first()))[j]
                        == enc_vec(e.0[i as int])[j]);
                }
                assert(words@.subrange(before, before + li) =~= enc_vec(e.0[i as int]));
            }
        }
        let v = match read_vec(words, pos, Ghost(inner)) {
            Ok(v) => v,
            Err(e) => {
                proof {
                    if expect@ is Some {
                        assert(false);
                    }
                }
                return Err(e);
            },
        };
        vs.push(v);
        proof {
            assert(vs@ == pre_vs.push(v));
            assert(views_of(vs@) =~= views_of(pre_vs).push(v@));
            lemma_enc_vec_list_push(views_of(pre_vs), v@);
            assert(words@.subrange(pos0, *pos as int) =~= words@.subrange(pos0, before)
                + words@.subrange(before, *pos as int));
            assert(words@.subrange(pos0, *pos as int) =~= enc_vec_list(views_of(pre_vs)) + enc_vec(
                v@,
            ));
            if let Some(e) = expect@ {
                assert(views_of(vs@) =~= e.0.subrange(0, i + 1));
            }
        }
        i += 1;
    }
    proof {
        if let Some(e) = expect@ {
            assert(e.0.subrange(0, count as int) =~= e.0);
            assert(views_of(vs@) == e.0);
            assert(enc_vec_list(views_of(vs@)).len() == *pos as int - pos0);
            assert(enc_vec_list(e.0).len() == e.1 - pos0);
        }
    }
    Ok(vs)
}

/// Reads `count` encoded ids below `limit` at `pos`, leaving `pos` just
/// past them. When the caller knows which ids stand at `pos`, it passes
/// that knowledge along and the read is guaranteed to succeed and recover
/// them.
fn read_ids(
    words: &Vec<u64>,
    pos: &mut usize,
    count: usize,
    limit: usize,
    expect: Ghost<Option<Seq<usize>>>,
) -> (r: Result<Vec<usize>, VectorDBError>)
    requires
        *old(pos) <= words@.len(),
        expect@ matches Some(e) ==> {
            &&& e.len() == count as int
            &&& *old(pos) + count as int <= words@.len()
            &&& forall|i: int| 0 <= i < e.len() ==> (#[trigger] e[i]) < limit
            &&& words@.subrange(*old(pos) as int, *old(pos) + count as int) == enc_ids(e)
        },
    ensures
        *old(pos) <= *final(pos) <= words@.len(),
        r matches Ok(a) ==> {
            &&& a@.len() == count
            &&& forall|i: int| 0 <= i < a@.len() ==> (#[trigger] a@[i]) < limit
            &&& words@.subrange(*old(pos) as int, *final(pos) as int) == enc_ids(a@)
        },
        r matches Err(e) ==> e == VectorDBError::DecodeError,
        expect@ matches Some(e) ==> (r matches Ok(a) && a@ == e && *final(pos) as int == *old(pos)
            + count as int),
{
    let n_words = words.len();
    let ghost pos0 = *pos as int;
    let mut a: Vec<usize> = Vec::new();
    let mut i: usize = 0;
    while i < count
        invariant
            i <= count,
            a@.len() == i as int,
            n_words == words@.len(),
            pos0 == *old(pos) as int,
            pos0 <= *pos as int <= words@.len(),
            pos0 + i as int == *pos as int,
            forall|p: int| 0 <= p < a@.len() ==> (#[trigger] a@[p]) < limit,
            words@.subrange(pos0, *pos as int) == enc_ids(a@),
            expect@ matches Some(e) ==> {
                &&& e.len() == count as int
                &&& pos0 + count as int <= n_words
                &&& forall|p: int| 0 <= p < e.len() ==> (#[trigger] e[p]) < limit
                &&& words@.subrange(pos0, pos0 + count as int) == enc_ids(e)
                &&& a@ == e.subrange(0, i as int)
            },
        decreases count - i,
    {
        proof {
            if let Some(e) = expect@ {
                assert(words@.subrange(pos0, pos0 + count as int)[i as int] == words@[pos0
                    + i as int]);
                assert(enc_ids(e)[i as int] == e[i as int] as u64);
            }
        }
        if *pos >= n_words {
            return Err(VectorDBError::DecodeError);
        }
        let w = words[*pos];
        if w > usize::MAX as u64 {
            return Err(VectorDBError::DecodeError);
        }
        let id = w as usize;
        if id >= limit {
            return Err(VectorDBError::DecodeError);
        }
        a.push(id);
        *pos += 1;
        proof {
            assert(enc_ids(a@) =~= words@.subrange(pos0, *pos as int));
            if let Some(e) = expect@ {
                assert(a@ =~= e.subrange(0, i + 1));
            }
        }
        i += 1;
    }
    proof {
        if let Some(e) = expect@ {
            assert(e.subrange(0, count as int) =~= e);
        }
    }
    Ok(a)
}

/// Decodes an artifact back into a store. Every accepted artifact decodes
/// to a well-formed store that encodes back to exactly the given words, so
/// whatever `decode_store` accepts is faithful to what `encode_store`
/// wrote.
/// Decodes an artifact back into a store. Decoding is exact in both
/// directions: every accepted artifact decodes to a well-formed store that
/// encodes back to exactly the given words, and every artifact that some
/// well-formed store encodes to is accepted.
#[verifier::rlimit(100)]
pub fn decode_store(words: &Vec<u64>) -> (r: Result<VectorDB, VectorDBError>)
    ensures
        r matches Ok(db) ==> db.wf() && spec_encode(db) == words@,
        r matches Err(e) ==> e == VectorDBError::DecodeError,
        (exists|db: VectorDB| db.wf() && #[trigger] spec_encode(db) == words@) ==> r matches Ok(_),
{
    let ghost has_w = exists|db: VectorDB| db.wf() && #[trigger] spec_encode(db) == words@;
    let ghost w: VectorDB = if has_w {
        choose|db: VectorDB| db.wf() && #[trigger] spec_encode(db) == words@
    } else {
        vstd::pervasive::arbitrary()
    };
    let ghost w_count = w.vectors@.len() as int;
    let ghost lv = enc_vec_list(w.spec_vectors());
    let ghost tail = spec_encode_tail(w);
    proof {
        if has_w {
            vstd::std_specs::vec::axiom_spec_len(&w.vectors);
            assert(words@ =~= (seq![w.vectors@.len() as u64] + lv) + tail);
            assert(words@.len() == 1 + lv.len() + tail.len());
            assert(tail.len() >= 1);
            assert(words@[0] == w.vectors@.len() as u64);
        }
    }
    let n_words = words.len();
    let mut pos: usize = 0;
    if n_words == 0 {
        return Err(VectorDBError::DecodeError);
    }
    let nw = words[0];
    if nw > usize::MAX as u64 {
        return Err(VectorDBError::DecodeError);
    }
    let n = nw as usize;
    pos = 1;
    let ghost vec_expect: Option<(Seq<Seq<u32>>, int)> = if has_w {
        Some((w.spec_vectors(), 1 + lv.len() as int))
    } else {
        None
    };
    proof {
        if has_w {
            assert(n as int == w_count);
            assert(w.spec_vectors().len() == w_count);
            assert forall|i: int|
                0 <= i < w.spec_vectors().len() implies (#[trigger] w.spec_vectors()[i]).len()
                <= usize::MAX by {
                vstd::std_specs::vec::axiom_spec_len(&w.vectors[i]);
            }
            assert forall|j: int| 0 <= j < lv.len() implies words@.subrange(
                1,
                1 + lv.len() as int,
            )[j] == lv[j] by {
                assert(words@[1 + j] == ((seq![w.vectors@.len() as u64] + lv) + tail)[1 + j]);
                assert(((seq![w.vectors@.len() as u64] + lv) + tail)[1 + j] == (seq![
                    w.vectors@.len() as u64,
                ] + lv)[1 + j]);
            }
            assert(words@.subrange(1, 1 + lv.len() as int) =~= lv);
        }
    }
    let vectors = match read_vec_list(words, &mut pos, n, Ghost(vec_expect)) {
        Ok(vs) => vs,
        Err(e) => {
            proof {
                if has_w {
                    assert(false);
                }
            }
            return Err(e);
        },
    };
    let ghost after_vecs = pos as int;
    proof {
        if has_w {
            assert(after_vecs == 1 + lv.len());
            assert forall|j: int| 0 <= j < tail.len() implies words@[after_vecs + j] == tail[j] by {
                assert(words@[after_vecs + j] == ((seq![w.vectors@.len() as u64] + lv) + tail)[
                    after_vecs + j]);
            }
        }
    }
    if pos >= n_words {
        return Err(VectorDBError::DecodeError);
    }
    let flag = words[pos];
    pos += 1;
    if flag == 0 {
        proof {
            if has_w {
                if w.index is Some {
                    assert(tail[0] == 1u64);
                    assert(false);
                }
                assert(tail =~= seq![0u64]);
            }
        }
        if pos != n_words {
            return Err(VectorDBError::DecodeError);
        }
        let db = VectorDB { vectors, index: None };
        proof {
            assert(words@ =~= words@.subrange(0, 1) + words@.subrange(1, after_vecs)
                + words@.subrange(after_vecs, n_words as int));
            assert(words@.subrange(0, 1) =~= seq![n as u64]);
            assert(words@.subrange(after_vecs, n_words as int) =~= seq![0u64]);
            assert(spec_encode(db) == words@);
        }
        return Ok(db);
    }
    if flag != 1 {
        proof {
            if has_w {
                assert(tail[0] == flag);
                if w.index is Some {
                    assert(tail[0] == 1u64);
                } else {
                    assert(tail =~= seq![0u64]);
                }
                assert(false);
            }
        }
        return Err(VectorDBError::DecodeError);
    }
    let ghost wivf: IVFIndex = match w.index {
        Some(ivf) => ivf,
        None => vstd::pervasive::arbitrary(),
    };
    let ghost cl = enc_vec_list(wivf.spec_centroids());
    let ghost ai = enc_ids(wivf.assignment@);
    proof {
        if has_w {
            if w.index is None {
                assert(tail =~= seq![0u64]);
                assert(false);
            }
            assert(tail =~= seq![1u64, wivf.centroids@.len() as u64] + (cl + ai));
            assert(tail.len() == 2 + cl.len() + ai.len());
            vstd::std_specs::vec::axiom_spec_len(&wivf.centroids);
            vstd::std_specs::vec::axiom_spec_len(&wivf.assignment);
            assert(tail[1] == wivf.centroids@.len() as u64);
            assert(wivf.spec_num_points() == w_count);
            assert(ai.len() == w_count);
        }
    }
    if pos >= n_words {
        return Err(VectorDBError::DecodeError);
    }
    let kw = words[pos];
    if kw > usize::MAX as u64 {
        return Err(VectorDBError::DecodeError);
    }
    let k = kw as usize;
    if k == 0 {
        proof {
            if has_w {
                assert(kw == tail[1]);
                assert(wivf.centroids@.len() >= 1);
                assert(false);
            }
        }
        return Err(VectorDBError::DecodeError);
    }
    pos += 1;
    let ghost before_cents = pos as int;
    let ghost cent_expect: Option<(Seq<Seq<u32>>, int)> = if has_w {
        Some((wivf.spec_centroids(), before_cents + cl.len() as int))
    } else {
        None
    };
    proof {
        if has_w {
            assert(kw == tail[1]);
            assert(k as int == wivf.centroids@.len());
            assert(wivf.spec_centroids().len() == k as int);
            assert forall|i: int|
                0 <= i < wivf.spec_centroids().len() implies (#[trigger] wivf.spec_centroids()[
                i]).len() <= usize::MAX by {
                vstd::std_specs::vec::axiom_spec_len(&wivf.centroids[i]);
            }
            assert(before_cents == after_vecs + 2);
            assert(before_cents + cl.len() + ai.len() == n_words);
            assert forall|j: int| 0 <= j < cl.len() implies words@.subrange(
                before_cents,
                before_cents + cl.len() as int,
            )[j] == cl[j] by {
                assert(words@[after_vecs + (2 + j)] == tail[2 + j]);
                assert(tail[2 + j] == (cl + ai)[j]);
            }
            assert(words@.subrange(before_cents, before_cents + cl.len() as int) =~= cl);
        }
    }
    let centroids = match read_vec_list(words, &mut pos, k, Ghost(cent_expect)) {
        Ok(vs) => vs,
        Err(e) => {
            proof {
                if has_w {
                    assert(false);
                }
            }
            return Err(e);
        },
    };
    let ghost after_cents = pos as int;
    let ghost ids_expect: Option<Seq<usize>> = if has_w {
        Some(wivf.assignment@)
    } else {
        None
    };
    proof {
        if has_w {
            assert(after_cents == before_cents + cl.len());
            assert(n as int == ai.len());
            assert(after_cents + n as int == n_words);
            assert forall|j: int| 0 <= j < n as int implies words@.subrange(
                after_cents,
                after_cents + n as int,
            )[j] == ai[j] by {
                assert(words@[after_vecs + (2 + cl.len() + j)] == tail[2 + cl.len() + j]);
                assert(tail[2 + cl.len() + j] == (cl + ai)[cl.len() + j]);
            }
            assert(words@.subrange(after_cents, after_cents + n as int) =~= ai);
            assert forall|i: int| 0 <= i < wivf.assignment@.len() implies (
            #[trigger] wivf.assignment@[i]) < k by {
                assert(wivf.assignment@[i] < wivf.centroids@.len());
            }
            assert forall|j: int| 0 <= j < ai.len() implies words@.subrange(
                after_cents,
                after_cents + n as int,
            )[j] == wivf.assignment@[j] as u64 by {
                assert(enc_ids(wivf.assignment@)[j] == wivf.assignment@[j] as u64);
            }
        }
    }
    let assignment = match read_ids(words, &mut pos, n, k, Ghost(ids_expect)) {
        Ok(a) => a,
        Err(e) => {
            proof {
                if has_w {
                    assert(false);
                }
            }
            return Err(e);
        },
    };
    if pos != n_words {
        proof {
            if has_w {
                assert(pos as int == after_cents + n as int);
                assert(false);
            }
        }
        return Err(VectorDBError::DecodeError);
    }
    let ghost cent_views = views_of(centroids@);
    let ghost assign_view = assignment@;
    let ivf = match IVFIndex::from_assignment(centroids, assignment) {
        Ok(ivf) => ivf,
        Err(_) => {
            proof {
                assert(false);
            }
            return Err(VectorDBError::DecodeError);
        },
    };
    let db = VectorDB { vectors, index: Some(ivf) };
    proof {
        assert(words@ =~= words@.subrange(0, 1) + words@.subrange(1, after_vecs)
            + words@.subrange(after_vecs, after_vecs + 2) + words@.subrange(
            before_cents,
            after_cents,
        ) + words@.subrange(after_cents, n_words as int));
        assert(words@.subrange(0, 1) =~= seq![n as u64]);
        assert(words@.subrange(after_vecs, after_vecs + 2) =~= seq![1u64, k as u64]);
        assert(ivf.spec_centroids() == cent_views);
        assert(ivf.assignment@ == assign_view);
        assert(ivf.centroids@.len() == k as int);
        assert(spec_encode(db) == words@);
    }
    Ok(db)
}

} // verus!
