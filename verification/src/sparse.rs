//! Sparse residual representation: the nonzero values of a vector paired
//! with their positions, plus the original length. Indices are strictly
//! increasing by construction; decoding ignores out-of-range indices.

use vstd::prelude::*;

verus! {

/// A residual vector reduced to its nonzero entries.
pub struct SparseData {
    pub values: Vec<i32>,
    pub indices: Vec<u32>,
    pub original_len: u32,
}

/// The nonzero values of `data`, in order.
pub open spec fn sparse_values_spec(data: Seq<i32>) -> Seq<i32>
    decreases data.len(),
{
    if data.len() == 0 {
        Seq::empty()
    } else {
        sparse_values_spec(data.drop_last()) + if data.last() != 0 {
            seq![data.last()]
        } else {
            Seq::empty()
        }
    }
}

/// The positions of the nonzero values of `data`, in order.
pub open spec fn sparse_indices_spec(data: Seq<i32>) -> Seq<u32>
    decreases data.len(),
{
    if data.len() == 0 {
        Seq::empty()
    } else {
        sparse_indices_spec(data.drop_last()) + if data.last() != 0 {
            seq![((data.len() - 1) as u32)]
        } else {
            Seq::empty()
        }
    }
}

/// The dense vector after the first `m` sparse pairs have been written into
/// `n` zeros; a later write to the same position wins, and an index at or
/// past `n` is skipped.
pub open spec fn sparse_decode_upto(values: Seq<i32>, indices: Seq<u32>, n: nat, m: nat) -> Seq<
    i32,
>
    decreases m,
{
    if m == 0 {
        Seq::new(n, |i: int| 0i32)
    } else {
        let prev = sparse_decode_upto(values, indices, n, (m - 1) as nat);
        let idx = indices[m - 1] as int;
        if idx < n {
            prev.update(idx, values[m - 1])
        } else {
            prev
        }
    }
}

/// The dense vector a [`SparseData`] stands for.
pub open spec fn sparse_decode_spec(values: Seq<i32>, indices: Seq<u32>, n: nat) -> Seq<i32> {
    sparse_decode_upto(
        values,
        indices,
        n,
        if values.len() <= indices.len() {
            values.len()
        } else {
            indices.len()
        },
    )
}

/// The value and index sequences of a vector pair up one to one.
pub proof fn lemma_sparse_lens(data: Seq<i32>)
    ensures
        sparse_values_spec(data).len() == sparse_indices_spec(data).len(),
        sparse_values_spec(data).len() <= data.len(),
    decreases data.len(),
{
    if data.len() > 0 {
        lemma_sparse_lens(data.drop_last());
    }
}

/// Sparse coding and serialization of residual vectors.
pub struct SparseEncoder;

impl SparseEncoder {
    /// Collects the nonzero entries of `data` with their positions.
    pub fn encode(data: &Vec<i32>) -> (s: SparseData)
        requires
            data@.len() <= u32::MAX,
        ensures
            s.values@ == sparse_values_spec(data@),
            s.indices@ == sparse_indices_spec(data@),
            s.original_len == data@.len(),
    {
        let mut values: Vec<i32> = Vec::new();
        let mut indices: Vec<u32> = Vec::new();
        let n = data.len();
        for i in 0..n
            invariant
                n == data@.len() <= u32::MAX,
                values@ == sparse_values_spec(data@.take(i as int)),
                indices@ == sparse_indices_spec(data@.take(i as int)),
        {
            let v = data[i];
            if v != 0 {
                values.push(v);
                indices.push(i as u32);
            }
            proof {
                let taken = data@.take(i as int + 1);
                assert(taken.drop_last() =~= data@.take(i as int));
                assert(taken.last() == data@[i as int]);
                if data@[i as int] != 0 {
                    assert(values@ =~= sparse_values_spec(data@.take(i as int)) + seq![
                        data@[i as int],
                    ]);
                    assert(indices@ =~= sparse_indices_spec(data@.take(i as int)) + seq![
                        i as u32,
                    ]);
                } else {
                    assert(values@ =~= sparse_values_spec(data@.take(i as int))
                        + Seq::<i32>::empty());
                    assert(indices@ =~= sparse_indices_spec(data@.take(i as int))
                        + Seq::<u32>::empty());
                }
            }
        }
        proof {
            assert(data@.take(n as int) =~= data@);
        }
        SparseData { values, indices, original_len: n as u32 }
    }

    /// Writes the stored values back into a zero-filled vector of the
    /// original length, skipping any index that falls outside it.
    pub fn decode(sparse: &SparseData) -> (r: Vec<i32>)
        ensures
            r@ == sparse_decode_spec(
                sparse.values@,
                sparse.indices@,
                sparse.original_len as nat,
            ),
    {
        let n = sparse.original_len as usize;
        let mut data: Vec<i32> = Vec::new();
        for i in 0..n
            invariant
                data@ =~= Seq::new(i as nat, |j: int| 0i32),
        {
            data.push(0);
        }
        proof {
            assert(data@ =~= sparse_decode_upto(sparse.values@, sparse.indices@, n as nat, 0));
        }
        let m = if sparse.values.len() <= sparse.indices.len() {
            sparse.values.len()
        } else {
            sparse.indices.len()
        };
        for t in 0..m
            invariant
                m <= sparse.values@.len(),
                m <= sparse.indices@.len(),
                n == sparse.original_len,
                data@.len() == n,
                data@ == sparse_decode_upto(sparse.values@, sparse.indices@, n as nat, t as nat),
        {
            let idx = sparse.indices[t] as usize;
            if idx < data.len() {
                data.set(idx, sparse.values[t]);
            }
        }
        data
    }
}

/// For every vector, decoding its sparse form writes each nonzero entry
/// back to its own position and leaves zeros elsewhere: the round trip is
/// the identity.
pub proof fn lemma_sparse_roundtrip(x: Seq<i32>)
    requires
        x.len() <= u32::MAX,
    ensures
        sparse_decode_spec(sparse_values_spec(x), sparse_indices_spec(x), x.len()) == x,
{
    lemma_sparse_lens(x);
    lemma_sparse_fill(x, x.len());
    assert(Seq::new(x.len(), |i: int| if 0 <= i < x.len() {
        x[i]
    } else {
        0i32
    }) =~= x);
}

/// Writing the sparse pairs of `x` into `n >= |x|` zeros reproduces `x`
/// over its own range and leaves the rest zero.
proof fn lemma_sparse_fill(x: Seq<i32>, n: nat)
    requires
        n >= x.len(),
        x.len() <= u32::MAX,
    ensures
        sparse_decode_upto(
            sparse_values_spec(x),
            sparse_indices_spec(x),
            n,
            sparse_values_spec(x).len(),
        ) == Seq::new(n, |i: int| if 0 <= i < x.len() {
            x[i]
        } else {
            0i32
        }),
    decreases x.len(),
{
    lemma_sparse_lens(x);
    let vals = sparse_values_spec(x);
    let idxs = sparse_indices_spec(x);
    let target = Seq::new(n, |i: int| if 0 <= i < x.len() {
        x[i]
    } else {
        0i32
    });
    if x.len() == 0 {
        assert(sparse_decode_upto(vals, idxs, n, 0) =~= target);
    } else {
        let dl = x.drop_last();
        lemma_sparse_lens(dl);
        lemma_sparse_fill(dl, n);
        let pvals = sparse_values_spec(dl);
        let pidxs = sparse_indices_spec(dl);
        let ptarget = Seq::new(n, |i: int| if 0 <= i < dl.len() {
            dl[i]
        } else {
            0i32
        });
        if x.last() == 0 {
            assert(vals =~= pvals);
            assert(idxs =~= pidxs);
            assert(target =~= ptarget);
        } else {
            assert(vals =~= pvals + seq![x.last()]);
            assert(idxs =~= pidxs + seq![((x.len() - 1) as u32)]);
            let m = vals.len();
            lemma_sparse_upto_congruent(vals, idxs, pvals, pidxs, n, (m - 1) as nat);
            assert(sparse_decode_upto(vals, idxs, n, (m - 1) as nat) == ptarget);
            assert(idxs[m - 1] == (x.len() - 1) as u32);
            assert(vals[m - 1] == x.last());
            assert(sparse_decode_upto(vals, idxs, n, m) == ptarget.update(
                x.len() - 1,
                x.last(),
            ));
            assert(ptarget.update(x.len() - 1, x.last()) =~= target);
        }
    }
}

/// The first `m` writes only read the first `m` pairs.
proof fn lemma_sparse_upto_congruent(
    v1: Seq<i32>,
    i1: Seq<u32>,
    v2: Seq<i32>,
    i2: Seq<u32>,
    n: nat,
    m: nat,
)
    requires
        m <= v1.len(),
        m <= i1.len(),
        m <= v2.len(),
        m <= i2.len(),
        forall|t: int| 0 <= t < m ==> v1[t] == v2[t] && i1[t] == i2[t],
    ensures
        sparse_decode_upto(v1, i1, n, m) == sparse_decode_upto(v2, i2, n, m),
    decreases m,
{
    if m > 0 {
        lemma_sparse_upto_congruent(v1, i1, v2, i2, n, (m - 1) as nat);
    }
}

} // verus!
