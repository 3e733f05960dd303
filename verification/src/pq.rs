use vstd::prelude::*;
use rand::rngs::ThreadRng;
use rand::Rng;
use crate::error::HnswError;
use crate::key::{NodeKey, F32_MAX_KEY, NAN_KEY, float_lt, spec_float_lt};
use crate::relation::IndexRelation;

verus! {

#[verifier::external_type_specification]
#[verifier::external_body]
pub struct ExThreadRng(ThreadRng);

/// `rand::thread_rng`: the thread's random number generator.
#[verifier::external_body]
fn thread_rng() -> (r: ThreadRng) {
    rand::thread_rng()
}

/// `Rng::gen_range` on `lo..hi`: some index from `lo` up to, but not including, `hi`.
#[verifier::external_body]
fn gen_index(rng: &mut ThreadRng, lo: usize, hi: usize) -> (r: usize)
    requires
        lo < hi,
    ensures
        lo <= r < hi,
{
    rng.gen_range(lo..hi)
}

/// The least order key among the first `n` distances, starting from that of
/// the largest finite single-precision float; a NaN never replaces it.
pub open spec fn best_key(ds: Seq<u64>, n: int) -> u64
    decreases n,
{
    if n <= 0 {
        F32_MAX_KEY
    } else if spec_float_lt(ds[n - 1], best_key(ds, n - 1)) {
        ds[n - 1]
    } else {
        best_key(ds, n - 1)
    }
}

/// The first centroid among the first `n` that is strictly nearest (0 when
/// none is nearer than the largest finite single-precision float).
pub open spec fn nearest_centroid(ds: Seq<u64>, n: int) -> int
    decreases n,
{
    if n <= 0 {
        0
    } else if spec_float_lt(ds[n - 1], best_key(ds, n - 1)) {
        n - 1
    } else {
        nearest_centroid(ds, n - 1)
    }
}

/// Among the first `n` distances, none before `code` is below `ds[code]`, and
/// the least key kept so far stays above it.
proof fn lemma_best_key_above(ds: Seq<u64>, n: int, code: int)
    requires
        0 <= n <= code < ds.len(),
        ds[code] < F32_MAX_KEY,
        forall|c: int| 0 <= c < n ==> ds[code] < #[trigger] ds[c],
    ensures
        ds[code] < best_key(ds, n),
        best_key(ds, n) != NAN_KEY || n == 0,
    decreases n,
{
    if n > 0 {
        lemma_best_key_above(ds, n - 1, code);
    }
}

/// When one centroid's distance is a finite key strictly below every other
/// centroid's, encoding picks that centroid: a vector rebuilt from its codes,
/// whose distance to each of its own centroids is least, encodes to those
/// codes.
pub proof fn law_strictly_nearest_centroid_is_chosen(ds: Seq<u64>, n: int, code: int)
    requires
        0 <= code < n <= ds.len(),
        ds[code] < F32_MAX_KEY,
        forall|c: int| 0 <= c < n && c != code ==> ds[code] < #[trigger] ds[c],
    ensures
        nearest_centroid(ds, n) == code,
        best_key(ds, n) == ds[code],
    decreases n,
{
    if n == code + 1 {
        lemma_best_key_above(ds, code, code);
        assert(F32_MAX_KEY != NAN_KEY);
    } else {
        law_strictly_nearest_centroid_is_chosen(ds, n - 1, code);
        assert(ds[code] < ds[n - 1]);
    }
}

/// `code` is the nearest of `nc` centroids of subspace `m` (cut to a byte),
/// for distances that `sub_dist` reported.
pub open spec fn encoded_as<F: Fn(usize, usize) -> u64>(sub_dist: F, m: usize, nc: usize, code: u8) -> bool {
    exists|ds: Seq<u64>|
        {
            &&& ds.len() == nc
            &&& forall|c: int| 0 <= c < nc ==> sub_dist.ensures((m, c as usize), #[trigger] ds[c])
            &&& code == nearest_centroid(ds, nc as int) as u8
        }
}

/// Encodes a vector with a product-quantization codebook of `num_subspaces`
/// subspaces of `sub_dim` elements and `num_centroids` centroids each: for each
/// subspace the index (as a byte) of the nearest centroid, where `sub_dist(m, c)`
/// is the order key of the distance between the vector's part in subspace `m`
/// and centroid `c` of that subspace. Only single-precision vectors of the
/// codebook's dimension, laid out contiguously, can be encoded.
#[verifier::loop_isolation(false)]
pub fn encode_vector_pq<F>(
    is_f32: bool,
    len: usize,
    contiguous: bool,
    num_subspaces: usize,
    sub_dim: usize,
    num_centroids: usize,
    sub_dist: &F,
) -> (r: Result<Vec<u8>, HnswError>) where F: Fn(usize, usize) -> u64
    requires
        num_subspaces * sub_dim <= usize::MAX,
        forall|m: usize, c: usize| sub_dist.requires((m, c)),
    ensures
        match r {
            Ok(codes) => {
                &&& is_f32 && len == num_subspaces * sub_dim && contiguous
                &&& codes.len() == num_subspaces
                &&& forall|m: int| 0 <= m < num_subspaces ==> encoded_as(*sub_dist, m as usize, num_centroids, #[trigger] codes@[m])
            },
            Err(HnswError::NotF32) => !is_f32,
            Err(HnswError::DimensionMismatch { len: l, dim }) => is_f32 && l == len && dim == num_subspaces * sub_dim && len != dim,
            Err(HnswError::NotContiguous) => is_f32 && len == num_subspaces * sub_dim && !contiguous,
            Err(_) => false,
        },
{
    if !is_f32 {
        return Err(HnswError::NotF32);
    }
    let dim: usize = num_subspaces * sub_dim;
    if len != dim {
        return Err(HnswError::DimensionMismatch { len, dim });
    }
    if !contiguous {
        return Err(HnswError::NotContiguous);
    }
    let mut codes: Vec<u8> = Vec::new();
    let mut m: usize = 0;
    while m < num_subspaces
        invariant
            m <= num_subspaces,
            codes.len() == m,
            forall|t: int| 0 <= t < m ==> encoded_as(*sub_dist, t as usize, num_centroids, #[trigger] codes@[t]),
        decreases num_subspaces - m,
    {
        let mut best_c: usize = 0;
        let mut best_dist: u64 = F32_MAX_KEY;
        let ghost mut ds: Seq<u64> = Seq::empty();
        let mut c: usize = 0;
        while c < num_centroids
            invariant
                c <= num_centroids,
                ds.len() == c,
                forall|u: int| 0 <= u < c ==> sub_dist.ensures((m, u as usize), #[trigger] ds[u]),
                best_dist == best_key(ds, c as int),
                best_c == nearest_centroid(ds, c as int),
            decreases num_centroids - c,
        {
            let d: u64 = sub_dist(m, c);
            proof {
                let ds0 = ds;
                ds = ds.push(d);
                assert forall|u: int| 0 <= u < c + 1 implies sub_dist.ensures((m, u as usize), #[trigger] ds[u]) by {
                    if u < c {
                        assert(ds[u] == ds0[u]);
                    }
                }
                assert(ds.subrange(0, c as int) =~= ds0);
                lemma_best_prefix(ds, ds0, c as int);
            }
            if float_lt(d, best_dist) {
                best_dist = d;
                best_c = c;
            }
            c = c + 1;
        }
        codes.push(best_c as u8);
        proof {
            assert(encoded_as(*sub_dist, m, num_centroids, codes@[m as int]));
        }
        m = m + 1;
    }
    Ok(codes)
}

/// The scan over a prefix does not depend on what follows it.
proof fn lemma_best_prefix(ds: Seq<u64>, ds0: Seq<u64>, n: int)
    requires
        0 <= n <= ds0.len(),
        ds0.len() <= ds.len(),
        forall|u: int| 0 <= u < ds0.len() ==> ds[u] == ds0[u],
    ensures
        best_key(ds, n) == best_key(ds0, n),
        nearest_centroid(ds, n) == nearest_centroid(ds0, n),
    decreases n,
{
    if n > 0 {
        lemma_best_prefix(ds, ds0, n - 1);
    }
}

/// Checks the parameters of codebook training: the vectors must be
/// single-precision, there must be a subspace, the dimension must be a multiple
/// of the number of subspaces, and there must be a centroid. Gives the
/// dimension of a subspace.
pub fn check_pq_training(is_f32: bool, dim: usize, num_subspaces: usize, num_centroids: usize) -> (r: Result<usize, HnswError>)
    ensures
        match r {
            Ok(sub_dim) => is_f32 && num_subspaces > 0 && dim % num_subspaces == 0 && num_centroids >= 1
                && sub_dim == dim / num_subspaces,
            Err(HnswError::NotF32) => !is_f32,
            Err(HnswError::NoSubspaces) => is_f32 && num_subspaces == 0,
            Err(HnswError::NotDivisible { dim: d, num_subspaces: n }) => is_f32 && num_subspaces > 0 && d == dim
                && n == num_subspaces && dim % num_subspaces != 0,
            Err(HnswError::NoCentroids) => is_f32 && num_subspaces > 0 && dim % num_subspaces == 0 && num_centroids == 0,
            Err(_) => false,
        },
{
    if !is_f32 {
        return Err(HnswError::NotF32);
    }
    if num_subspaces == 0 {
        return Err(HnswError::NoSubspaces);
    }
    if dim % num_subspaces != 0 {
        return Err(HnswError::NotDivisible { dim, num_subspaces });
    }
    if num_centroids < 1 {
        return Err(HnswError::NoCentroids);
    }
    Ok(dim / num_subspaces)
}

/// Checks that the training samples can give `num_centroids` centroids.
pub fn check_samples(n: usize, num_centroids: usize) -> (r: Result<(), HnswError>)
    ensures
        match r {
            Ok(()) => n > 0 && n >= num_centroids,
            Err(HnswError::NoSamples) => n == 0,
            Err(HnswError::TooFewSamples { needed, got }) => n > 0 && n < num_centroids && needed == num_centroids && got == n,
            Err(_) => false,
        },
{
    if n == 0 {
        return Err(HnswError::NoSamples);
    }
    if n < num_centroids {
        return Err(HnswError::TooFewSamples { needed: num_centroids, got: n });
    }
    Ok(())
}

/// Exchanges two elements of a vector.
pub fn swap_items<T>(v: &mut Vec<T>, i: usize, j: usize)
    requires
        i < j < old(v).len(),
    ensures
        final(v)@ == old(v)@.update(i as int, old(v)@[j as int]).update(j as int, old(v)@[i as int]),
{
    let b = v.remove(j);
    let a = v.remove(i);
    v.insert(i, b);
    v.insert(j, a);
    assert(v@ =~= old(v)@.update(i as int, old(v)@[j as int]).update(j as int, old(v)@[i as int]));
}

/// Element `t` of `new` is element `pos[t]` of `old`, and no position is taken twice.
pub open spec fn taken_at<T>(old: Seq<T>, new: Seq<T>, pos: Seq<int>) -> bool {
    &&& pos.len() == new.len()
    &&& forall|t: int| 0 <= t < new.len() ==> 0 <= #[trigger] pos[t] < old.len() && new[t] == old[pos[t]]
    &&& forall|a: int, b: int| 0 <= a < new.len() && 0 <= b < new.len() && a != b ==> pos[a] != pos[b]
}

/// `new` holds distinct elements of `old`, in some order.
pub open spec fn drawn_from<T>(old: Seq<T>, new: Seq<T>) -> bool {
    exists|pos: Seq<int>| #[trigger] taken_at(old, new, pos)
}

/// Keeps at most `num_samples` of the training vectors: when there are more, a
/// random choice of `num_samples` distinct ones (a partial shuffle).
pub fn select_samples<T>(samples: &mut Vec<T>, num_samples: usize)
    ensures
        old(samples).len() <= num_samples ==> final(samples)@ == old(samples)@,
        old(samples).len() > num_samples ==> final(samples).len() == num_samples,
        drawn_from(old(samples)@, final(samples)@),
{
    let n: usize = samples.len();
    let ghost s0 = samples@;
    let ghost mut pos: Seq<int> = Seq::new(n as nat, |t: int| t);
    if n > num_samples {
        let mut rng = thread_rng();
        let mut i: usize = 0;
        while i < num_samples
            invariant
                n == samples.len(),
                n == s0.len(),
                num_samples < n,
                i <= num_samples,
                pos.len() == n,
                forall|t: int| 0 <= t < n ==> 0 <= #[trigger] pos[t] < n && samples@[t] == s0[pos[t]],
                forall|a: int, b: int| 0 <= a < n && 0 <= b < n && a != b ==> pos[a] != pos[b],
            decreases num_samples - i,
        {
            let j: usize = gen_index(&mut rng, i, n);
            if i < j {
                swap_items(samples, i, j);
                proof {
                    pos = pos.update(i as int, pos[j as int]).update(j as int, pos[i as int]);
                }
            }
            i = i + 1;
        }
        samples.truncate(num_samples);
        proof {
            let p2 = pos.subrange(0, num_samples as int);
            assert forall|t: int| 0 <= t < samples.len() implies 0 <= #[trigger] p2[t] < s0.len() && samples@[t] == s0[p2[t]] by {
                assert(p2[t] == pos[t]);
            }
            assert(taken_at(s0, samples@, p2));
        }
    } else {
        proof {
            assert(taken_at(s0, samples@, pos));
        }
    }
}

/// The quantization codes after storing, in turn, what encoding gave for each
/// of `keys`: `outcomes[i]` is `Some(Ok(codes))` for a key whose vector was
/// encoded, `None` for a key without a vector.
pub open spec fn codes_stored(
    codes: Map<NodeKey, Seq<u8>>,
    keys: Seq<NodeKey>,
    outcomes: Seq<Option<Result<Vec<u8>, HnswError>>>,
) -> Map<NodeKey, Seq<u8>>
    decreases keys.len(),
{
    if keys.len() == 0 || outcomes.len() != keys.len() {
        codes
    } else {
        let prev = codes_stored(codes, keys.drop_last(), outcomes.drop_last());
        match outcomes.last() {
            Some(Ok(c)) => prev.insert(keys.last(), c@),
            _ => prev,
        }
    }
}

/// Encodes and stores the quantization codes of each of `keys` in turn:
/// `encode(k)` gives `None` when `k` has no vector, else what encoding its
/// vector gave. The first encoding that fails ends the work with its error.
pub fn store_codes<F>(rel: &mut IndexRelation, keys: &Vec<NodeKey>, encode: &F) -> (r: Result<(), HnswError>) where
    F: Fn(NodeKey) -> Option<Result<Vec<u8>, HnswError>>,

    requires
        old(rel).wf(),
        forall|k: NodeKey| encode.requires((k,)),
    ensures
        final(rel).wf(),
        final(rel).rows_view() == old(rel).rows_view(),
        final(rel).canary_view() == old(rel).canary_view(),
        final(rel).codebook_view() == old(rel).codebook_view(),
        match r {
            Ok(()) => exists|outcomes: Seq<Option<Result<Vec<u8>, HnswError>>>| {
                &&& outcomes.len() == keys.len()
                &&& forall|i: int| 0 <= i < keys.len() ==> #[trigger] encode.ensures((keys@[i],), outcomes[i])
                    && !(outcomes[i] matches Some(Err(_)))
                &&& final(rel).codes_view() == codes_stored(old(rel).codes_view(), keys@, outcomes)
            },
            Err(e) => exists|i: int| 0 <= i < keys.len() && #[trigger] encode.ensures((keys@[i],), Some(Err(e))),
        },
{
    let n: usize = keys.len();
    let mut i: usize = 0;
    let ghost mut outcomes: Seq<Option<Result<Vec<u8>, HnswError>>> = Seq::empty();
    while i < n
        invariant
            n == keys.len(),
            i <= n,
            forall|k: NodeKey| encode.requires((k,)),
            rel.wf(),
            rel.rows_view() == old(rel).rows_view(),
            rel.canary_view() == old(rel).canary_view(),
            rel.codebook_view() == old(rel).codebook_view(),
            outcomes.len() == i,
            forall|t: int| 0 <= t < i ==> #[trigger] encode.ensures((keys@[t],), outcomes[t])
                && !(outcomes[t] matches Some(Err(_))),
            rel.codes_view() == codes_stored(old(rel).codes_view(), keys@.subrange(0, i as int), outcomes),
        decreases n - i,
    {
        let k = keys[i];
        let got = encode(k);
        let ghost o0 = outcomes;
        proof {
            outcomes = outcomes.push(got);
        }
        match got {
            Some(Ok(c)) => {
                rel.store_pq_codes(k, &c);
            },
            Some(Err(e)) => {
                return Err(e);
            },
            None => {},
        }
        proof {
            assert(encode.ensures((keys@[i as int],), outcomes[i as int]));
            assert forall|t: int| 0 <= t < i + 1 implies #[trigger] encode.ensures((keys@[t],), outcomes[t])
                && !(outcomes[t] matches Some(Err(_))) by {
                if t < i {
                    assert(outcomes[t] == o0[t]);
                }
            }
            let ks = keys@.subrange(0, i + 1);
            assert(ks.drop_last() =~= keys@.subrange(0, i as int));
            assert(outcomes.drop_last() =~= o0);
            assert(ks.last() == k);
        }
        i = i + 1;
    }
    proof {
        assert(i == n);
        assert(keys@.subrange(0, n as int) =~= keys@);
        assert(outcomes.len() == keys.len());
        assert forall|t: int| 0 <= t < keys.len() implies #[trigger] encode.ensures((keys@[t],), outcomes[t])
            && !(outcomes[t] matches Some(Err(_))) by {
            assert(t < i);
        }
        assert(rel.codes_view() == codes_stored(old(rel).codes_view(), keys@, outcomes));
    }
    Ok(())
}

} // verus!
