//! Mixture-of-experts routing: gate scores, softmax, selection and entropy.

use crate::arithmetic;
use crate::arithmetic::Arithmetic;
use crate::error;
use crate::error::HybridError;
use crate::scalar;
use crate::scalar::{Scalar, Wide};
use crate::text;
use vstd::prelude::*;

verus! {

/// Upper bound on the number of experts that are routed synthetically.
pub const MAX_REASONABLE_EXPERTS: usize = 1_000_000;

/// The binary32 pattern of negative infinity.
pub const NEGATIVE_INFINITY_BITS: u32 = 0xff80_0000;

/// Where the chunk of an expert begins in an embedding of `width` numbers.
/// With fewer numbers than experts, the chunks wrap around.
pub open spec fn chunk_start(expert: int, num_experts: int, width: int) -> int {
    if width >= num_experts {
        expert * (width / num_experts)
    } else {
        expert % width
    }
}

/// Where the chunk of an expert ends; the last one takes the rest.
pub open spec fn chunk_end(expert: int, num_experts: int, width: int) -> int {
    if width < num_experts {
        expert % width + 1
    } else if expert == num_experts - 1 {
        width
    } else {
        (expert + 1) * (width / num_experts)
    }
}

/// The part of an embedding that is scored for an expert.
pub open spec fn chunk(embedding: Seq<Scalar>, expert: int, num_experts: int) -> Seq<Scalar> {
    embedding.subrange(
        chunk_start(expert, num_experts, embedding.len() as int),
        chunk_end(expert, num_experts, embedding.len() as int),
    )
}

/// `scores` holds the sum of each expert's chunk.
pub open spec fn gate_scores<M: Arithmetic>(
    num_experts: usize,
    embedding: Seq<Scalar>,
    scores: Seq<Scalar>,
) -> bool {
    if num_experts == 0 || embedding.len() == 0 {
        scores.len() == 0
    } else {
        &&& scores.len() == num_experts
        &&& forall|e: int|
            0 <= e < num_experts ==> arithmetic::sums_to::<M>(
                chunk(embedding, e, num_experts as int),
                #[trigger] scores[e],
            )
    }
}

/// A chunk is not empty and lies inside the embedding.
proof fn lemma_chunk_bounds(expert: int, num_experts: int, width: int)
    requires
        0 <= expert < num_experts,
        0 < width,
    ensures
        0 <= chunk_start(expert, num_experts, width) < chunk_end(expert, num_experts, width)
            <= width,
{
    if width >= num_experts {
        let step = width / num_experts;
        assert(step >= 1 && num_experts * step <= width) by (nonlinear_arith)
            requires
                step == width / num_experts,
                width >= num_experts > 0,
        ;
        assert(expert * step + step == (expert + 1) * step) by (nonlinear_arith);
        assert(0 <= expert * step) by (nonlinear_arith)
            requires
                expert >= 0,
                step >= 1,
        ;
        assert((expert + 1) * step <= num_experts * step) by (nonlinear_arith)
            requires
                expert + 1 <= num_experts,
                step >= 1,
        ;
    } else {
        assert(0 <= expert % width < width);
    }
}

/// With at least one number per expert the chunks partition the embedding: the
/// first begins at its start, each next one where the last ended, and the last
/// ends at its end.
pub proof fn law_chunks_partition(num_experts: int, width: int)
    requires
        0 < num_experts <= width,
    ensures
        chunk_start(0, num_experts, width) == 0,
        chunk_end(num_experts - 1, num_experts, width) == width,
        forall|e: int|
            0 <= e < num_experts - 1 ==> #[trigger] chunk_end(e, num_experts, width) == chunk_start(
                e + 1,
                num_experts,
                width,
            ),
        forall|e: int|
            0 <= e < num_experts ==> #[trigger] chunk_start(e, num_experts, width) < chunk_end(
                e,
                num_experts,
                width,
            ),
{
    assert forall|e: int| 0 <= e < num_experts implies #[trigger] chunk_start(e, num_experts, width)
        < chunk_end(e, num_experts, width) by {
        lemma_chunk_bounds(e, num_experts, width);
    }
    assert(0 * (width / num_experts) == 0);
}

/// Every number of a non-empty embedding is scored for some expert.
pub proof fn law_chunks_cover(i: int, num_experts: int, width: int)
    requires
        0 < num_experts,
        0 <= i < width,
    ensures
        exists|e: int|
            0 <= e < num_experts && #[trigger] chunk_start(e, num_experts, width) <= i < chunk_end(
                e,
                num_experts,
                width,
            ),
{
    if width >= num_experts {
        let step = width / num_experts;
        assert(step >= 1) by (nonlinear_arith)
            requires
                step == width / num_experts,
                width >= num_experts > 0,
        ;
        let e = i / step;
        assert(e * step <= i < (e + 1) * step) by (nonlinear_arith)
            requires
                e == i / step,
                step >= 1,
                i >= 0,
        ;
        assert(e >= 0) by (nonlinear_arith)
            requires
                e == i / step,
                step >= 1,
                i >= 0,
        ;
        if e < num_experts {
            assert(chunk_start(e, num_experts, width) <= i < chunk_end(e, num_experts, width));
        } else {
            let last = num_experts - 1;
            assert(last * step <= e * step) by (nonlinear_arith)
                requires
                    last <= e,
                    step >= 1,
            ;
            assert(chunk_start(last, num_experts, width) <= i < chunk_end(
                last,
                num_experts,
                width,
            ));
        }
    } else {
        vstd::arithmetic::div_mod::lemma_small_mod(i as nat, width as nat);
        assert(chunk_start(i, num_experts, width) <= i < chunk_end(i, num_experts, width));
    }
}

/// Synthetic gate scores: the embedding is cut into one chunk per expert, and
/// each chunk is summed.
pub fn synthetic_gate_scores<M: Arithmetic>(num_experts: usize, embedding: &[Scalar]) -> (r: Vec<
    Scalar,
>)
    ensures
        gate_scores::<M>(num_experts, embedding@, r@),
{
    let mut scores: Vec<Scalar> = Vec::new();
    let width: usize = embedding.len();
    if num_experts == 0 || width == 0 {
        return scores;
    }
    let mut expert: usize = 0;
    while expert < num_experts
        invariant
            expert <= num_experts,
            0 < num_experts,
            0 < width,
            width == embedding@.len(),
            scores@.len() == expert,
            forall|e: int|
                0 <= e < expert ==> arithmetic::sums_to::<M>(
                    chunk(embedding@, e, num_experts as int),
                    #[trigger] scores@[e],
                ),
        decreases num_experts - expert,
    {
        proof {
            lemma_chunk_bounds(expert as int, num_experts as int, width as int);
        }
        let start: usize;
        let end: usize;
        if width < num_experts {
            start = expert % width;
            end = start + 1;
        } else {
            let step: usize = width / num_experts;
            start = expert * step;
            if expert == num_experts - 1 {
                end = width;
            } else {
                end = (expert + 1) * step;
            }
        }
        let score = arithmetic::sum_range::<M>(embedding, start, end);
        scores.push(score);
        expert = expert + 1;
    }
    scores
}

/// The largest of the numbers that are not NaN; negative infinity where there
/// is none.
pub open spec fn greatest(scores: Seq<Scalar>) -> Scalar
    decreases scores.len(),
{
    if scores.len() == 0 {
        scalar::scalar(NEGATIVE_INFINITY_BITS)
    } else {
        greatest(scores.drop_last()).larger(scores.last())
    }
}

/// `weights` gives each of `n` experts the same weight.
pub open spec fn uniform<M: Arithmetic>(n: nat, weights: Seq<Scalar>) -> bool {
    exists|u: Scalar|
        #[trigger] arithmetic::inverts::<M>(n as usize, u) && weights == Seq::new(n, |i: int| u)
}

/// `r` is the exponential of `score - highest`.
pub open spec fn shifted_exp<M: Arithmetic>(score: Scalar, highest: Scalar, r: Scalar) -> bool {
    exists|d: Scalar|
        #[trigger] arithmetic::subtracts::<M>(score, highest, d) && arithmetic::exponentiates::<M>(
            d,
            r,
        )
}

/// `exps` holds the shifted exponential of each score.
pub open spec fn shifted_exps<M: Arithmetic>(
    scores: Seq<Scalar>,
    highest: Scalar,
    exps: Seq<Scalar>,
) -> bool {
    &&& exps.len() == scores.len()
    &&& forall|i: int|
        0 <= i < exps.len() ==> shifted_exp::<M>(scores[i], highest, #[trigger] exps[i])
}

/// `r` is `x` divided by `total`, in wide arithmetic.
pub open spec fn share<M: Arithmetic>(x: Scalar, total: Wide, r: Scalar) -> bool {
    exists|w: Wide, q: Wide|
        arithmetic::widens::<M>(x, w) && #[trigger] arithmetic::wide_divides::<M>(w, total, q)
            && arithmetic::narrows::<M>(q, r)
}

/// `weights` holds the share of each number in `total`.
pub open spec fn shares<M: Arithmetic>(xs: Seq<Scalar>, total: Wide, weights: Seq<Scalar>) -> bool {
    &&& weights.len() == xs.len()
    &&& forall|i: int| 0 <= i < weights.len() ==> share::<M>(xs[i], total, #[trigger] weights[i])
}

/// `weights` normalizes shifted exponentials: the share of each in their wide
/// sum, or uniform weights where that sum is no positive number.
pub open spec fn normalized<M: Arithmetic>(exps: Seq<Scalar>, weights: Seq<Scalar>) -> bool {
    exists|total: Wide|
        #[trigger] arithmetic::wide_sums_to::<M>(exps, total) && if total.finite_positive() {
            shares::<M>(exps, total, weights)
        } else {
            uniform::<M>(exps.len(), weights)
        }
}

/// `weights` is the softmax of `scores`.
pub open spec fn softmaxes<M: Arithmetic>(scores: Seq<Scalar>, weights: Seq<Scalar>) -> bool {
    if scores.len() == 0 {
        weights.len() == 0
    } else if !greatest(scores).finite() {
        uniform::<M>(scores.len(), weights)
    } else {
        exists|exps: Seq<Scalar>|
            #[trigger] shifted_exps::<M>(scores, greatest(scores), exps) && normalized::<M>(
                exps,
                weights,
            )
    }
}

/// Uniform weights for `n` experts.
pub fn uniform_weights<M: Arithmetic>(n: usize) -> (r: Vec<Scalar>)
    ensures
        uniform::<M>(n as nat, r@),
{
    let u = arithmetic::inverse::<M>(n);
    let r = vec![u; n];
    assert(r@ =~= Seq::new(n as nat, |i: int| u));
    assert(arithmetic::inverts::<M>((n as nat) as usize, u));
    r
}

/// Softmax, stable for large scores: scores are shifted by the largest, and the
/// denominator is accumulated wide. Falls back to uniform weights where the
/// largest score is not finite or the denominator no positive number.
pub fn softmax<M: Arithmetic>(scores: &[Scalar]) -> (r: Vec<Scalar>)
    ensures
        softmaxes::<M>(scores@, r@),
{
    let n: usize = scores.len();
    if n == 0 {
        return Vec::new();
    }
    let mut highest = Scalar { bits: NEGATIVE_INFINITY_BITS };
    let mut i: usize = 0;
    assert(scores@.take(0) =~= Seq::<Scalar>::empty());
    while i < n
        invariant
            i <= n,
            n == scores@.len(),
            highest == greatest(scores@.take(i as int)),
        decreases n - i,
    {
        highest = highest.max(scores[i]);
        assert(scores@.take(i + 1).drop_last() =~= scores@.take(i as int));
        i = i + 1;
    }
    assert(scores@.take(n as int) =~= scores@);
    if !highest.is_finite() {
        return uniform_weights::<M>(n);
    }
    let mut exps: Vec<Scalar> = Vec::new();
    let mut j: usize = 0;
    while j < n
        invariant
            j <= n,
            n == scores@.len(),
            exps@.len() == j,
            forall|k: int|
                0 <= k < j ==> shifted_exp::<M>(scores@[k], highest, #[trigger] exps@[k]),
        decreases n - j,
    {
        let d = M::subtract(scores[j], highest);
        let e = M::exp(d);
        assert(arithmetic::subtracts::<M>(scores@[j as int], highest, d));
        exps.push(e);
        j = j + 1;
    }
    assert(shifted_exps::<M>(scores@, highest, exps@));
    let total = arithmetic::wide_sum::<M>(exps.as_slice());
    if !total.is_finite_positive() {
        let weights = uniform_weights::<M>(n);
        assert(normalized::<M>(exps@, weights@));
        return weights;
    }
    let mut weights: Vec<Scalar> = Vec::new();
    let mut k: usize = 0;
    while k < n
        invariant
            k <= n,
            n == exps@.len(),
            weights@.len() == k,
            forall|m: int| 0 <= m < k ==> share::<M>(exps@[m], total, #[trigger] weights@[m]),
        decreases n - k,
    {
        let w = M::widen(exps[k]);
        let q = M::wide_divide(w, total);
        let r = M::narrow(q);
        assert(arithmetic::wide_divides::<M>(w, total, q));
        weights.push(r);
        k = k + 1;
    }
    assert(normalized::<M>(exps@, weights@));
    weights
}

/// The weight by which an expert is ranked; NaN ranks below every number.
pub open spec fn rank_key(w: Scalar) -> int {
    if w.nan() {
        -0x1_0000_0000
    } else {
        w.ordinal()
    }
}

/// Expert `a` comes before expert `b`: by larger weight, then by index.
pub open spec fn ranks_before(weights: Seq<Scalar>, a: int, b: int) -> bool {
    ||| rank_key(weights[a]) > rank_key(weights[b])
    ||| rank_key(weights[a]) == rank_key(weights[b]) && a < b
}

/// `selected` holds the first `k` of experts `0..n` by rank, in that order; all
/// of them where there are no more than `k`.
pub open spec fn selects_top(weights: Seq<Scalar>, n: nat, k: nat, selected: Seq<usize>) -> bool {
    &&& selected.len() == if k < n {
        k
    } else {
        n
    }
    &&& forall|p: int| 0 <= p < selected.len() ==> #[trigger] selected[p] < n
    &&& forall|p: int, q: int|
        #![trigger selected[p], selected[q]]
        0 <= p < q < selected.len() ==> ranks_before(
            weights,
            selected[p] as int,
            selected[q] as int,
        )
    &&& forall|p: int, j: usize|
        #![trigger selected[p], selected.contains(j)]
        0 <= p < selected.len() && j < n && !selected.contains(j) ==> ranks_before(
            weights,
            selected[p] as int,
            j as int,
        )
}

/// The weight by which an expert is ranked.
fn key_of(w: Scalar) -> (r: i64)
    ensures
        r == rank_key(w),
{
    if w.is_nan() {
        -0x1_0000_0000
    } else {
        w.rank()
    }
}

/// `ranked` holds the experts from `lo` up to `hi`, each once, by rank.
pub open spec fn ranks_all(weights: Seq<Scalar>, lo: int, hi: int, ranked: Seq<usize>) -> bool {
    &&& ranked.len() == hi - lo
    &&& forall|p: int| 0 <= p < ranked.len() ==> lo <= #[trigger] ranked[p] < hi
    &&& ascends(weights, ranked)
    &&& forall|j: usize| lo <= j < hi ==> #[trigger] ranked.contains(j)
}

/// Each expert of the sequence ranks before all that follow it.
pub open spec fn ascends(weights: Seq<Scalar>, ranked: Seq<usize>) -> bool {
    forall|p: int, q: int|
        #![trigger ranked[p], ranked[q]]
        0 <= p < q < ranked.len() ==> ranks_before(weights, ranked[p] as int, ranked[q] as int)
}

/// Appending an expert that all before it rank before keeps the order and what
/// was held.
proof fn lemma_append(weights: Seq<Scalar>, before: Seq<usize>, next: usize)
    requires
        ascends(weights, before),
        forall|p: int|
            0 <= p < before.len() ==> ranks_before(
                weights,
                #[trigger] before[p] as int,
                next as int,
            ),
    ensures
        ascends(weights, before.push(next)),
        before.push(next).contains(next),
        forall|j: usize| #[trigger] before.contains(j) ==> before.push(next).contains(j),
{
    let after = before.push(next);
    assert(after[before.len() as int] == next);
    assert forall|j: usize| #[trigger] before.contains(j) implies after.contains(j) by {
        let at = choose|at: int| 0 <= at < before.len() && before[at] == j;
        assert(after[at] == j);
    }
    assert forall|p: int, q: int|
        #![trigger after[p], after[q]]
        0 <= p < q < after.len() implies ranks_before(weights, after[p] as int, after[q] as int) by {
        if q < before.len() {
            assert(after[p] == before[p] && after[q] == before[q]);
        } else {
            assert(after[p] == before[p]);
        }
    }
}

/// Merges two ranked neighbours. On equal weights the left one comes first,
/// since its indices are lower.
fn merge_ranked(
    weights: &[Scalar],
    lo: usize,
    mid: usize,
    hi: usize,
    left: &Vec<usize>,
    right: &Vec<usize>,
) -> (r: Vec<usize>)
    requires
        lo <= mid <= hi <= weights@.len(),
        ranks_all(weights@, lo as int, mid as int, left@),
        ranks_all(weights@, mid as int, hi as int, right@),
    ensures
        ranks_all(weights@, lo as int, hi as int, r@),
{
    let mut out: Vec<usize> = Vec::new();
    let mut i: usize = 0;
    let mut j: usize = 0;
    while i < left.len() || j < right.len()
        invariant
            lo <= mid <= hi <= weights@.len(),
            ranks_all(weights@, lo as int, mid as int, left@),
            ranks_all(weights@, mid as int, hi as int, right@),
            i <= left@.len(),
            j <= right@.len(),
            out@.len() == i + j,
            forall|p: int| 0 <= p < out@.len() ==> lo <= #[trigger] out@[p] < hi,
            ascends(weights@, out@),
            forall|p: int, q: int|
                #![trigger out@[p], left@[q]]
                0 <= p < out@.len() && i <= q < left@.len() ==> ranks_before(
                    weights@,
                    out@[p] as int,
                    left@[q] as int,
                ),
            forall|p: int, q: int|
                #![trigger out@[p], right@[q]]
                0 <= p < out@.len() && j <= q < right@.len() ==> ranks_before(
                    weights@,
                    out@[p] as int,
                    right@[q] as int,
                ),
            forall|q: int| 0 <= q < i ==> out@.contains(#[trigger] left@[q]),
            forall|q: int| 0 <= q < j ==> out@.contains(#[trigger] right@[q]),
        decreases left@.len() - i + right@.len() - j,
    {
        let ghost before = out@;
        let from_left: bool = if i == left.len() {
            false
        } else if j == right.len() {
            true
        } else {
            assert(left@[i as int] < mid && mid <= right@[j as int] < hi);
            key_of(weights[left[i]]) >= key_of(weights[right[j]])
        };
        if from_left {
            let next: usize = left[i];
            out.push(next);
            proof {
                lemma_append(weights@, before, next);
                assert forall|q: int| j <= q < right@.len() implies ranks_before(
                    weights@,
                    next as int,
                    #[trigger] right@[q] as int,
                ) by {
                    let first = right@[j as int];
                    assert(next < mid && mid <= right@[q]);
                    if q > j {
                        assert(ranks_before(weights@, first as int, right@[q] as int));
                    }
                }
            }
            i = i + 1;
        } else {
            let next: usize = right[j];
            out.push(next);
            proof {
                lemma_append(weights@, before, next);
                assert forall|q: int| i <= q < left@.len() implies ranks_before(
                    weights@,
                    next as int,
                    #[trigger] left@[q] as int,
                ) by {
                    let first = left@[i as int];
                    if q > i {
                        assert(ranks_before(weights@, first as int, left@[q] as int));
                    }
                }
            }
            j = j + 1;
        }
        proof {
            assert forall|p: int, q: int|
                #![trigger out@[p], left@[q]]
                0 <= p < out@.len() && i <= q < left@.len() implies ranks_before(
                weights@,
                out@[p] as int,
                left@[q] as int,
            ) by {
                if p < before.len() {
                    assert(out@[p] == before[p]);
                }
            }
            assert forall|p: int, q: int|
                #![trigger out@[p], right@[q]]
                0 <= p < out@.len() && j <= q < right@.len() implies ranks_before(
                weights@,
                out@[p] as int,
                right@[q] as int,
            ) by {
                if p < before.len() {
                    assert(out@[p] == before[p]);
                }
            }
        }
    }
    proof {
        assert forall|x: usize| lo <= x < hi implies #[trigger] out@.contains(x) by {
            if x < mid {
                assert(left@.contains(x));
                let q = choose|q: int| 0 <= q < left@.len() && left@[q] == x;
                assert(out@.contains(left@[q]));
            } else {
                assert(right@.contains(x));
                let q = choose|q: int| 0 <= q < right@.len() && right@[q] == x;
                assert(out@.contains(right@[q]));
            }
        }
    }
    out
}

/// The experts from `lo` up to `hi` by rank.
fn rank_range(weights: &[Scalar], lo: usize, hi: usize) -> (r: Vec<usize>)
    requires
        lo <= hi <= weights@.len(),
    ensures
        ranks_all(weights@, lo as int, hi as int, r@),
    decreases hi - lo,
{
    let mut out: Vec<usize> = Vec::new();
    if hi == lo {
        return out;
    }
    if hi - lo == 1 {
        out.push(lo);
        assert(out@[0] == lo);
        return out;
    }
    let mid: usize = lo + (hi - lo) / 2;
    let left = rank_range(weights, lo, mid);
    let right = rank_range(weights, mid, hi);
    merge_ranked(weights, lo, mid, hi, &left, &right)
}

/// Indices of the `top_k` largest weights, largest first. Ties go to the lower
/// index, and NaN comes last.
pub fn top_k_indices(weights: &[Scalar], top_k: usize) -> (r: Vec<usize>)
    ensures
        selects_top(weights@, weights@.len(), top_k as nat, r@),
{
    let n: usize = weights.len();
    if top_k == 0 {
        return Vec::new();
    }
    let mut selected = rank_range(weights, 0, n);
    let ghost ranked = selected@;
    if top_k < n {
        selected.truncate(top_k);
    }
    proof {
        assert forall|p: int, j: usize|
            #![trigger selected@[p], selected@.contains(j)]
            0 <= p < selected@.len() && j < n && !selected@.contains(j) implies ranks_before(
            weights@,
            selected@[p] as int,
            j as int,
        ) by {
            assert(ranked.contains(j));
            let at = choose|at: int| 0 <= at < ranked.len() && ranked[at] == j;
            if at < selected@.len() {
                assert(selected@[at] == j);
            }
            assert(selected@[p] == ranked[p]);
        }
    }
    selected
}

/// The weight counts toward the entropy: finite and above zero.
pub open spec fn weighty(w: Scalar) -> bool {
    w.finite() && scalar::scalar(0).below(w)
}

/// The weights that count toward the entropy, in order.
pub open spec fn weighty_only(weights: Seq<Scalar>) -> Seq<Scalar>
    decreases weights.len(),
{
    if weights.len() == 0 {
        weights
    } else if weighty(weights.last()) {
        weighty_only(weights.drop_last()).push(weights.last())
    } else {
        weighty_only(weights.drop_last())
    }
}

/// `t` is `-w * ln(w)`.
pub open spec fn entropy_term<M: Arithmetic>(w: Scalar, t: Scalar) -> bool {
    exists|l: Scalar|
        #[trigger] arithmetic::takes_log::<M>(w, l) && arithmetic::multiplies::<M>(
            w.negated(),
            l,
            t,
        )
}

/// `terms` holds the entropy term of each weight.
pub open spec fn entropy_terms<M: Arithmetic>(weights: Seq<Scalar>, terms: Seq<Scalar>) -> bool {
    &&& terms.len() == weights.len()
    &&& forall|i: int|
        0 <= i < terms.len() ==> entropy_term::<M>(weights[i], #[trigger] terms[i])
}

/// `total` is the entropy of the weights, accumulated wide.
pub open spec fn raw_entropy<M: Arithmetic>(weights: Seq<Scalar>, total: Wide) -> bool {
    exists|terms: Seq<Scalar>|
        #[trigger] entropy_terms::<M>(weighty_only(weights), terms) && arithmetic::wide_sums_to::<
            M,
        >(terms, total)
}

/// `highest` is the logarithm of `n`, the entropy of `n` equal weights.
pub open spec fn highest_entropy<M: Arithmetic>(n: usize, highest: Scalar) -> bool {
    exists|c: Scalar|
        #[trigger] arithmetic::counts::<M>(n, c) && arithmetic::takes_log::<M>(c, highest)
}

/// `r` is `total` over `highest`, clamped to the interval from `0` to `1`; zero
/// where `highest` is not above zero.
pub open spec fn entropy_ratio<M: Arithmetic>(total: Wide, highest: Scalar, r: Scalar) -> bool {
    if scalar::scalar(0).below(highest) {
        exists|h: Wide, q: Wide|
            arithmetic::widens::<M>(highest, h) && #[trigger] arithmetic::wide_divides::<M>(
                total,
                h,
                q,
            ) && arithmetic::narrows::<M>(q.clamped_to_unit(), r)
    } else {
        r == scalar::scalar(0)
    }
}

/// `r` is the normalized entropy of the weights.
pub open spec fn entropy_of<M: Arithmetic>(weights: Seq<Scalar>, r: Scalar) -> bool {
    if weights.len() <= 1 {
        r == scalar::scalar(0)
    } else {
        exists|total: Wide, highest: Scalar|
            raw_entropy::<M>(weights, total) && highest_entropy::<M>(
                weights.len() as usize,
                highest,
            ) && #[trigger] entropy_ratio::<M>(total, highest, r)
    }
}

/// Shannon entropy of a distribution over its largest possible value, in the
/// interval from `0` to `1`. No weights, or one, have entropy zero.
pub fn routing_entropy<M: Arithmetic>(weights: &[Scalar]) -> (r: Scalar)
    ensures
        entropy_of::<M>(weights@, r),
{
    let n: usize = weights.len();
    let zero = Scalar { bits: 0 };
    if n <= 1 {
        return zero;
    }
    let mut terms: Vec<Scalar> = Vec::new();
    let mut i: usize = 0;
    assert(weights@.take(0) =~= Seq::<Scalar>::empty());
    while i < n
        invariant
            i <= n,
            n == weights@.len(),
            zero == scalar::scalar(0),
            entropy_terms::<M>(weighty_only(weights@.take(i as int)), terms@),
        decreases n - i,
    {
        let w = weights[i];
        assert(weights@.take(i + 1).drop_last() =~= weights@.take(i as int));
        if w.is_finite() && zero.is_below(w) {
            let l = M::ln(w);
            let t = M::multiply(w.negate(), l);
            assert(arithmetic::takes_log::<M>(w, l));
            assert(entropy_term::<M>(w, t));
            terms.push(t);
        }
        i = i + 1;
    }
    assert(weights@.take(n as int) =~= weights@);
    let total = arithmetic::wide_sum::<M>(terms.as_slice());
    assert(raw_entropy::<M>(weights@, total));
    let c = M::count(n);
    let highest = M::ln(c);
    assert(arithmetic::counts::<M>(n, c));
    assert(highest_entropy::<M>(weights@.len() as usize, highest));
    if zero.is_below(highest) {
        let h = M::widen(highest);
        let q = M::wide_divide(total, h);
        let r = M::narrow(q.clamp_to_unit());
        assert(arithmetic::wide_divides::<M>(total, h, q));
        assert(entropy_ratio::<M>(total, highest, r));
        r
    } else {
        assert(entropy_ratio::<M>(total, highest, zero));
        zero
    }
}

/// What is wrong with a request for a synthetic route.
pub open spec fn synthetic_error(width: nat, num_experts: usize, top_k: usize) -> Option<
    error::ErrorView,
> {
    if width == 0 {
        Some(error::ErrorView::InvalidConfig("route_synthetic: embedding must be non-empty"@))
    } else if num_experts == 0 {
        Some(error::ErrorView::InvalidConfig("route_synthetic: num_experts must be >= 1"@))
    } else if num_experts > MAX_REASONABLE_EXPERTS {
        Some(
            error::ErrorView::InvalidConfig(
                "route_synthetic: num_experts ("@ + text::decimal(num_experts as nat)
                    + ") exceeds max "@ + text::decimal(MAX_REASONABLE_EXPERTS as nat),
            ),
        )
    } else if top_k == 0 {
        Some(error::ErrorView::InvalidConfig("route_synthetic: top_k must be >= 1"@))
    } else {
        None
    }
}

/// The smaller of two numbers.
pub open spec fn smaller(a: usize, b: usize) -> usize {
    if a < b {
        a
    } else {
        b
    }
}

/// The weights, the selection and the entropy are those of a synthetic route.
pub open spec fn synthetic_route<M: Arithmetic>(
    embedding: Seq<Scalar>,
    num_experts: usize,
    top_k: usize,
    weights: Seq<Scalar>,
    selected: Seq<usize>,
    entropy: Scalar,
) -> bool {
    exists|scores: Seq<Scalar>|
        #[trigger] gate_scores::<M>(num_experts, embedding, scores) && softmaxes::<M>(
            scores,
            weights,
        ) && selects_top(
            weights,
            weights.len(),
            smaller(top_k, num_experts) as nat,
            selected,
        ) && entropy_of::<M>(weights, entropy)
}

/// A whole synthetic route: gate scores, softmax, selection and entropy.
pub fn route_synthetic<M: Arithmetic>(
    embedding: &[Scalar],
    num_experts: usize,
    top_k: usize,
) -> (r: Result<(Vec<Scalar>, Vec<usize>, Scalar), HybridError>)
    ensures
        match r {
            Ok(route) => {
                &&& synthetic_error(embedding@.len(), num_experts, top_k) is None
                &&& synthetic_route::<M>(
                    embedding@,
                    num_experts,
                    top_k,
                    route.0@,
                    route.1@,
                    route.2,
                )
            },
            Err(e) => synthetic_error(embedding@.len(), num_experts, top_k) == Some(e@),
        },
{
    if embedding.len() == 0 {
        return Err(
            HybridError::InvalidConfig(
                String::from_str("route_synthetic: embedding must be non-empty"),
            ),
        );
    }
    if num_experts == 0 {
        return Err(
            HybridError::InvalidConfig(
                String::from_str("route_synthetic: num_experts must be >= 1"),
            ),
        );
    }
    if num_experts > MAX_REASONABLE_EXPERTS {
        let mut message = text::with_number(
            "route_synthetic: num_experts (",
            num_experts,
            ") exceeds max ",
        );
        text::push_decimal(&mut message, MAX_REASONABLE_EXPERTS);
        return Err(HybridError::InvalidConfig(message));
    }
    if top_k == 0 {
        return Err(
            HybridError::InvalidConfig(String::from_str("route_synthetic: top_k must be >= 1")),
        );
    }
    let scores = synthetic_gate_scores::<M>(num_experts, embedding);
    let weights = softmax::<M>(scores.as_slice());
    let k: usize = if top_k < num_experts {
        top_k
    } else {
        num_experts
    };
    let selected = top_k_indices(weights.as_slice(), k);
    let entropy = routing_entropy::<M>(weights.as_slice());
    Ok((weights, selected, entropy))
}

/// A softmax has one weight per score.
pub proof fn law_softmax_length<M: Arithmetic>(scores: Seq<Scalar>, weights: Seq<Scalar>)
    requires
        softmaxes::<M>(scores, weights),
    ensures
        weights.len() == scores.len(),
{
}

/// A selection has as many experts as were asked for, or all there are; its
/// experts exist, are distinct, and none is left out for a lighter one.
pub proof fn law_selection(weights: Seq<Scalar>, k: nat, selected: Seq<usize>)
    requires
        selects_top(weights, weights.len(), k, selected),
    ensures
        selected.len() == if k < weights.len() {
            k
        } else {
            weights.len()
        },
        selected.no_duplicates(),
        forall|p: int| 0 <= p < selected.len() ==> #[trigger] selected[p] < weights.len(),
        forall|p: int, j: usize|
            #![trigger selected[p], selected.contains(j)]
            0 <= p < selected.len() && j < weights.len() && !selected.contains(j) ==> rank_key(
                weights[selected[p] as int],
            ) >= rank_key(weights[j as int]),
{
    assert forall|p: int, q: int|
        0 <= p < selected.len() && 0 <= q < selected.len() && p != q implies selected[p]
        != selected[q] by {
        if p < q {
            assert(ranks_before(weights, selected[p] as int, selected[q] as int));
        } else {
            assert(ranks_before(weights, selected[q] as int, selected[p] as int));
        }
    }
}

/// There is one selection: weights and `k` determine it.
pub proof fn law_selection_is_unique(
    weights: Seq<Scalar>,
    k: nat,
    a: Seq<usize>,
    b: Seq<usize>,
)
    requires
        selects_top(weights, weights.len(), k, a),
        selects_top(weights, weights.len(), k, b),
    ensures
        a == b,
{
    assert forall|p: int| 0 <= p < a.len() implies a[p] == b[p] by {
        lemma_selection_agrees(weights, k, a, b, p);
    }
    assert(a =~= b);
}

/// Two selections agree at every place.
proof fn lemma_selection_agrees(
    weights: Seq<Scalar>,
    k: nat,
    a: Seq<usize>,
    b: Seq<usize>,
    p: int,
)
    requires
        selects_top(weights, weights.len(), k, a),
        selects_top(weights, weights.len(), k, b),
        0 <= p < a.len(),
    ensures
        a[p] == b[p],
    decreases p,
{
    assert forall|q: int| 0 <= q < p implies a[q] == b[q] by {
        lemma_selection_agrees(weights, k, a, b, q);
    }
    if a[p] != b[p] {
        lemma_next_not_after(weights, k, a, b, p);
        lemma_next_not_after(weights, k, b, a, p);
    }
}

/// Where two selections agree up to `p`, the expert at `p` of the first ranks
/// before that of the second, if they differ.
proof fn lemma_next_not_after(
    weights: Seq<Scalar>,
    k: nat,
    a: Seq<usize>,
    b: Seq<usize>,
    p: int,
)
    requires
        selects_top(weights, weights.len(), k, a),
        selects_top(weights, weights.len(), k, b),
        0 <= p < a.len(),
        forall|q: int| 0 <= q < p ==> a[q] == b[q],
        a[p] != b[p],
    ensures
        ranks_before(weights, a[p] as int, b[p] as int),
{
    let x = b[p];
    assert(x < weights.len());
    if a.contains(x) {
        let at = choose|at: int| 0 <= at < a.len() && a[at] == x;
        if at < p {
            assert(b[at] == x);
            assert(ranks_before(weights, b[at] as int, b[p] as int));
        } else {
            assert(at != p);
            assert(ranks_before(weights, a[p] as int, a[at] as int));
        }
    } else {
        assert(ranks_before(weights, a[p] as int, x as int));
    }
}

/// On a deterministic host an embedding has one set of gate scores.
pub proof fn law_gate_scores_are_unique<M: Arithmetic>(
    num_experts: usize,
    embedding: Seq<Scalar>,
    a: Seq<Scalar>,
    b: Seq<Scalar>,
)
    requires
        arithmetic::deterministic::<M>(),
        gate_scores::<M>(num_experts, embedding, a),
        gate_scores::<M>(num_experts, embedding, b),
    ensures
        a == b,
{
    assert forall|e: int| 0 <= e < a.len() implies a[e] == b[e] by {
        let part = chunk(embedding, e, num_experts as int);
        assert(arithmetic::sums_to::<M>(part, a[e]));
        assert(arithmetic::sums_to::<M>(part, b[e]));
        arithmetic::law_sum_is_unique::<M>(part, a[e], b[e]);
    }
    assert(a =~= b);
}

/// On a deterministic host scores have one softmax.
pub proof fn law_softmax_is_unique<M: Arithmetic>(
    scores: Seq<Scalar>,
    a: Seq<Scalar>,
    b: Seq<Scalar>,
)
    requires
        arithmetic::deterministic::<M>(),
        softmaxes::<M>(scores, a),
        softmaxes::<M>(scores, b),
    ensures
        a == b,
{
    if scores.len() == 0 {
        assert(a =~= b);
    } else if greatest(scores).finite() {
        let highest = greatest(scores);
        let ea = choose|exps: Seq<Scalar>| #[trigger]
            shifted_exps::<M>(scores, highest, exps) && normalized::<M>(exps, a);
        let eb = choose|exps: Seq<Scalar>| #[trigger]
            shifted_exps::<M>(scores, highest, exps) && normalized::<M>(exps, b);
        assert forall|i: int| 0 <= i < ea.len() implies ea[i] == eb[i] by {
            assert(shifted_exp::<M>(scores[i], highest, ea[i]));
            assert(shifted_exp::<M>(scores[i], highest, eb[i]));
        }
        assert(ea =~= eb);
        lemma_normalized_is_unique::<M>(ea, a, b);
    }
}

/// On a deterministic host exponentials are normalized in one way.
proof fn lemma_normalized_is_unique<M: Arithmetic>(
    exps: Seq<Scalar>,
    a: Seq<Scalar>,
    b: Seq<Scalar>,
)
    requires
        arithmetic::deterministic::<M>(),
        normalized::<M>(exps, a),
        normalized::<M>(exps, b),
    ensures
        a == b,
{
    let ta = choose|total: Wide| #[trigger]
        arithmetic::wide_sums_to::<M>(exps, total) && if total.finite_positive() {
            shares::<M>(exps, total, a)
        } else {
            uniform::<M>(exps.len(), a)
        };
    let tb = choose|total: Wide| #[trigger]
        arithmetic::wide_sums_to::<M>(exps, total) && if total.finite_positive() {
            shares::<M>(exps, total, b)
        } else {
            uniform::<M>(exps.len(), b)
        };
    arithmetic::law_wide_sum_is_unique::<M>(exps, ta, tb);
    if ta.finite_positive() {
        assert forall|i: int| 0 <= i < a.len() implies a[i] == b[i] by {
            assert(share::<M>(exps[i], ta, a[i]));
            assert(share::<M>(exps[i], ta, b[i]));
        }
        assert(a =~= b);
    }
}

/// On a deterministic host weights have one entropy.
pub proof fn law_entropy_is_unique<M: Arithmetic>(weights: Seq<Scalar>, a: Scalar, b: Scalar)
    requires
        arithmetic::deterministic::<M>(),
        entropy_of::<M>(weights, a),
        entropy_of::<M>(weights, b),
    ensures
        a == b,
{
    if weights.len() > 1 {
        let n = weights.len() as usize;
        let (ta, ha) = choose|total: Wide, highest: Scalar|
            raw_entropy::<M>(weights, total) && highest_entropy::<M>(n, highest)
                && #[trigger] entropy_ratio::<M>(total, highest, a);
        let (tb, hb) = choose|total: Wide, highest: Scalar|
            raw_entropy::<M>(weights, total) && highest_entropy::<M>(n, highest)
                && #[trigger] entropy_ratio::<M>(total, highest, b);
        let kept = weighty_only(weights);
        let sa = choose|terms: Seq<Scalar>| #[trigger]
            entropy_terms::<M>(kept, terms) && arithmetic::wide_sums_to::<M>(terms, ta);
        let sb = choose|terms: Seq<Scalar>| #[trigger]
            entropy_terms::<M>(kept, terms) && arithmetic::wide_sums_to::<M>(terms, tb);
        assert forall|i: int| 0 <= i < sa.len() implies sa[i] == sb[i] by {
            assert(entropy_term::<M>(kept[i], sa[i]));
            assert(entropy_term::<M>(kept[i], sb[i]));
        }
        assert(sa =~= sb);
        arithmetic::law_wide_sum_is_unique::<M>(sa, ta, tb);
        assert(ha == hb);
    }
}

/// On a deterministic host an embedding has one synthetic route.
pub proof fn law_synthetic_route_is_unique<M: Arithmetic>(
    embedding: Seq<Scalar>,
    num_experts: usize,
    top_k: usize,
    a: (Seq<Scalar>, Seq<usize>, Scalar),
    b: (Seq<Scalar>, Seq<usize>, Scalar),
)
    requires
        arithmetic::deterministic::<M>(),
        synthetic_route::<M>(embedding, num_experts, top_k, a.0, a.1, a.2),
        synthetic_route::<M>(embedding, num_experts, top_k, b.0, b.1, b.2),
    ensures
        a == b,
{
    let k = smaller(top_k, num_experts) as nat;
    let sa = choose|scores: Seq<Scalar>| #[trigger]
        gate_scores::<M>(num_experts, embedding, scores) && softmaxes::<M>(scores, a.0)
            && selects_top(a.0, a.0.len(), k, a.1) && entropy_of::<M>(a.0, a.2);
    let sb = choose|scores: Seq<Scalar>| #[trigger]
        gate_scores::<M>(num_experts, embedding, scores) && softmaxes::<M>(scores, b.0)
            && selects_top(b.0, b.0.len(), k, b.1) && entropy_of::<M>(b.0, b.2);
    law_gate_scores_are_unique::<M>(num_experts, embedding, sa, sb);
    law_softmax_is_unique::<M>(sa, a.0, b.0);
    law_selection_is_unique(a.0, k, a.1, b.1);
    law_entropy_is_unique::<M>(a.0, a.2, b.2);
}

/// A synthetic route has one weight per expert, selects as many experts as
/// asked for or all, and selects distinct experts that exist.
pub proof fn law_synthetic_route_is_well_formed<M: Arithmetic>(
    embedding: Seq<Scalar>,
    num_experts: usize,
    top_k: usize,
    weights: Seq<Scalar>,
    selected: Seq<usize>,
    entropy: Scalar,
)
    requires
        synthetic_error(embedding.len(), num_experts, top_k) is None,
        synthetic_route::<M>(embedding, num_experts, top_k, weights, selected, entropy),
    ensures
        weights.len() == num_experts,
        selected.len() == smaller(top_k, num_experts),
        selected.no_duplicates(),
        forall|p: int| 0 <= p < selected.len() ==> #[trigger] selected[p] < num_experts,
{
    law_selection(weights, smaller(top_k, num_experts) as nat, selected);
}

/// The host narrows a number of the interval from `0` to `1` to one of that
/// interval.
pub open spec fn narrowing<M: Arithmetic>() -> bool {
    forall|a: Wide, r: Scalar| #[trigger]
        arithmetic::narrows::<M>(a, r) && 0 <= a.ordinal() <= scalar::WIDE_ONE_BITS ==> 0
            <= r.ordinal() <= scalar::ONE_BITS
}

/// The binary64 pattern of `2^53`. Adding at most one to a number up to it does
/// not pass it, since the next number is further away.
pub const SUM_LIMIT_BITS: u64 = 0x4340_0000_0000_0000;

/// A number of at most one.
pub open spec fn at_most_one(t: Scalar) -> bool {
    !t.nan() && t.ordinal() <= scalar::ONE_BITS
}

/// What the entropy asks of the host: the term of a weight is at most one, as
/// `-w * ln(w)` is; such terms are widened and added up without NaN; the
/// logarithm of a count is finite where it is above zero; and a number over a
/// finite one above zero is a number.
pub open spec fn entropic<M: Arithmetic>() -> bool {
    &&& forall|w: Scalar, l: Scalar, t: Scalar|
        #![trigger arithmetic::takes_log::<M>(w, l), arithmetic::multiplies::<M>(w.negated(), l, t)]
        weighty(w) && arithmetic::takes_log::<M>(w, l) && arithmetic::multiplies::<M>(
            w.negated(),
            l,
            t,
        ) ==> at_most_one(t)
    &&& forall|a: Scalar, r: Wide| #[trigger]
        arithmetic::widens::<M>(a, r) ==> {
            &&& at_most_one(a) ==> !r.nan() && r.ordinal() <= scalar::WIDE_ONE_BITS
            &&& a.finite() && a.ordinal() > 0 ==> r.finite_positive()
        }
    &&& forall|a: Wide, b: Wide, r: Wide| #[trigger]
        arithmetic::wide_adds::<M>(a, b, r) && !a.nan() && !b.nan() && a.ordinal() <= SUM_LIMIT_BITS
            && b.ordinal() <= scalar::WIDE_ONE_BITS ==> !r.nan() && r.ordinal() <= SUM_LIMIT_BITS
    &&& forall|n: usize, h: Scalar| #[trigger]
        highest_entropy::<M>(n, h) && scalar::scalar(0).below(h) ==> h.finite()
    &&& forall|a: Wide, b: Wide, r: Wide| #[trigger]
        arithmetic::wide_divides::<M>(a, b, r) && !a.nan() && b.finite_positive() ==> !r.nan()
}

/// Terms of at most one add up to a number.
proof fn lemma_terms_add_up<M: Arithmetic>(terms: Seq<Scalar>, total: Wide)
    requires
        entropic::<M>(),
        forall|i: int| 0 <= i < terms.len() ==> at_most_one(#[trigger] terms[i]),
        arithmetic::wide_sums_to::<M>(terms, total),
    ensures
        !total.nan(),
        total.ordinal() <= SUM_LIMIT_BITS,
    decreases terms.len(),
{
    if terms.len() > 0 {
        let (before, last) = choose|before: Wide, last: Wide|
            arithmetic::wide_sums_to::<M>(terms.drop_last(), before) && arithmetic::widens::<M>(
                terms.last(),
                last,
            ) && #[trigger] arithmetic::wide_adds::<M>(before, last, total);
        assert forall|i: int| 0 <= i < terms.drop_last().len() implies at_most_one(
            #[trigger] terms.drop_last()[i],
        ) by {
            assert(at_most_one(terms[i]));
        }
        lemma_terms_add_up::<M>(terms.drop_last(), before);
        assert(at_most_one(terms[terms.len() - 1]));
    }
}

/// What counts toward the entropy is finite and above zero.
proof fn lemma_weighty_only(weights: Seq<Scalar>)
    ensures
        forall|i: int| 0 <= i < weighty_only(weights).len() ==> weighty(
            #[trigger] weighty_only(weights)[i],
        ),
    decreases weights.len(),
{
    if weights.len() > 0 {
        let front = weighty_only(weights.drop_last());
        lemma_weighty_only(weights.drop_last());
        assert forall|i: int| 0 <= i < weighty_only(weights).len() implies weighty(
            #[trigger] weighty_only(weights)[i],
        ) by {
            if i < front.len() {
                assert(weighty_only(weights)[i] == front[i]);
            }
        }
    }
}

/// The entropy of any weights lies in the interval from `0` to `1`, on a host
/// that narrows within it and on which logarithms, their products and sums are
/// in order.
pub proof fn law_entropy_in_unit<M: Arithmetic>(weights: Seq<Scalar>, entropy: Scalar)
    requires
        narrowing::<M>(),
        entropic::<M>(),
        entropy_of::<M>(weights, entropy),
    ensures
        entropy.finite(),
        0 <= entropy.ordinal() <= scalar::ONE_BITS,
{
    if weights.len() > 1 {
        let n = weights.len() as usize;
        let (total, highest) = choose|total: Wide, highest: Scalar|
            raw_entropy::<M>(weights, total) && highest_entropy::<M>(n, highest)
                && #[trigger] entropy_ratio::<M>(total, highest, entropy);
        let kept = weighty_only(weights);
        lemma_weighty_only(weights);
        let terms = choose|terms: Seq<Scalar>| #[trigger]
            entropy_terms::<M>(kept, terms) && arithmetic::wide_sums_to::<M>(terms, total);
        assert forall|i: int| 0 <= i < terms.len() implies at_most_one(#[trigger] terms[i]) by {
            assert(entropy_term::<M>(kept[i], terms[i]));
            assert(weighty(kept[i]));
        }
        lemma_terms_add_up::<M>(terms, total);
        if scalar::scalar(0).below(highest) {
            assert(highest_entropy::<M>(n, highest));
            let (h, q) = choose|h: Wide, q: Wide|
                arithmetic::widens::<M>(highest, h) && #[trigger] arithmetic::wide_divides::<M>(
                    total,
                    h,
                    q,
                ) && arithmetic::narrows::<M>(q.clamped_to_unit(), entropy);
            assert(h.finite_positive());
            assert(arithmetic::narrows::<M>(q.clamped_to_unit(), entropy));
        }
    }
}

/// What weights ask of the host: exponentials are not negative, or NaN; widening
/// keeps that; a wide sum with NaN in it is NaN, and one of numbers that are not
/// negative is at least each of them; and a part over its whole lies in the
/// interval from `0` to `1`.
pub open spec fn weighing<M: Arithmetic>() -> bool {
    &&& forall|a: Scalar, r: Scalar| #[trigger]
        arithmetic::exponentiates::<M>(a, r) ==> r.nan() || r.nonnegative()
    &&& forall|a: Scalar, r: Wide| #[trigger]
        arithmetic::widens::<M>(a, r) ==> {
            &&& a.nan() ==> r.nan()
            &&& a.nonnegative() ==> r.nonnegative()
        }
    &&& forall|a: Wide, b: Wide, r: Wide| #[trigger]
        arithmetic::wide_adds::<M>(a, b, r) ==> {
            &&& a.nan() || b.nan() ==> r.nan()
            &&& a.nonnegative() && b.nonnegative() ==> r.nonnegative() && a.ordinal() <= r.ordinal()
                && b.ordinal() <= r.ordinal()
        }
    &&& forall|a: Wide, b: Wide, r: Wide| #[trigger]
        arithmetic::wide_divides::<M>(a, b, r) && a.nonnegative() && a.ordinal() <= b.ordinal()
            && b.finite_positive() ==> 0 <= r.ordinal() <= scalar::WIDE_ONE_BITS
}

/// A wide sum is NaN, or at least each of the numbers that it adds up.
proof fn lemma_sum_dominates<M: Arithmetic>(xs: Seq<Scalar>, total: Wide)
    requires
        arithmetic::deterministic::<M>(),
        weighing::<M>(),
        forall|i: int| 0 <= i < xs.len() ==> (#[trigger] xs[i]).nan() || xs[i].nonnegative(),
        arithmetic::wide_sums_to::<M>(xs, total),
    ensures
        total.nan() || {
            &&& total.nonnegative()
            &&& forall|i: int, w: Wide|
                0 <= i < xs.len() && #[trigger] arithmetic::widens::<M>(xs[i], w)
                    ==> w.nonnegative() && w.ordinal() <= total.ordinal()
        },
    decreases xs.len(),
{
    if xs.len() > 0 {
        let end = xs.len() - 1;
        let front = xs.drop_last();
        let (before, last) = choose|before: Wide, last: Wide|
            arithmetic::wide_sums_to::<M>(front, before) && arithmetic::widens::<M>(
                xs.last(),
                last,
            ) && #[trigger] arithmetic::wide_adds::<M>(before, last, total);
        assert forall|i: int| 0 <= i < front.len() implies (#[trigger] front[i]).nan()
            || front[i].nonnegative() by {
            assert(xs[i].nan() || xs[i].nonnegative());
        }
        lemma_sum_dominates::<M>(front, before);
        assert(xs[end].nan() || xs[end].nonnegative());
        if !total.nan() {
            assert forall|i: int, w: Wide|
                0 <= i < xs.len() && #[trigger] arithmetic::widens::<M>(
                    xs[i],
                    w,
                ) implies w.nonnegative() && w.ordinal() <= total.ordinal() by {
                if i < end {
                    assert(arithmetic::widens::<M>(front[i], w));
                } else {
                    assert(w == last);
                }
            }
        }
    }
}

/// Uniform weights are finite and not negative.
pub proof fn law_uniform_weights<M: Arithmetic>(n: nat, weights: Seq<Scalar>)
    requires
        arithmetic::keeps_nonnegative::<M>(),
        0 < n <= usize::MAX,
        uniform::<M>(n, weights),
    ensures
        weights.len() == n,
        forall|i: int| 0 <= i < weights.len() ==> (#[trigger] weights[i]).finite_nonnegative(),
{
    let u = choose|u: Scalar| #[trigger]
        arithmetic::inverts::<M>(n as usize, u) && weights == Seq::new(n, |i: int| u);
    assert(scalar::scalar(scalar::ONE_BITS).nonnegative());
    assert(u.finite_nonnegative());
}

/// The weights of a softmax are finite and not negative, whatever the scores.
pub proof fn law_softmax_weights<M: Arithmetic>(scores: Seq<Scalar>, weights: Seq<Scalar>)
    requires
        arithmetic::deterministic::<M>(),
        arithmetic::keeps_nonnegative::<M>(),
        weighing::<M>(),
        narrowing::<M>(),
        scores.len() <= usize::MAX,
        softmaxes::<M>(scores, weights),
    ensures
        weights.len() == scores.len(),
        forall|i: int| 0 <= i < weights.len() ==> (#[trigger] weights[i]).finite_nonnegative(),
{
    if scores.len() > 0 {
        if !greatest(scores).finite() {
            law_uniform_weights::<M>(scores.len(), weights);
        } else {
            let highest = greatest(scores);
            let exps = choose|exps: Seq<Scalar>| #[trigger]
                shifted_exps::<M>(scores, highest, exps) && normalized::<M>(exps, weights);
            let total = choose|total: Wide| #[trigger]
                arithmetic::wide_sums_to::<M>(exps, total) && if total.finite_positive() {
                    shares::<M>(exps, total, weights)
                } else {
                    uniform::<M>(exps.len(), weights)
                };
            if total.finite_positive() {
                assert forall|i: int| 0 <= i < exps.len() implies (#[trigger] exps[i]).nan()
                    || exps[i].nonnegative() by {
                    assert(shifted_exp::<M>(scores[i], highest, exps[i]));
                }
                lemma_sum_dominates::<M>(exps, total);
                assert forall|i: int| 0 <= i < weights.len() implies (
                #[trigger] weights[i]).finite_nonnegative() by {
                    assert(share::<M>(exps[i], total, weights[i]));
                    let (w, q) = choose|w: Wide, q: Wide|
                        arithmetic::widens::<M>(exps[i], w)
                            && #[trigger] arithmetic::wide_divides::<M>(w, total, q)
                            && arithmetic::narrows::<M>(q, weights[i]);
                    assert(arithmetic::narrows::<M>(q, weights[i]));
                }
            } else {
                law_uniform_weights::<M>(exps.len(), weights);
            }
        }
    }
}

/// Experts rank by their weights as numbers: the one with the larger weight
/// before the one with the smaller, any number before NaN, and of equal weights
/// the one with the smaller index.
pub proof fn law_rank_is_by_weight(weights: Seq<Scalar>, a: int, b: int)
    requires
        0 <= a < weights.len(),
        0 <= b < weights.len(),
    ensures
        weights[b].below(weights[a]) ==> ranks_before(weights, a, b) && !ranks_before(
            weights,
            b,
            a,
        ),
        !weights[a].nan() && weights[b].nan() ==> ranks_before(weights, a, b) && !ranks_before(
            weights,
            b,
            a,
        ),
        !weights[a].nan() && !weights[b].nan() && !weights[a].below(weights[b])
            && !weights[b].below(weights[a]) ==> (ranks_before(weights, a, b) <==> a < b),
        weights[a].nan() && weights[b].nan() ==> (ranks_before(weights, a, b) <==> a < b),
        weights[a].finite() && weights[b].finite() && weights[a].value() > weights[b].value()
            ==> ranks_before(weights, a, b),
{
    scalar::law_order_is_numeric(weights[b], weights[a]);
}

/// A selection goes by the weights as numbers. No expert left out has a weight
/// above that of one selected, or has a number where the selected has NaN; nor
/// does one selected later against one selected earlier. Between equal weights
/// the smaller index wins.
pub proof fn law_selection_is_by_weight(weights: Seq<Scalar>, k: nat, selected: Seq<usize>)
    requires
        selects_top(weights, weights.len(), k, selected),
    ensures
        forall|p: int, j: usize|
            #![trigger selected[p], selected.contains(j)]
            0 <= p < selected.len() && j < weights.len() && !selected.contains(j) ==> {
                let s = selected[p];
                &&& !weights[s as int].below(weights[j as int])
                &&& weights[s as int].nan() ==> weights[j as int].nan()
                &&& weights[j as int].below(weights[s as int]) || (!weights[s as int].nan()
                    && weights[j as int].nan()) || s < j
            },
        forall|p: int, q: int|
            #![trigger selected[p], selected[q]]
            0 <= p < q < selected.len() ==> {
                let s = selected[p];
                let t = selected[q];
                &&& !weights[s as int].below(weights[t as int])
                &&& weights[s as int].nan() ==> weights[t as int].nan()
                &&& weights[t as int].below(weights[s as int]) || (!weights[s as int].nan()
                    && weights[t as int].nan()) || s < t
            },
{
    assert forall|p: int, j: usize|
        #![trigger selected[p], selected.contains(j)]
        0 <= p < selected.len() && j < weights.len() && !selected.contains(j) implies {
        let s = selected[p];
        &&& !weights[s as int].below(weights[j as int])
        &&& weights[s as int].nan() ==> weights[j as int].nan()
        &&& weights[j as int].below(weights[s as int]) || (!weights[s as int].nan()
            && weights[j as int].nan()) || s < j
    } by {
        assert(selected[p] < weights.len());
        assert(ranks_before(weights, selected[p] as int, j as int));
    }
    assert forall|p: int, q: int|
        #![trigger selected[p], selected[q]]
        0 <= p < q < selected.len() implies {
        let s = selected[p];
        let t = selected[q];
        &&& !weights[s as int].below(weights[t as int])
        &&& weights[s as int].nan() ==> weights[t as int].nan()
        &&& weights[t as int].below(weights[s as int]) || (!weights[s as int].nan()
            && weights[t as int].nan()) || s < t
    } by {
        assert(ranks_before(weights, selected[p] as int, selected[q] as int));
    }
}

/// Where an expert is selected, every expert with a larger weight is too, and
/// earlier.
pub proof fn law_heavier_is_selected_first(
    weights: Seq<Scalar>,
    k: nat,
    selected: Seq<usize>,
    light: int,
    heavy: usize,
)
    requires
        selects_top(weights, weights.len(), k, selected),
        0 <= light < selected.len(),
        heavy < weights.len(),
        weights[selected[light] as int].below(weights[heavy as int]),
    ensures
        exists|p: int| 0 <= p < light && #[trigger] selected[p] == heavy,
{
    law_selection_is_by_weight(weights, k, selected);
    assert(selected[light] < weights.len());
    if !selected.contains(heavy) {
        assert(!weights[selected[light] as int].below(weights[heavy as int]));
    }
    let p = choose|p: int| 0 <= p < selected.len() && selected[p] == heavy;
    assert(selected[p] == heavy);
    if light < p {
        assert(!weights[selected[light] as int].below(weights[selected[p] as int]));
    }
}

/// The largest score is one of those that are numbers, and none of them is
/// above it; where none is a number it is negative infinity.
pub proof fn law_greatest(scores: Seq<Scalar>)
    ensures
        !greatest(scores).nan(),
        forall|i: int| 0 <= i < scores.len() ==> !greatest(scores).below(#[trigger] scores[i]),
        (exists|i: int| 0 <= i < scores.len() && #[trigger] scores[i] == greatest(scores) && !(
        scores[i].nan())) || ((forall|i: int|
            0 <= i < scores.len() ==> (#[trigger] scores[i]).nan()) && greatest(scores).bits
            == 0xff80_0000),
    decreases scores.len(),
{
    if scores.len() > 0 {
        let front = scores.drop_last();
        let n = scores.len() - 1;
        law_greatest(front);
        let g = greatest(scores);
        assert forall|i: int| 0 <= i < scores.len() implies !g.below(#[trigger] scores[i]) by {
            if i < n {
                assert(front[i] == scores[i]);
            }
        }
        if exists|i: int| 0 <= i < front.len() && #[trigger] front[i] == greatest(front) && !(
        front[i].nan()) {
            let i = choose|i: int|
                0 <= i < front.len() && #[trigger] front[i] == greatest(front) && !front[i].nan();
            assert(scores[i] == front[i]);
            assert(scores[n] == scores.last());
            if g == greatest(front) {
                assert(scores[i] == g && !scores[i].nan());
            } else {
                assert(scores[n] == g && !scores[n].nan());
            }
        } else {
            assert(greatest(front).bits == 0xff80_0000);
            assert(scores[n] == scores.last());
            if scores[n].nan() {
                assert forall|i: int| 0 <= i < scores.len() implies (#[trigger] scores[i]).nan() by {
                    if i < n {
                        assert(front[i].nan());
                    }
                }
            } else {
                assert(scores[n] == g && !scores[n].nan());
            }
        }
    }
}

/// The host's difference rests on the exact one: finite numbers that differ by
/// as much have the same rounded difference, up to the sign of a zero. And its
/// exponential rests on the number, not on the sign of a zero.
pub open spec fn rests_on_differences<M: Arithmetic>() -> bool {
    &&& forall|a: Scalar, b: Scalar, c: Scalar, d: Scalar, r: Scalar, s: Scalar|
        #![trigger arithmetic::subtracts::<M>(a, b, r), arithmetic::subtracts::<M>(c, d, s)]
        arithmetic::subtracts::<M>(a, b, r) && arithmetic::subtracts::<M>(c, d, s) && a.finite()
            && b.finite() && c.finite() && d.finite() && a.value() - b.value() == c.value()
            - d.value() ==> r == s || (r.finite() && s.finite() && r.value() == s.value())
    &&& forall|a: Scalar, b: Scalar, r: Scalar, s: Scalar|
        #![trigger arithmetic::exponentiates::<M>(a, r), arithmetic::exponentiates::<M>(b, s)]
        arithmetic::exponentiates::<M>(a, r) && arithmetic::exponentiates::<M>(b, s) && (a == b || (
        a.finite() && b.finite() && a.value() == b.value())) ==> r == s
}

/// Softmax depends on the differences of scores only: two vectors of scores that
/// differ by the same amount at every index have the same weights, whatever the
/// largest score.
pub proof fn law_softmax_ignores_a_shift<M: Arithmetic>(
    a: Seq<Scalar>,
    b: Seq<Scalar>,
    shift: int,
    weights_a: Seq<Scalar>,
    weights_b: Seq<Scalar>,
)
    requires
        arithmetic::deterministic::<M>(),
        rests_on_differences::<M>(),
        a.len() == b.len(),
        forall|i: int| 0 <= i < a.len() ==> (#[trigger] a[i]).finite(),
        forall|i: int| 0 <= i < b.len() ==> (#[trigger] b[i]).finite(),
        forall|i: int| 0 <= i < a.len() ==> #[trigger] b[i].value() == #[trigger] a[i].value() + shift,
        softmaxes::<M>(a, weights_a),
        softmaxes::<M>(b, weights_b),
    ensures
        weights_a == weights_b,
{
    if a.len() == 0 {
        assert(weights_a =~= weights_b);
    } else {
        let ga = greatest(a);
        let gb = greatest(b);
        law_greatest(a);
        law_greatest(b);
        assert(a[0].finite() && b[0].finite());
        let ha = choose|i: int| 0 <= i < a.len() && #[trigger] a[i] == ga && !a[i].nan();
        let hb = choose|i: int| 0 <= i < b.len() && #[trigger] b[i] == gb && !b[i].nan();
        assert(a[ha].finite() && b[hb].finite());
        assert(!ga.below(a[hb]) && !gb.below(b[ha]));
        scalar::law_order_is_numeric(ga, a[hb]);
        scalar::law_order_is_numeric(gb, b[ha]);
        assert(b[ha].value() == a[ha].value() + shift);
        assert(b[hb].value() == a[hb].value() + shift);
        assert(gb.value() == ga.value() + shift);
        let ea = choose|exps: Seq<Scalar>| #[trigger]
            shifted_exps::<M>(a, ga, exps) && normalized::<M>(exps, weights_a);
        let eb = choose|exps: Seq<Scalar>| #[trigger]
            shifted_exps::<M>(b, gb, exps) && normalized::<M>(exps, weights_b);
        assert forall|i: int| 0 <= i < ea.len() implies ea[i] == eb[i] by {
            assert(shifted_exp::<M>(a[i], ga, ea[i]));
            assert(shifted_exp::<M>(b[i], gb, eb[i]));
            assert(a[i].finite() && b[i].finite());
            assert(b[i].value() == a[i].value() + shift);
            let da = choose|d: Scalar| #[trigger]
                arithmetic::subtracts::<M>(a[i], ga, d) && arithmetic::exponentiates::<M>(d, ea[i]);
            let db = choose|d: Scalar| #[trigger]
                arithmetic::subtracts::<M>(b[i], gb, d) && arithmetic::exponentiates::<M>(d, eb[i]);
            assert(arithmetic::subtracts::<M>(a[i], ga, da));
            assert(arithmetic::subtracts::<M>(b[i], gb, db));
            assert(arithmetic::exponentiates::<M>(da, ea[i]));
            assert(arithmetic::exponentiates::<M>(db, eb[i]));
        }
        assert(ea =~= eb);
        lemma_normalized_is_unique::<M>(ea, weights_a, weights_b);
    }
}

/// How the weights of a softmax come about: the index of the largest score, the
/// distance of each score from it, the exponentials of those, their wide sum,
/// each exponential held wide, and what it gives over the sum.
pub ghost struct Weighing {
    pub top: int,
    pub distances: Seq<Scalar>,
    pub exps: Seq<Scalar>,
    pub total: Wide,
    pub widened: Seq<Wide>,
    pub quotients: Seq<Wide>,
}

/// Where the largest score is finite, each weight is the exponential of the
/// score's distance from it, over the wide sum of all such exponentials; the
/// weights are equal where that sum is no finite number above zero.
pub proof fn law_softmax_weighs_by_distance<M: Arithmetic>(
    scores: Seq<Scalar>,
    weights: Seq<Scalar>,
    top: int,
) -> (r: Weighing)
    requires
        softmaxes::<M>(scores, weights),
        0 <= top < scores.len(),
        scores[top].finite(),
        forall|i: int| 0 <= i < scores.len() ==> !scores[top].below(#[trigger] scores[i]),
    ensures
        weights.len() == scores.len(),
        0 <= r.top < scores.len(),
        scores[r.top].finite() && scores[r.top].value() == scores[top].value(),
        r.exps.len() == scores.len(),
        forall|i: int|
            0 <= i < scores.len() ==> call_ensures(
                M::subtract,
                (scores[i], scores[r.top]),
                #[trigger] r.distances[i],
            ),
        forall|i: int|
            0 <= i < scores.len() ==> call_ensures(M::exp, (r.distances[i],), #[trigger] r.exps[i]),
        arithmetic::wide_sums_to::<M>(r.exps, r.total),
        0 < r.total.bits < 0x7ff0_0000_0000_0000 ==> forall|i: int|
            0 <= i < scores.len() ==> call_ensures(M::widen, (r.exps[i],), r.widened[i])
                && call_ensures(M::wide_divide, (r.widened[i], r.total), r.quotients[i])
                && call_ensures(M::narrow, (r.quotients[i],), #[trigger] weights[i]),
        !(0 < r.total.bits < 0x7ff0_0000_0000_0000) ==> uniform::<M>(scores.len(), weights),
{
    let highest = greatest(scores);
    let n = scores.len();
    law_greatest(scores);
    assert(!scores[top].nan());
    let h = choose|i: int|
        0 <= i < scores.len() && #[trigger] scores[i] == highest && !scores[i].nan();
    assert(!scores[top].below(scores[h]) && !highest.below(scores[top]));
    scalar::law_order_is_numeric(scores[top], scores[h]);
    scalar::law_order_is_numeric(scores[h], scores[top]);
    let exps = choose|exps: Seq<Scalar>| #[trigger]
        shifted_exps::<M>(scores, highest, exps) && normalized::<M>(exps, weights);
    let distances = Seq::new(
        n,
        |i: int|
            choose|d: Scalar| #[trigger]
                arithmetic::subtracts::<M>(scores[i], highest, d) && arithmetic::exponentiates::<M>(
                    d,
                    exps[i],
                ),
    );
    assert forall|i: int| 0 <= i < n implies call_ensures(
        M::subtract,
        (scores[i], scores[h]),
        #[trigger] distances[i],
    ) && call_ensures(M::exp, (distances[i],), exps[i]) by {
        assert(shifted_exp::<M>(scores[i], highest, exps[i]));
        assert(arithmetic::subtracts::<M>(scores[i], highest, distances[i]));
        assert(arithmetic::exponentiates::<M>(distances[i], exps[i]));
    }
    let total = choose|total: Wide| #[trigger]
        arithmetic::wide_sums_to::<M>(exps, total) && if total.finite_positive() {
            shares::<M>(exps, total, weights)
        } else {
            uniform::<M>(exps.len(), weights)
        };
    let shared = Seq::new(
        n,
        |i: int|
            choose|p: (Wide, Wide)|
                arithmetic::widens::<M>(exps[i], p.0) && #[trigger] arithmetic::wide_divides::<M>(
                    p.0,
                    total,
                    p.1,
                ) && arithmetic::narrows::<M>(p.1, weights[i]),
    );
    let widened = Seq::new(n, |i: int| shared[i].0);
    let quotients = Seq::new(n, |i: int| shared[i].1);
    if total.finite_positive() {
        assert forall|i: int| 0 <= i < n implies call_ensures(M::widen, (exps[i],), widened[i])
            && call_ensures(M::wide_divide, (widened[i], total), quotients[i]) && call_ensures(
            M::narrow,
            (quotients[i],),
            #[trigger] weights[i],
        ) by {
            assert(share::<M>(exps[i], total, weights[i]));
            let (w, q) = choose|w: Wide, q: Wide|
                arithmetic::widens::<M>(exps[i], w) && #[trigger] arithmetic::wide_divides::<M>(
                    w,
                    total,
                    q,
                ) && arithmetic::narrows::<M>(q, weights[i]);
            let p = (w, q);
            assert(arithmetic::wide_divides::<M>(p.0, total, p.1));
            assert(arithmetic::wide_divides::<M>(shared[i].0, total, shared[i].1));
            assert(arithmetic::widens::<M>(exps[i], widened[i]));
            assert(arithmetic::narrows::<M>(quotients[i], weights[i]));
        }
    }
    Weighing { top: h, distances, exps, total, widened, quotients }
}

/// Uniform weights are all the host's quotient of one by its number for how many
/// they are.
pub proof fn law_uniform_is_one_over_count<M: Arithmetic>(n: nat, weights: Seq<Scalar>)
    requires
        uniform::<M>(n, weights),
    ensures
        weights.len() == n,
        exists|c: Scalar, u: Scalar|
            call_ensures(M::count, (n as usize,), c) && #[trigger] call_ensures(
                M::divide,
                (Scalar { bits: 0x3f80_0000 }, c),
                u,
            ) && forall|i: int| 0 <= i < weights.len() ==> #[trigger] weights[i] == u,
{
    let u = choose|u: Scalar| #[trigger]
        arithmetic::inverts::<M>(n as usize, u) && weights == Seq::new(n, |i: int| u);
    let c = choose|c: Scalar|
        arithmetic::counts::<M>(n as usize, c) && #[trigger] arithmetic::divides::<M>(
            scalar::scalar(scalar::ONE_BITS),
            c,
            u,
        );
    assert(call_ensures(M::divide, (Scalar { bits: 0x3f80_0000 }, c), u));
}

/// Where no score is a number, or the largest is infinite, the weights are
/// uniform; no scores have no weights.
pub proof fn law_softmax_falls_back<M: Arithmetic>(scores: Seq<Scalar>, weights: Seq<Scalar>)
    requires
        softmaxes::<M>(scores, weights),
    ensures
        scores.len() == 0 ==> weights.len() == 0,
        scores.len() > 0 && ((exists|i: int|
            0 <= i < scores.len() && #[trigger] scores[i].bits == 0x7f80_0000) || (forall|i: int|
            0 <= i < scores.len() ==> !(#[trigger] scores[i]).finite())) ==> uniform::<M>(
            scores.len(),
            weights,
        ),
{
    if scores.len() > 0 {
        law_greatest(scores);
        if exists|i: int| 0 <= i < scores.len() && #[trigger] scores[i].bits == 0x7f80_0000 {
            let i = choose|i: int| 0 <= i < scores.len() && #[trigger] scores[i].bits == 0x7f80_0000;
            assert(!greatest(scores).below(scores[i]));
        }
    }
}

/// What counts toward the entropy are the finite weights above zero, in order.
pub proof fn law_weighty_only_filters(weights: Seq<Scalar>)
    ensures
        weighty_only(weights) == weights.filter(|w: Scalar| w.finite() && w.value() > 0),
    decreases weights.len(),
{
    reveal(Seq::filter);
    if weights.len() > 0 {
        law_weighty_only_filters(weights.drop_last());
        scalar::law_named_values();
        scalar::law_order_is_numeric(scalar::scalar(0), weights.last());
    }
}

/// How an entropy comes about: the logarithm of each weight that counts, their
/// products with the negated weights, the wide sum of those, the host's number
/// for how many weights there are, its logarithm, that held wide, and the sum
/// over it.
pub ghost struct Disorder {
    pub logs: Seq<Scalar>,
    pub terms: Seq<Scalar>,
    pub total: Wide,
    pub count: Scalar,
    pub divisor: Scalar,
    pub wide_divisor: Wide,
    pub quotient: Wide,
}

/// `d` is how the entropy `r` of as many weights as `n`, of which those in `kept`
/// count, comes about.
pub open spec fn disorders<M: Arithmetic>(
    n: usize,
    kept: Seq<Scalar>,
    d: Disorder,
    r: Scalar,
) -> bool {
    &&& d.terms.len() == kept.len()
    &&& forall|i: int|
        0 <= i < kept.len() ==> call_ensures(M::ln, (kept[i],), d.logs[i]) && call_ensures(
            M::multiply,
            (kept[i].negated(), d.logs[i]),
            #[trigger] d.terms[i],
        )
    &&& arithmetic::wide_sums_to::<M>(d.terms, d.total)
    &&& call_ensures(M::count, (n,), d.count)
    &&& call_ensures(M::ln, (d.count,), d.divisor)
    &&& if scalar::scalar(0).below(d.divisor) {
        &&& call_ensures(M::widen, (d.divisor,), d.wide_divisor)
        &&& call_ensures(M::wide_divide, (d.total, d.wide_divisor), d.quotient)
        &&& call_ensures(M::narrow, (d.quotient.clamped_to_unit(),), r)
    } else {
        r.bits == 0
    }
}

/// The entropy of two or more weights is the wide sum of `-w * ln(w)` over the
/// finite weights above zero, divided by the host's logarithm of the number of
/// all weights, whatever they are. Fewer weights have entropy zero.
pub proof fn law_entropy_is_over_log_of_count<M: Arithmetic>(
    weights: Seq<Scalar>,
    r: Scalar,
) -> (d: Disorder)
    requires
        weights.len() <= usize::MAX,
        entropy_of::<M>(weights, r),
    ensures
        weights.len() <= 1 ==> r.bits == 0,
        weights.len() > 1 ==> disorders::<M>(
            weights.len() as usize,
            weights.filter(|w: Scalar| w.finite() && w.value() > 0),
            d,
            r,
        ),
{
    let n = weights.len() as usize;
    let kept = weighty_only(weights);
    law_weighty_only_filters(weights);
    let (total, divisor) = choose|total: Wide, highest: Scalar|
        raw_entropy::<M>(weights, total) && highest_entropy::<M>(n, highest)
            && #[trigger] entropy_ratio::<M>(total, highest, r);
    let terms = choose|terms: Seq<Scalar>| #[trigger]
        entropy_terms::<M>(kept, terms) && arithmetic::wide_sums_to::<M>(terms, total);
    let logs = Seq::new(
        kept.len(),
        |i: int|
            choose|l: Scalar| #[trigger]
                arithmetic::takes_log::<M>(kept[i], l) && arithmetic::multiplies::<M>(
                    kept[i].negated(),
                    l,
                    terms[i],
                ),
    );
    let count = choose|c: Scalar| #[trigger]
        arithmetic::counts::<M>(n, c) && arithmetic::takes_log::<M>(c, divisor);
    let (h, q) = choose|h: Wide, q: Wide|
        arithmetic::widens::<M>(divisor, h) && #[trigger] arithmetic::wide_divides::<M>(total, h, q)
            && arithmetic::narrows::<M>(q.clamped_to_unit(), r);
    let d = Disorder { logs, terms, total, count, divisor, wide_divisor: h, quotient: q };
    if weights.len() > 1 {
        assert(raw_entropy::<M>(weights, total));
        assert(highest_entropy::<M>(n, divisor));
        assert(entropy_ratio::<M>(total, divisor, r));
        assert forall|i: int| 0 <= i < kept.len() implies call_ensures(M::ln, (kept[i],), d.logs[i])
            && call_ensures(M::multiply, (kept[i].negated(), d.logs[i]), #[trigger] d.terms[i]) by {
            assert(entropy_term::<M>(kept[i], terms[i]));
            assert(arithmetic::takes_log::<M>(kept[i], logs[i]));
            assert(arithmetic::multiplies::<M>(kept[i].negated(), logs[i], terms[i]));
        }
        assert(arithmetic::counts::<M>(n, count));
        if scalar::scalar(0).below(divisor) {
            assert(arithmetic::wide_divides::<M>(total, h, q));
            assert(arithmetic::widens::<M>(divisor, h));
            assert(arithmetic::narrows::<M>(q.clamped_to_unit(), r));
        }
    }
    d
}

/// Weights that do not count, such as zeros, only enlarge the divisor when they
/// are appended: the sum stays what it was, and is divided by the logarithm of
/// the new number of weights.
pub proof fn law_entropy_of_more_weights<M: Arithmetic>(
    weights: Seq<Scalar>,
    more: Seq<Scalar>,
    r: Scalar,
    s: Scalar,
) -> (d: (Disorder, Disorder))
    requires
        arithmetic::deterministic::<M>(),
        1 < weights.len(),
        weights.len() + more.len() <= usize::MAX,
        forall|i: int|
            0 <= i < more.len() ==> !(#[trigger] more[i]).finite() || more[i].value() <= 0,
        entropy_of::<M>(weights, r),
        entropy_of::<M>(weights + more, s),
    ensures
        d.0.total == d.1.total,
        call_ensures(M::count, (weights.len() as usize,), d.0.count),
        call_ensures(M::ln, (d.0.count,), d.0.divisor),
        call_ensures(M::count, ((weights.len() + more.len()) as usize,), d.1.count),
        call_ensures(M::ln, (d.1.count,), d.1.divisor),
        scalar::scalar(0).below(d.0.divisor) ==> {
            &&& call_ensures(M::widen, (d.0.divisor,), d.0.wide_divisor)
            &&& call_ensures(M::wide_divide, (d.0.total, d.0.wide_divisor), d.0.quotient)
            &&& call_ensures(M::narrow, (d.0.quotient.clamped_to_unit(),), r)
        },
        scalar::scalar(0).below(d.1.divisor) ==> {
            &&& call_ensures(M::widen, (d.1.divisor,), d.1.wide_divisor)
            &&& call_ensures(M::wide_divide, (d.1.total, d.1.wide_divisor), d.1.quotient)
            &&& call_ensures(M::narrow, (d.1.quotient.clamped_to_unit(),), s)
        },
{
    let counting = |w: Scalar| w.finite() && w.value() > 0;
    let a = law_entropy_is_over_log_of_count::<M>(weights, r);
    let b = law_entropy_is_over_log_of_count::<M>(weights + more, s);
    assert(more.filter(counting) =~= Seq::<Scalar>::empty()) by {
        if more.filter(counting).len() > 0 {
            broadcast use Seq::lemma_filter_pred;

            let x = more.filter(counting)[0];
            lemma_filter_holds_its_own(more, counting, 0);
            assert(counting(x));
        }
    }
    Seq::filter_distributes_over_add(weights, more, counting);
    let kept = weights.filter(counting);
    assert((weights + more).filter(counting) =~= kept);
    assert forall|i: int| 0 <= i < kept.len() implies a.terms[i] == b.terms[i] by {
        assert(arithmetic::multiplies::<M>(kept[i].negated(), a.logs[i], a.terms[i]));
        assert(arithmetic::multiplies::<M>(kept[i].negated(), b.logs[i], b.terms[i]));
        assert(arithmetic::takes_log::<M>(kept[i], a.logs[i]));
        assert(arithmetic::takes_log::<M>(kept[i], b.logs[i]));
    }
    assert(a.terms =~= b.terms);
    arithmetic::law_wide_sum_is_unique::<M>(a.terms, a.total, b.total);
    (a, b)
}

/// What a filter keeps was there.
proof fn lemma_filter_holds_its_own(xs: Seq<Scalar>, keep: spec_fn(Scalar) -> bool, i: int)
    requires
        0 <= i < xs.filter(keep).len(),
    ensures
        exists|j: int| 0 <= j < xs.len() && #[trigger] xs[j] == xs.filter(keep)[i],
    decreases xs.len(),
{
    reveal(Seq::filter);
    let n = xs.len() - 1;
    let front = xs.drop_last().filter(keep);
    if i < front.len() {
        lemma_filter_holds_its_own(xs.drop_last(), keep, i);
        let j = choose|j: int| 0 <= j < n && #[trigger] xs.drop_last()[j] == front[i];
        assert(xs[j] == xs.filter(keep)[i]);
    } else {
        assert(xs[n] == xs.filter(keep)[i]);
    }
}

/// With at least one number per expert, every expert but the last is scored by
/// as many numbers as divide evenly among the experts, each next one by those
/// that follow, and the last by all that are left.
pub proof fn law_gate_scores_are_even<M: Arithmetic>(
    num_experts: usize,
    embedding: Seq<Scalar>,
    scores: Seq<Scalar>,
    share: int,
    rest: int,
    e: int,
)
    requires
        gate_scores::<M>(num_experts, embedding, scores),
        0 <= e < num_experts,
        1 <= share,
        0 <= rest < num_experts,
        embedding.len() == num_experts * share + rest,
    ensures
        scores.len() == num_experts,
        e < num_experts - 1 ==> arithmetic::sums_to::<M>(
            embedding.skip(e * share).take(share),
            scores[e],
        ),
        e == num_experts - 1 ==> arithmetic::sums_to::<M>(
            embedding.skip(e * share),
            scores[e],
        ),
{
    let n = num_experts as int;
    let width = embedding.len() as int;
    assert(width > 0 && width >= n) by (nonlinear_arith)
        requires
            width == n * share + rest,
            n > 0,
            share >= 1,
            rest >= 0,
    ;
    vstd::arithmetic::div_mod::lemma_fundamental_div_mod_converse(width, n, share, rest);
    assert(share == width / n);
    lemma_chunk_bounds(e, n, width);
    assert((e + 1) * share == e * share + share) by (nonlinear_arith);
    assert(arithmetic::sums_to::<M>(chunk(embedding, e, n), scores[e]));
    if e < n - 1 {
        assert(chunk(embedding, e, n) =~= embedding.skip(e * share).take(share));
    } else {
        assert(chunk(embedding, e, n) =~= embedding.skip(e * share));
    }
}

/// With fewer numbers than experts, expert `e` is scored by the one number at
/// `e`, counted around from the start.
pub proof fn law_gate_scores_wrap<M: Arithmetic>(
    num_experts: usize,
    embedding: Seq<Scalar>,
    scores: Seq<Scalar>,
    at: int,
    rounds: int,
)
    requires
        gate_scores::<M>(num_experts, embedding, scores),
        0 <= at < embedding.len() < num_experts,
        0 <= rounds,
        rounds * embedding.len() + at < num_experts,
    ensures
        scores.len() == num_experts,
        call_ensures(
            M::add,
            (Scalar { bits: 0 }, embedding[at]),
            scores[rounds * embedding.len() + at],
        ),
{
    let n = num_experts as int;
    let width = embedding.len() as int;
    let e = rounds * width + at;
    assert(0 <= e) by (nonlinear_arith)
        requires
            e == rounds * width + at,
            rounds >= 0,
            width > 0,
            at >= 0,
    ;
    vstd::arithmetic::div_mod::lemma_fundamental_div_mod_converse(e, width, rounds, at);
    assert(chunk(embedding, e, n) =~= seq![embedding[at]]);
    assert(arithmetic::sums_to::<M>(chunk(embedding, e, n), scores[e]));
    let running = arithmetic::law_sum_runs::<M>(seq![embedding[at]], scores[e]);
    assert(seq![embedding[at]][0] == embedding[at]);
    assert(running[0] == Scalar { bits: 0 });
}

/// Without experts, or without numbers, there are no scores.
pub proof fn law_gate_scores_of_nothing<M: Arithmetic>(
    num_experts: usize,
    embedding: Seq<Scalar>,
    scores: Seq<Scalar>,
)
    requires
        gate_scores::<M>(num_experts, embedding, scores),
    ensures
        scores.len() == (if embedding.len() == 0 {
            0
        } else {
            num_experts as nat
        }),
{
}

/// A synthetic route is asked for properly exactly where there is an embedding,
/// at least one expert and no more than a million, and at least one is to be
/// selected.
pub proof fn law_synthetic_request(width: nat, num_experts: usize, top_k: usize)
    ensures
        synthetic_error(width, num_experts, top_k) is None <==> 0 < width && 0 < num_experts
            <= 1_000_000 && 0 < top_k,
        width == 0 ==> synthetic_error(width, num_experts, top_k) == Some(
            error::ErrorView::InvalidConfig("route_synthetic: embedding must be non-empty"@),
        ),
        0 < width && num_experts == 0 ==> synthetic_error(width, num_experts, top_k) == Some(
            error::ErrorView::InvalidConfig("route_synthetic: num_experts must be >= 1"@),
        ),
        0 < width && num_experts > 1_000_000 ==> synthetic_error(width, num_experts, top_k) == Some(
            error::ErrorView::InvalidConfig(
                "route_synthetic: num_experts ("@ + text::decimal(num_experts as nat)
                    + ") exceeds max "@ + text::decimal(1_000_000),
            ),
        ),
        0 < width && 0 < num_experts <= 1_000_000 && top_k == 0 ==> synthetic_error(
            width,
            num_experts,
            top_k,
        ) == Some(error::ErrorView::InvalidConfig("route_synthetic: top_k must be >= 1"@)),
{
}

/// A synthetic route selects by the softmax of its scores: one weight per expert,
/// as many selected as asked for or all, none left out for a lighter one. The
/// scores come back.
pub proof fn law_synthetic_route_follows_scores<M: Arithmetic>(
    embedding: Seq<Scalar>,
    num_experts: usize,
    top_k: usize,
    weights: Seq<Scalar>,
    selected: Seq<usize>,
    entropy: Scalar,
) -> (scores: Seq<Scalar>)
    requires
        0 < embedding.len(),
        synthetic_route::<M>(embedding, num_experts, top_k, weights, selected, entropy),
    ensures
        gate_scores::<M>(num_experts, embedding, scores),
        softmaxes::<M>(scores, weights),
        entropy_of::<M>(weights, entropy),
        weights.len() == num_experts,
        selected.len() <= top_k && selected.len() <= num_experts,
        selected.len() == top_k || selected.len() == num_experts,
        selected.no_duplicates(),
        forall|p: int| 0 <= p < selected.len() ==> #[trigger] selected[p] < num_experts,
        forall|p: int, j: usize|
            #![trigger selected[p], selected.contains(j)]
            0 <= p < selected.len() && j < num_experts && !selected.contains(j)
                ==> !weights[selected[p] as int].below(weights[j as int]),
{
    let k = smaller(top_k, num_experts) as nat;
    let scores = choose|scores: Seq<Scalar>| #[trigger]
        gate_scores::<M>(num_experts, embedding, scores) && softmaxes::<M>(scores, weights)
            && selects_top(weights, weights.len(), k, selected) && entropy_of::<M>(weights, entropy);
    law_softmax_length::<M>(scores, weights);
    law_selection(weights, k, selected);
    law_selection_is_by_weight(weights, k, selected);
    scores
}

/// The smaller of two numbers is one of them, and neither is below it.
pub proof fn law_smaller(a: usize, b: usize)
    ensures
        smaller(a, b) == a || smaller(a, b) == b,
        smaller(a, b) <= a && smaller(a, b) <= b,
{
}

/// The entropy of equal weights is the host's logarithm of its number for how
/// many there are.
pub proof fn law_highest_entropy<M: Arithmetic>(n: usize, highest: Scalar)
    ensures
        highest_entropy::<M>(n, highest) <==> exists|c: Scalar|
            #[trigger] call_ensures(M::count, (n,), c) && call_ensures(M::ln, (c,), highest),
{
    if highest_entropy::<M>(n, highest) {
        let c = choose|c: Scalar| #[trigger]
            arithmetic::counts::<M>(n, c) && arithmetic::takes_log::<M>(c, highest);
        assert(call_ensures(M::count, (n,), c));
    }
    if exists|c: Scalar| #[trigger]
        call_ensures(M::count, (n,), c) && call_ensures(M::ln, (c,), highest) {
        let c = choose|c: Scalar| #[trigger]
            call_ensures(M::count, (n,), c) && call_ensures(M::ln, (c,), highest);
        assert(arithmetic::counts::<M>(n, c));
    }
}

/// The host keeps the order of numbers when it subtracts one and the same finite
/// number, exponentiates, widens, divides by one and the same number above zero,
/// or narrows; none of that makes NaN of a number.
pub open spec fn keeps_order<M: Arithmetic>() -> bool {
    &&& forall|a: Scalar, b: Scalar, c: Scalar, r: Scalar, s: Scalar|
        #![trigger arithmetic::subtracts::<M>(a, c, r), arithmetic::subtracts::<M>(b, c, s)]
        arithmetic::subtracts::<M>(a, c, r) && arithmetic::subtracts::<M>(b, c, s) && a.finite()
            && b.finite() && c.finite() && !a.below(b) ==> !r.nan() && !s.nan() && !r.below(s)
    &&& forall|a: Scalar, b: Scalar, r: Scalar, s: Scalar|
        #![trigger arithmetic::exponentiates::<M>(a, r), arithmetic::exponentiates::<M>(b, s)]
        arithmetic::exponentiates::<M>(a, r) && arithmetic::exponentiates::<M>(b, s) && !a.nan()
            && !b.nan() && !a.below(b) ==> !r.nan() && !s.nan() && !r.below(s)
    &&& forall|a: Scalar, b: Scalar, r: Wide, s: Wide|
        #![trigger arithmetic::widens::<M>(a, r), arithmetic::widens::<M>(b, s)]
        arithmetic::widens::<M>(a, r) && arithmetic::widens::<M>(b, s) && !a.nan() && !b.nan()
            && !a.below(b) ==> !r.nan() && !s.nan() && !r.below(s)
    &&& forall|a: Wide, b: Wide, c: Wide, r: Wide, s: Wide|
        #![trigger arithmetic::wide_divides::<M>(a, c, r), arithmetic::wide_divides::<M>(b, c, s)]
        arithmetic::wide_divides::<M>(a, c, r) && arithmetic::wide_divides::<M>(b, c, s)
            && c.finite_positive() && !a.nan() && !b.nan() && !a.below(b) ==> !r.nan() && !s.nan()
            && !r.below(s)
    &&& forall|a: Wide, b: Wide, r: Scalar, s: Scalar|
        #![trigger arithmetic::narrows::<M>(a, r), arithmetic::narrows::<M>(b, s)]
        arithmetic::narrows::<M>(a, r) && arithmetic::narrows::<M>(b, s) && !a.nan() && !b.nan()
            && !a.below(b) ==> !r.nan() && !s.nan() && !r.below(s)
}

/// Softmax keeps the order of scores: no weight is below that of a smaller score.
pub proof fn law_softmax_keeps_order<M: Arithmetic>(
    scores: Seq<Scalar>,
    weights: Seq<Scalar>,
    i: int,
    j: int,
)
    requires
        keeps_order::<M>(),
        softmaxes::<M>(scores, weights),
        forall|k: int| 0 <= k < scores.len() ==> (#[trigger] scores[k]).finite(),
        0 <= i < scores.len(),
        0 <= j < scores.len(),
        !scores[i].below(scores[j]),
    ensures
        weights.len() == scores.len(),
        !weights[i].below(weights[j]),
{
    law_greatest(scores);
    assert(scores[i].finite() && scores[j].finite());
    let top = choose|k: int|
        0 <= k < scores.len() && #[trigger] scores[k] == greatest(scores) && !scores[k].nan();
    assert(scores[top].finite());
    let w = law_softmax_weighs_by_distance::<M>(scores, weights, top);
    if 0 < w.total.bits < 0x7ff0_0000_0000_0000 {
        let high = scores[w.top];
        assert(arithmetic::subtracts::<M>(scores[i], high, w.distances[i]));
        assert(arithmetic::subtracts::<M>(scores[j], high, w.distances[j]));
        assert(arithmetic::exponentiates::<M>(w.distances[i], w.exps[i]));
        assert(arithmetic::exponentiates::<M>(w.distances[j], w.exps[j]));
        assert(arithmetic::narrows::<M>(w.quotients[i], weights[i]));
        assert(arithmetic::narrows::<M>(w.quotients[j], weights[j]));
        assert(arithmetic::widens::<M>(w.exps[i], w.widened[i]));
        assert(arithmetic::widens::<M>(w.exps[j], w.widened[j]));
        assert(arithmetic::wide_divides::<M>(w.widened[i], w.total, w.quotients[i]));
        assert(arithmetic::wide_divides::<M>(w.widened[j], w.total, w.quotients[j]));
    } else {
        law_uniform_is_one_over_count::<M>(scores.len(), weights);
    }
}

} // verus!
