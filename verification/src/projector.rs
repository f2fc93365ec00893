//! Projection in both directions: hidden states to bounded stimuli, and spike
//! activity to a dense embedding.

use crate::arithmetic;
use crate::arithmetic::Arithmetic;
use crate::error;
use crate::error::HybridError;
use crate::scalar;
use crate::scalar::Scalar;
use crate::tensor;
use crate::tensor::Tensor;
use crate::text;
use crate::traits;
use crate::traits::SpikeActivity;
use crate::types::ProjectionMode;
use crate::validate;
use vstd::prelude::*;

verus! {

/// Number of time bins of a temporal histogram.
pub const TEMPORAL_BINS: usize = 4;

/// Column `i` of a row-major matrix.
pub open spec fn column(values: Seq<Scalar>, width: int, rows: nat, i: int) -> Seq<Scalar> {
    Seq::new(rows, |t: int| values[t * width + i])
}

/// `y` is the sum of `xs` times `factor`.
pub open spec fn scaled_sum<M: Arithmetic>(xs: Seq<Scalar>, factor: Scalar, y: Scalar) -> bool {
    exists|s: Scalar|
        #[trigger] arithmetic::sums_to::<M>(xs, s) && arithmetic::multiplies::<M>(s, factor, y)
}

/// `out` holds the mean of each of the first `take` columns of a matrix.
pub open spec fn column_means<M: Arithmetic>(
    values: Seq<Scalar>,
    rows: usize,
    width: int,
    take: nat,
    out: Seq<Scalar>,
) -> bool {
    &&& out.len() == take
    &&& exists|inv: Scalar|
        {
            &&& #[trigger] arithmetic::inverts::<M>(rows, inv)
            &&& forall|i: int|
                0 <= i < take ==> scaled_sum::<M>(
                    column(values, width, rows as nat, i),
                    inv,
                    #[trigger] out[i],
                )
        }
}

/// `n`, or one where that is zero.
pub open spec fn at_least_one(n: usize) -> usize {
    if n == 0 {
        1
    } else {
        n
    }
}

/// The tensor holds every row that pooling reads.
pub open spec fn poolable(tensor: &Tensor) -> bool {
    tensor.extents().len() == 2 ==> at_least_one(tensor.extents()[0]) * tensor.extents()[1]
        <= tensor.values().len()
}

/// `out` is the tensor pooled over its rows. Only rank 2 has rows; any other
/// tensor is taken flat.
pub open spec fn mean_pools<M: Arithmetic>(tensor: &Tensor, out: Seq<Scalar>) -> bool {
    if tensor.extents().len() == 2 {
        column_means::<M>(
            tensor.values(),
            at_least_one(tensor.extents()[0]),
            tensor.extents()[1] as int,
            tensor.extents()[1] as nat,
            out,
        )
    } else {
        out == tensor.values()
    }
}

/// A tensor whose data fills its shape can be pooled.
pub proof fn law_well_formed_is_poolable(tensor: &Tensor)
    requires
        tensor.well_formed(),
    ensures
        poolable(tensor),
{
    let extents = tensor.extents();
    if extents.len() == 2 {
        assert(extents[0] > 0);
        let column = extents.drop_last();
        let none = column.drop_last();
        assert(column.len() == 1 && column.last() == extents[0] && none.len() == 0);
        assert(tensor::volume(none) == 1);
        assert(tensor::volume(column) == tensor::volume(none) * column.last() as nat);
        assert(1 * extents[0] == extents[0]);
        assert(tensor::volume(extents) == tensor::volume(column) * extents.last() as nat);
    }
}

/// Entry `(t, i)` lies inside a matrix.
proof fn lemma_entry_inside(t: int, i: int, rows: int, width: int)
    requires
        0 <= t < rows,
        0 <= i < width,
    ensures
        0 <= t * width,
        t * width + i < rows * width,
{
    assert(0 <= t * width && t * width + i < rows * width) by (nonlinear_arith)
        requires
            0 <= t < rows,
            0 <= i < width,
    ;
}

/// The mean of each of the first `take` columns of a matrix of `rows` rows.
pub fn mean_columns<M: Arithmetic>(data: &[Scalar], rows: usize, width: usize, take: usize) -> (r:
    Vec<Scalar>)
    requires
        rows * width <= data@.len(),
        take <= width,
    ensures
        column_means::<M>(data@, rows, width as int, take as nat, r@),
{
    let mut sums = vec![Scalar { bits: 0 }; take];
    let len: usize = data.len();
    let mut t: usize = 0;
    assert forall|i: int| 0 <= i < take implies arithmetic::sums_to::<M>(
        column(data@, width as int, 0, i),
        #[trigger] sums@[i],
    ) by {
        assert(sums@[i] == scalar::scalar(0));
    }
    while t < rows
        invariant
            t <= rows,
            take <= width,
            rows * width <= data@.len(),
            len == data@.len(),
            sums@.len() == take,
            forall|i: int|
                0 <= i < take ==> arithmetic::sums_to::<M>(
                    column(data@, width as int, t as nat, i),
                    #[trigger] sums@[i],
                ),
        decreases rows - t,
    {
        let mut i: usize = 0;
        while i < take
            invariant
                t < rows,
                i <= take <= width,
                rows * width <= data@.len(),
                len == data@.len(),
                sums@.len() == take,
                forall|k: int|
                    0 <= k < i ==> arithmetic::sums_to::<M>(
                        column(data@, width as int, (t + 1) as nat, k),
                        #[trigger] sums@[k],
                    ),
                forall|k: int|
                    i <= k < take ==> arithmetic::sums_to::<M>(
                        column(data@, width as int, t as nat, k),
                        #[trigger] sums@[k],
                    ),
            decreases take - i,
        {
            proof {
                lemma_entry_inside(t as int, i as int, rows as int, width as int);
            }
            let x = data[t * width + i];
            let next = M::add(sums[i], x);
            proof {
                let before = column(data@, width as int, t as nat, i as int);
                arithmetic::lemma_sum_push::<M>(before, sums@[i as int], x, next);
                assert(before.push(x) =~= column(data@, width as int, (t + 1) as nat, i as int));
            }
            sums.set(i, next);
            i = i + 1;
        }
        t = t + 1;
    }
    let inv = arithmetic::inverse::<M>(rows);
    let mut out: Vec<Scalar> = Vec::new();
    let mut j: usize = 0;
    while j < take
        invariant
            j <= take,
            sums@.len() == take,
            out@.len() == j,
            forall|i: int|
                0 <= i < take ==> arithmetic::sums_to::<M>(
                    column(data@, width as int, rows as nat, i),
                    #[trigger] sums@[i],
                ),
            forall|i: int|
                0 <= i < j ==> scaled_sum::<M>(
                    column(data@, width as int, rows as nat, i),
                    inv,
                    #[trigger] out@[i],
                ),
        decreases take - j,
    {
        let y = M::multiply(sums[j], inv);
        proof {
            assert(arithmetic::sums_to::<M>(
                column(data@, width as int, rows as nat, j as int),
                sums@[j as int],
            ));
            assert(arithmetic::multiplies::<M>(sums@[j as int], inv, y));
        }
        out.push(y);
        j = j + 1;
    }
    out
}

/// The tensor pooled over its rows.
pub fn mean_pool<M: Arithmetic>(embedding: &Tensor) -> (r: Vec<Scalar>)
    requires
        poolable(embedding),
    ensures
        mean_pools::<M>(embedding, r@),
{
    if embedding.ndim() == 2 {
        let shape = embedding.shape();
        let rows: usize = if shape[0] == 0 {
            1
        } else {
            shape[0]
        };
        let width: usize = shape[1];
        mean_columns::<M>(embedding.data(), rows, width, width)
    } else {
        vstd::slice::slice_to_vec(embedding.data())
    }
}

/// Where block `i` begins when `len` numbers are averaged down to `target`.
pub open spec fn block_start(i: int, len: int, target: int) -> int {
    (i * len) / target
}

/// `y` is the mean of `xs`.
pub open spec fn averages<M: Arithmetic>(xs: Seq<Scalar>, y: Scalar) -> bool {
    exists|s: Scalar, c: Scalar|
        arithmetic::sums_to::<M>(xs, s) && arithmetic::counts::<M>(xs.len() as usize, c)
            && #[trigger] arithmetic::divides::<M>(s, c, y)
}

/// `out` is `src` resized to `target` numbers: averaged in blocks where there
/// are more, padded with zeros where there are fewer.
pub open spec fn resizes<M: Arithmetic>(src: Seq<Scalar>, target: nat, out: Seq<Scalar>) -> bool {
    &&& out.len() == target
    &&& if src.len() > target {
        forall|i: int|
            0 <= i < target ==> averages::<M>(
                src.subrange(
                    block_start(i, src.len() as int, target as int),
                    block_start(i + 1, src.len() as int, target as int),
                ),
                #[trigger] out[i],
            )
    } else {
        out == src + Seq::new((target - src.len()) as nat, |i: int| scalar::scalar(0))
    }
}

/// A block is not empty and lies inside the source.
proof fn lemma_block_bounds(i: int, len: int, target: int)
    requires
        0 <= i < target < len,
    ensures
        0 <= block_start(i, len, target) < block_start(i + 1, len, target) <= len,
{
    let a = i * len;
    let b = (i + 1) * len;
    assert(b == a + len) by (nonlinear_arith)
        requires
            a == i * len,
            b == (i + 1) * len,
    ;
    assert(0 <= a) by (nonlinear_arith)
        requires
            a == i * len,
            0 <= i,
            0 < len,
    ;
    assert(b <= target * len) by (nonlinear_arith)
        requires
            b == (i + 1) * len,
            i + 1 <= target,
            0 < len,
    ;
    assert(0 <= a / target && a / target + 1 <= b / target && b / target <= len) by (nonlinear_arith)
        requires
            0 <= a,
            b >= a + target,
            b <= target * len,
            target > 0,
    ;
}

/// The blocks of a downsized source partition it: the first begins at its
/// start, each ends where the next begins, and the last ends at its end.
pub proof fn law_blocks_partition(len: int, target: int)
    requires
        0 < target < len,
    ensures
        block_start(0, len, target) == 0,
        block_start(target, len, target) == len,
        forall|i: int|
            0 <= i < target ==> #[trigger] block_start(i, len, target) < block_start(
                i + 1,
                len,
                target,
            ),
{
    assert forall|i: int| 0 <= i < target implies #[trigger] block_start(i, len, target)
        < block_start(i + 1, len, target) by {
        lemma_block_bounds(i, len, target);
    }
    vstd::arithmetic::div_mod::lemma_div_multiples_vanish(len, target);
    assert(target * len == len * target) by (nonlinear_arith);
    assert(0 * len == 0);
}

/// Resizes to `target_width` numbers.
pub fn resize_to<M: Arithmetic>(src: &[Scalar], target_width: usize) -> (r: Vec<Scalar>)
    ensures
        resizes::<M>(src@, target_width as nat, r@),
{
    let len: usize = src.len();
    if len > target_width {
        let mut out: Vec<Scalar> = Vec::new();
        let mut i: usize = 0;
        while i < target_width
            invariant
                i <= target_width < len,
                len == src@.len(),
                out@.len() == i,
                forall|k: int|
                    0 <= k < i ==> averages::<M>(
                        src@.subrange(
                            block_start(k, len as int, target_width as int),
                            block_start(k + 1, len as int, target_width as int),
                        ),
                        #[trigger] out@[k],
                    ),
            decreases target_width - i,
        {
            let start: usize = block_edge(i, len, target_width);
            let end: usize = block_edge(i + 1, len, target_width);
            proof {
                lemma_block_bounds(i as int, len as int, target_width as int);
            }
            let s = arithmetic::sum_range::<M>(src, start, end);
            let c = M::count(end - start);
            let mean = M::divide(s, c);
            proof {
                let block = src@.subrange(start as int, end as int);
                assert(block.len() as usize == end - start);
                assert(arithmetic::sums_to::<M>(block, s));
                assert(arithmetic::counts::<M>(block.len() as usize, c));
                assert(arithmetic::divides::<M>(s, c, mean));
            }
            out.push(mean);
            i = i + 1;
        }
        out
    } else {
        let mut out = vstd::slice::slice_to_vec(src);
        let zero = Scalar { bits: 0 };
        let mut i: usize = len;
        while i < target_width
            invariant
                len <= i <= target_width,
                zero == scalar::scalar(0),
                len == src@.len(),
                out@ == src@ + Seq::new((i - len) as nat, |k: int| scalar::scalar(0)),
            decreases target_width - i,
        {
            out.push(zero);
            i = i + 1;
            assert(out@ =~= src@ + Seq::new((i - len) as nat, |k: int| scalar::scalar(0)));
        }
        out
    }
}

/// Where block `i` begins, computed without overflow.
fn block_edge(i: usize, len: usize, target: usize) -> (r: usize)
    requires
        i <= target,
        0 < target,
    ensures
        r == block_start(i as int, len as int, target as int),
{
    proof {
        assert((i as u128) * (len as u128) <= u128::MAX) by (nonlinear_arith)
            requires
                i <= 0xffff_ffff_ffff_ffff,
                len <= 0xffff_ffff_ffff_ffff,
        ;
        assert((i * len) / (target as int) <= len) by (nonlinear_arith)
            requires
                i <= target,
                target > 0,
                len >= 0,
        ;
    }
    let edge: u128 = (i as u128) * (len as u128) / (target as u128);
    edge as usize
}

/// `out` holds the hyperbolic tangent of each number.
pub open spec fn squashed<M: Arithmetic>(xs: Seq<Scalar>, out: Seq<Scalar>) -> bool {
    &&& out.len() == xs.len()
    &&& forall|i: int|
        0 <= i < out.len() ==> arithmetic::squashes::<M>(xs[i], #[trigger] out[i])
}

/// Replaces each number by its hyperbolic tangent.
pub fn squash_inplace<M: Arithmetic>(v: &mut Vec<Scalar>)
    ensures
        squashed::<M>(old(v)@, final(v)@),
{
    let ghost before = v@;
    let n: usize = v.len();
    let mut i: usize = 0;
    while i < n
        invariant
            i <= n,
            n == v@.len(),
            n == before.len(),
            forall|k: int| 0 <= k < i ==> arithmetic::squashes::<M>(before[k], #[trigger] v@[k]),
            forall|k: int| i <= k < n ==> #[trigger] v@[k] == before[k],
        decreases n - i,
    {
        let y = M::tanh(v[i]);
        v.set(i, y);
        i = i + 1;
    }
}

/// `out` is the pooled tensor, squashed.
pub open spec fn stimulates<M: Arithmetic>(tensor: &Tensor, out: Seq<Scalar>) -> bool {
    exists|pooled: Seq<Scalar>|
        #[trigger] mean_pools::<M>(tensor, pooled) && squashed::<M>(pooled, out)
}

/// `out` is `src` resized to `target` numbers and squashed.
pub open spec fn fits<M: Arithmetic>(src: Seq<Scalar>, target: nat, out: Seq<Scalar>) -> bool {
    exists|resized: Seq<Scalar>|
        #[trigger] resizes::<M>(src, target, resized) && squashed::<M>(resized, out)
}

/// `out` is the tensor pooled, resized to `width` numbers and squashed.
pub open spec fn stimulates_width<M: Arithmetic>(
    tensor: &Tensor,
    width: nat,
    out: Seq<Scalar>,
) -> bool {
    exists|pooled: Seq<Scalar>|
        #[trigger] mean_pools::<M>(tensor, pooled) && fits::<M>(pooled, width, out)
}

/// Stimuli as wide as the pooled tensor.
pub fn embed_to_stimuli<M: Arithmetic>(embedding: &Tensor) -> (r: Vec<Scalar>)
    requires
        poolable(embedding),
    ensures
        stimulates::<M>(embedding, r@),
{
    let mut pooled = mean_pool::<M>(embedding);
    squash_inplace::<M>(&mut pooled);
    pooled
}

/// Stimuli for `snn_width` input channels. Squashing comes last, so that what
/// reaches the spiking network is bounded.
pub fn embed_to_stimuli_with_width<M: Arithmetic>(embedding: &Tensor, snn_width: usize) -> (r: Vec<
    Scalar,
>)
    requires
        poolable(embedding),
    ensures
        stimulates_width::<M>(embedding, snn_width as nat, r@),
{
    let pooled = mean_pool::<M>(embedding);
    let mut resized = resize_to::<M>(pooled.as_slice(), snn_width);
    squash_inplace::<M>(&mut resized);
    assert(fits::<M>(pooled@, snn_width as nat, resized@));
    resized
}

/// How often `neuron` stands among the indices of a step.
pub open spec fn occurrences(step: Seq<usize>, neuron: int) -> nat
    decreases step.len(),
{
    if step.len() == 0 {
        0
    } else if step.last() == neuron {
        occurrences(step.drop_last(), neuron) + 1
    } else {
        occurrences(step.drop_last(), neuron)
    }
}

/// The time bin of step `t` out of `steps`.
pub open spec fn bin_of(t: int, steps: int) -> int {
    (t * TEMPORAL_BINS) / steps
}

/// Step `t` out of `steps` counts toward `bin`; every step does where that is
/// `None`.
pub open spec fn counted(t: int, steps: int, bin: Option<usize>) -> bool {
    match bin {
        None => true,
        Some(b) => bin_of(t, steps) == b,
    }
}

/// How often `neuron` fired in the counted steps of a train, which is the
/// beginning of one of `steps` steps.
pub open spec fn spike_count(
    train: Seq<Vec<usize>>,
    steps: int,
    bin: Option<usize>,
    neuron: int,
) -> nat
    decreases train.len(),
{
    if train.len() == 0 {
        0
    } else if counted(train.len() - 1, steps, bin) {
        spike_count(train.drop_last(), steps, bin, neuron) + occurrences(train.last()@, neuron)
    } else {
        spike_count(train.drop_last(), steps, bin, neuron)
    }
}

/// Every index of every step is below `n`.
pub open spec fn train_in_range(train: Seq<Vec<usize>>, n: usize) -> bool {
    forall|t: int| 0 <= t < train.len() ==> traits::all_below((#[trigger] train[t])@, n)
}

/// The first step with an index that is not below `n` is step `t`.
pub open spec fn bad_step_at(train: Seq<Vec<usize>>, n: usize, t: int) -> bool {
    &&& 0 <= t < train.len()
    &&& !traits::all_below(train[t]@, n)
    &&& forall|k: int| 0 <= k < t ==> traits::all_below((#[trigger] train[k])@, n)
}

/// What is wrong with step `t` of a train.
pub open spec fn step_error(train: Seq<Vec<usize>>, n: usize, t: int) -> error::ErrorView {
    error::ErrorView::InvalidConfig(
        "spike_activity_features: spike index "@ + text::decimal(
            traits::first_out_of_range(train[t]@, n) as nat,
        ) + " out of range at step "@ + text::decimal(t as nat) + " (n_neurons="@ + text::decimal(
            n as nat,
        ) + ")"@,
    )
}

/// What is wrong with a membrane potential that is not finite.
pub open spec fn potential_error(i: int) -> error::ErrorView {
    error::ErrorView::InvalidConfig(
        "spike_activity_features: non-finite membrane potential at index "@ + text::decimal(
            i as nat,
        ),
    )
}

/// What is wrong with the activity of `n` neurons.
pub open spec fn activity_error(activity: &SpikeActivity, n: usize) -> Option<error::ErrorView> {
    if n == 0 {
        Some(error::ErrorView::InvalidConfig("spike_activity_features: n_neurons must be > 0"@))
    } else if activity.potentials@.len() < n {
        Some(
            error::ErrorView::InputLengthMismatch {
                expected: n,
                got: activity.potentials@.len() as usize,
            },
        )
    } else if !train_in_range(activity.spike_train@, n) {
        Some(
            step_error(
                activity.spike_train@,
                n,
                choose|t: int| bad_step_at(activity.spike_train@, n, t),
            ),
        )
    } else if !validate::all_finite(activity.potentials@.take(n as int)) {
        Some(
            potential_error(
                choose|i: int|
                    validate::non_finite_at(activity.potentials@.take(n as int), i),
            ),
        )
    } else {
        None
    }
}

/// `r` is `count` spikes per one of `steps` steps.
pub open spec fn rate<M: Arithmetic>(count: nat, steps: nat, r: Scalar) -> bool {
    exists|total: Scalar, c: Scalar|
        arithmetic::tallies::<M>(count, total) && arithmetic::counts::<M>(
            at_least_one(steps as usize),
            c,
        ) && #[trigger] arithmetic::divides::<M>(total, c, r)
}

/// `out` holds the firing rate of each of `n` neurons.
pub open spec fn firing_rates<M: Arithmetic>(
    train: Seq<Vec<usize>>,
    n: nat,
    out: Seq<Scalar>,
) -> bool {
    &&& out.len() == n
    &&& forall|i: int|
        0 <= i < n ==> rate::<M>(
            spike_count(train, train.len() as int, None, i),
            train.len(),
            #[trigger] out[i],
        )
}

/// `span` is the number of steps in a bin, at least one.
pub open spec fn bin_span<M: Arithmetic>(steps: nat, span: Scalar) -> bool {
    exists|c: Scalar, q: Scalar|
        arithmetic::counts::<M>(steps as usize, c) && #[trigger] arithmetic::divides::<M>(
            c,
            scalar::scalar(scalar::FOUR_BITS),
            q,
        ) && span == q.larger(scalar::scalar(scalar::ONE_BITS))
}

/// `r` is `count` spikes over the span of a bin.
pub open spec fn binned_rate<M: Arithmetic>(count: nat, span: Scalar, r: Scalar) -> bool {
    exists|total: Scalar|
        #[trigger] arithmetic::tallies::<M>(count, total) && arithmetic::divides::<M>(
            total,
            span,
            r,
        )
}

/// `out` holds the binned firing rates of `n` neurons, the bins of a neuron
/// side by side. Without any step they are zero.
pub open spec fn histogram<M: Arithmetic>(
    train: Seq<Vec<usize>>,
    n: nat,
    out: Seq<Scalar>,
) -> bool {
    &&& out.len() == n * TEMPORAL_BINS
    &&& if train.len() == 0 {
        forall|k: int| 0 <= k < out.len() ==> #[trigger] out[k] == scalar::scalar(0)
    } else {
        exists|span: Scalar|
            #[trigger] bin_span::<M>(train.len(), span) && forall|k: int|
                0 <= k < out.len() ==> binned_rate::<M>(
                    spike_count(
                        train,
                        train.len() as int,
                        Some((k % (TEMPORAL_BINS as int)) as usize),
                        k / (TEMPORAL_BINS as int),
                    ),
                    span,
                    #[trigger] out[k],
                )
    }
}

/// `out` holds the features of an activity of `n` neurons.
pub open spec fn featured<M: Arithmetic>(
    mode: ProjectionMode,
    activity: &SpikeActivity,
    n: usize,
    out: Seq<Scalar>,
) -> bool {
    match mode {
        ProjectionMode::RateSum | ProjectionMode::SpikingTernary => firing_rates::<M>(
            activity.spike_train@,
            n as nat,
            out,
        ),
        ProjectionMode::TemporalHistogram => histogram::<M>(activity.spike_train@, n as nat, out),
        ProjectionMode::MembraneSnapshot => out == activity.potentials@.take(n as int).map_values(
            |v: Scalar| v.clamped_to_unit(),
        ),
    }
}

/// Numbers or an error, as a view.
pub open spec fn numbers_view(r: Result<Vec<Scalar>, HybridError>) -> Result<
    Seq<Scalar>,
    error::ErrorView,
> {
    match r {
        Ok(numbers) => Ok(numbers@),
        Err(e) => Err(e@),
    }
}

/// `outcome` is what an activity of `n` neurons comes to: its features, or what
/// is wrong with it.
pub open spec fn features_outcome<M: Arithmetic>(
    mode: ProjectionMode,
    activity: &SpikeActivity,
    n: usize,
    outcome: Result<Seq<Scalar>, error::ErrorView>,
) -> bool {
    match activity_error(activity, n) {
        Some(e) => outcome == Err::<Seq<Scalar>, error::ErrorView>(e),
        None => {
            &&& outcome matches Ok(features)
            &&& features.len() <= usize::MAX
            &&& featured::<M>(mode, activity, n, features)
        },
    }
}

/// The first bad step is one step.
proof fn lemma_bad_step(train: Seq<Vec<usize>>, n: usize, t: int)
    requires
        bad_step_at(train, n, t),
    ensures
        !train_in_range(train, n),
        (choose|k: int| bad_step_at(train, n, k)) == t,
{
    let c = choose|k: int| bad_step_at(train, n, k);
    assert(bad_step_at(train, n, c));
    if c < t {
        assert(traits::all_below(train[c]@, n));
    } else if t < c {
        assert(traits::all_below(train[t]@, n));
    }
}

/// Checks the spikes of an activity.
fn check_train(train: &Vec<Vec<usize>>, n: usize) -> (r: Result<(), HybridError>)
    ensures
        validate::checks(
            r,
            if train_in_range(train@, n) {
                None
            } else {
                Some(step_error(train@, n, choose|t: int| bad_step_at(train@, n, t)))
            },
        ),
{
    let mut t: usize = 0;
    while t < train.len()
        invariant
            t <= train@.len(),
            forall|k: int| 0 <= k < t ==> traits::all_below((#[trigger] train@[k])@, n),
        decreases train@.len() - t,
    {
        match traits::find_out_of_range(train[t].as_slice(), n) {
            Some(idx) => {
                proof {
                    assert(bad_step_at(train@, n, t as int));
                    lemma_bad_step(train@, n, t as int);
                }
                let mut message = text::with_number(
                    "spike_activity_features: spike index ",
                    idx,
                    " out of range at step ",
                );
                text::push_decimal(&mut message, t);
                message.append(" (n_neurons=");
                text::push_decimal(&mut message, n);
                message.append(")");
                return Err(HybridError::InvalidConfig(message));
            },
            None => {},
        }
        t = t + 1;
    }
    Ok(())
}

/// Checks the first `n` membrane potentials of an activity.
fn check_potentials(potentials: &Vec<Scalar>, n: usize) -> (r: Result<(), HybridError>)
    requires
        n <= potentials@.len(),
    ensures
        validate::checks(
            r,
            if validate::all_finite(potentials@.take(n as int)) {
                None
            } else {
                Some(
                    potential_error(
                        choose|i: int| validate::non_finite_at(potentials@.take(n as int), i),
                    ),
                )
            },
        ),
{
    let ghost first = potentials@.take(n as int);
    let mut i: usize = 0;
    while i < n
        invariant
            i <= n,
            n <= potentials@.len(),
            first == potentials@.take(n as int),
            forall|k: int| 0 <= k < i ==> (#[trigger] first[k]).finite(),
        decreases n - i,
    {
        assert(first[i as int] == potentials@[i as int]);
        if !potentials[i].is_finite() {
            proof {
                validate::lemma_non_finite_at(first, i as int);
            }
            let message = text::with_number(
                "spike_activity_features: non-finite membrane potential at index ",
                i,
                "",
            );
            proof {
                reveal_strlit("");
            }
            return Err(HybridError::InvalidConfig(message));
        }
        i = i + 1;
    }
    Ok(())
}

/// Whether step `t` out of `steps` counts toward `bin`.
fn counts_toward(t: usize, steps: usize, bin: Option<usize>) -> (r: bool)
    requires
        t < steps,
    ensures
        r == counted(t as int, steps as int, bin),
{
    match bin {
        None => true,
        Some(b) => {
            let at: u128 = (t as u128) * (TEMPORAL_BINS as u128) / (steps as u128);
            at == b as u128
        },
    }
}

/// The number of counted spikes of each of `n` neurons, as a tally.
fn tally_spikes<M: Arithmetic>(train: &Vec<Vec<usize>>, n: usize, bin: Option<usize>) -> (r: Vec<
    Scalar,
>)
    requires
        train_in_range(train@, n),
    ensures
        r@.len() == n,
        forall|i: int|
            0 <= i < n ==> arithmetic::tallies::<M>(
                spike_count(train@, train@.len() as int, bin, i),
                #[trigger] r@[i],
            ),
{
    let one = Scalar { bits: scalar::ONE_BITS };
    let steps: usize = train.len();
    let mut totals = vec![Scalar { bits: 0 }; n];
    let mut t: usize = 0;
    assert(train@.take(0).len() == 0);
    while t < steps
        invariant
            t <= steps,
            steps == train@.len(),
            one == scalar::scalar(scalar::ONE_BITS),
            train_in_range(train@, n),
            totals@.len() == n,
            forall|i: int|
                0 <= i < n ==> arithmetic::tallies::<M>(
                    spike_count(train@.take(t as int), steps as int, bin, i),
                    #[trigger] totals@[i],
                ),
        decreases steps - t,
    {
        let ghost seen = train@.take(t as int);
        let ghost next = train@.take(t + 1);
        assert(next.drop_last() =~= seen);
        assert(next.last() == train@[t as int]);
        if counts_toward(t, steps, bin) {
            let step = &train[t];
            let mut j: usize = 0;
            assert(step@.take(0).len() == 0);
            while j < step.len()
                invariant
                    j <= step@.len(),
                    one == scalar::scalar(scalar::ONE_BITS),
                    traits::all_below(step@, n),
                    totals@.len() == n,
                    forall|i: int|
                        0 <= i < n ==> arithmetic::tallies::<M>(
                            spike_count(seen, steps as int, bin, i) + occurrences(
                                step@.take(j as int),
                                i,
                            ),
                            #[trigger] totals@[i],
                        ),
                decreases step@.len() - j,
            {
                let idx: usize = step[j];
                assert(step@[j as int] < n);
                let total = M::add(totals[idx], one);
                proof {
                    assert(step@.take(j + 1).drop_last() =~= step@.take(j as int));
                    arithmetic::lemma_tally_next::<M>(
                        spike_count(seen, steps as int, bin, idx as int) + occurrences(
                            step@.take(j as int),
                            idx as int,
                        ),
                        totals@[idx as int],
                        total,
                    );
                }
                totals.set(idx, total);
                j = j + 1;
            }
            assert(step@.take(step@.len() as int) =~= step@);
        }
        t = t + 1;
    }
    assert(train@.take(steps as int) =~= train@);
    totals
}

/// The firing rate of each neuron.
fn rate_features<M: Arithmetic>(train: &Vec<Vec<usize>>, n: usize) -> (r: Vec<Scalar>)
    requires
        train_in_range(train@, n),
    ensures
        firing_rates::<M>(train@, n as nat, r@),
{
    let totals = tally_spikes::<M>(train, n, None);
    let steps: usize = train.len();
    let c = M::count(
        if steps == 0 {
            1
        } else {
            steps
        },
    );
    assert(arithmetic::counts::<M>(at_least_one(train@.len() as usize), c));
    let mut out: Vec<Scalar> = Vec::new();
    let mut i: usize = 0;
    while i < n
        invariant
            i <= n,
            totals@.len() == n,
            out@.len() == i,
            arithmetic::counts::<M>(at_least_one(train@.len() as usize), c),
            forall|k: int|
                0 <= k < n ==> arithmetic::tallies::<M>(
                    spike_count(train@, train@.len() as int, None, k),
                    #[trigger] totals@[k],
                ),
            forall|k: int|
                0 <= k < i ==> rate::<M>(
                    spike_count(train@, train@.len() as int, None, k),
                    train@.len(),
                    #[trigger] out@[k],
                ),
        decreases n - i,
    {
        let r = M::divide(totals[i], c);
        assert(arithmetic::divides::<M>(totals@[i as int], c, r));
        out.push(r);
        i = i + 1;
    }
    out
}

/// One binned rate out of a tally.
fn bin_entry<M: Arithmetic>(
    totals: &Vec<Scalar>,
    i: usize,
    span: Scalar,
    Ghost(count): Ghost<nat>,
) -> (r: Scalar)
    requires
        i < totals@.len(),
        arithmetic::tallies::<M>(count, totals@[i as int]),
    ensures
        binned_rate::<M>(count, span, r),
{
    let r = M::divide(totals[i], span);
    assert(arithmetic::tallies::<M>(count, totals@[i as int]));
    r
}

/// The binned firing rates of each neuron.
fn histogram_features<M: Arithmetic>(train: &Vec<Vec<usize>>, n: usize) -> (r: Vec<Scalar>)
    requires
        train_in_range(train@, n),
    ensures
        histogram::<M>(train@, n as nat, r@),
{
    let mut out: Vec<Scalar> = Vec::new();
    let mut i: usize = 0;
    let steps: usize = train.len();
    let ghost len = train@.len() as int;
    if steps == 0 {
        let zero = Scalar { bits: 0 };
        while i < n
            invariant
                i <= n,
                zero == scalar::scalar(0),
                out@.len() == i * TEMPORAL_BINS,
                forall|k: int| 0 <= k < out@.len() ==> #[trigger] out@[k] == scalar::scalar(0),
            decreases n - i,
        {
            out.push(zero);
            out.push(zero);
            out.push(zero);
            out.push(zero);
            i = i + 1;
        }
        return out;
    }
    let c = M::count(steps);
    let q = M::divide(c, Scalar { bits: scalar::FOUR_BITS });
    let span = q.max(Scalar { bits: scalar::ONE_BITS });
    assert(arithmetic::divides::<M>(c, scalar::scalar(scalar::FOUR_BITS), q));
    assert(bin_span::<M>(train@.len(), span));
    let bin0 = tally_spikes::<M>(train, n, Some(0));
    let bin1 = tally_spikes::<M>(train, n, Some(1));
    let bin2 = tally_spikes::<M>(train, n, Some(2));
    let bin3 = tally_spikes::<M>(train, n, Some(3));
    while i < n
        invariant
            i <= n,
            len == train@.len(),
            bin0@.len() == n,
            bin1@.len() == n,
            bin2@.len() == n,
            bin3@.len() == n,
            out@.len() == i * TEMPORAL_BINS,
            forall|k: int|
                0 <= k < n ==> arithmetic::tallies::<M>(
                    spike_count(train@, len, Some(0), k),
                    #[trigger] bin0@[k],
                ),
            forall|k: int|
                0 <= k < n ==> arithmetic::tallies::<M>(
                    spike_count(train@, len, Some(1), k),
                    #[trigger] bin1@[k],
                ),
            forall|k: int|
                0 <= k < n ==> arithmetic::tallies::<M>(
                    spike_count(train@, len, Some(2), k),
                    #[trigger] bin2@[k],
                ),
            forall|k: int|
                0 <= k < n ==> arithmetic::tallies::<M>(
                    spike_count(train@, len, Some(3), k),
                    #[trigger] bin3@[k],
                ),
            forall|k: int|
                0 <= k < out@.len() ==> binned_rate::<M>(
                    spike_count(
                        train@,
                        len,
                        Some((k % (TEMPORAL_BINS as int)) as usize),
                        k / (TEMPORAL_BINS as int),
                    ),
                    span,
                    #[trigger] out@[k],
                ),
        decreases n - i,
    {
        let ghost at = i as int;
        let e0 = bin_entry::<M>(&bin0, i, span, Ghost(spike_count(train@, len, Some(0), at)));
        let e1 = bin_entry::<M>(&bin1, i, span, Ghost(spike_count(train@, len, Some(1), at)));
        let e2 = bin_entry::<M>(&bin2, i, span, Ghost(spike_count(train@, len, Some(2), at)));
        let e3 = bin_entry::<M>(&bin3, i, span, Ghost(spike_count(train@, len, Some(3), at)));
        out.push(e0);
        out.push(e1);
        out.push(e2);
        out.push(e3);
        i = i + 1;
    }
    out
}

/// The first `n` potentials, clamped.
fn snapshot_features(potentials: &Vec<Scalar>, n: usize) -> (r: Vec<Scalar>)
    requires
        n <= potentials@.len(),
    ensures
        r@ == potentials@.take(n as int).map_values(|v: Scalar| v.clamped_to_unit()),
{
    let mut out: Vec<Scalar> = Vec::new();
    let mut i: usize = 0;
    let ghost first = potentials@.take(n as int);
    while i < n
        invariant
            i <= n <= potentials@.len(),
            first == potentials@.take(n as int),
            out@.len() == i,
            forall|k: int| 0 <= k < i ==> #[trigger] out@[k] == first[k].clamped_to_unit(),
        decreases n - i,
    {
        out.push(potentials[i].clamp_to_unit());
        i = i + 1;
    }
    assert(out@ =~= first.map_values(|v: Scalar| v.clamped_to_unit()));
    out
}

/// The features of an activity: firing rates, binned firing rates or clamped
/// membrane potentials, as the mode says.
pub fn spike_activity_features<M: Arithmetic>(
    mode: ProjectionMode,
    activity: &SpikeActivity,
    n_neurons: usize,
) -> (r: Result<Vec<Scalar>, HybridError>)
    ensures
        features_outcome::<M>(mode, activity, n_neurons, numbers_view(r)),
{
    if n_neurons == 0 {
        return Err(
            HybridError::InvalidConfig(
                String::from_str("spike_activity_features: n_neurons must be > 0"),
            ),
        );
    }
    if activity.potentials.len() < n_neurons {
        return Err(
            HybridError::InputLengthMismatch {
                expected: n_neurons,
                got: activity.potentials.len(),
            },
        );
    }
    match check_train(&activity.spike_train, n_neurons) {
        Err(e) => {
            return Err(e);
        },
        Ok(()) => {},
    }
    match check_potentials(&activity.potentials, n_neurons) {
        Err(e) => {
            return Err(e);
        },
        Ok(()) => {},
    }
    let features = match mode {
        ProjectionMode::RateSum | ProjectionMode::SpikingTernary => rate_features::<M>(
            &activity.spike_train,
            n_neurons,
        ),
        ProjectionMode::TemporalHistogram => histogram_features::<M>(
            &activity.spike_train,
            n_neurons,
        ),
        ProjectionMode::MembraneSnapshot => snapshot_features(&activity.potentials, n_neurons),
    };
    assert(features@.len() == features.len());
    Ok(features)
}

/// What is wrong with a projection.
pub open spec fn projection_error(activity: &SpikeActivity, n: usize, embed_dim: usize) -> Option<
    error::ErrorView,
> {
    if embed_dim == 0 {
        Some(error::ErrorView::InvalidConfig("project_spike_activity: embed_dim must be > 0"@))
    } else {
        activity_error(activity, n)
    }
}

/// `out` is the projection of an activity: its features, resized and squashed.
pub open spec fn projected<M: Arithmetic>(
    mode: ProjectionMode,
    activity: &SpikeActivity,
    n: usize,
    embed_dim: usize,
    out: Seq<Scalar>,
) -> bool {
    exists|features: Seq<Scalar>|
        #[trigger] featured::<M>(mode, activity, n, features) && features.len() <= usize::MAX
            && fits::<M>(features, embed_dim as nat, out)
}

/// `outcome` is what the projection of an activity comes to: the embedding, or
/// what is wrong.
pub open spec fn projection_outcome<M: Arithmetic>(
    mode: ProjectionMode,
    activity: &SpikeActivity,
    n: usize,
    embed_dim: usize,
    outcome: Result<Seq<Scalar>, error::ErrorView>,
) -> bool {
    match projection_error(activity, n, embed_dim) {
        Some(e) => outcome == Err::<Seq<Scalar>, error::ErrorView>(e),
        None => outcome matches Ok(embedding) && projected::<M>(
            mode,
            activity,
            n,
            embed_dim,
            embedding,
        ),
    }
}

/// Projects spike activity to a dense embedding for an expert router: features,
/// resized to `embed_dim` numbers and squashed, with no learned weights.
pub fn project_spike_activity<M: Arithmetic>(
    mode: ProjectionMode,
    activity: &SpikeActivity,
    n_neurons: usize,
    embed_dim: usize,
) -> (r: Result<Vec<Scalar>, HybridError>)
    ensures
        projection_outcome::<M>(mode, activity, n_neurons, embed_dim, numbers_view(r)),
{
    if embed_dim == 0 {
        return Err(
            HybridError::InvalidConfig(
                String::from_str("project_spike_activity: embed_dim must be > 0"),
            ),
        );
    }
    match spike_activity_features::<M>(mode, activity, n_neurons) {
        Err(e) => Err(e),
        Ok(features) => {
            assert(featured::<M>(mode, activity, n_neurons, features@));
            let mut embedding = resize_to::<M>(features.as_slice(), embed_dim);
            squash_inplace::<M>(&mut embedding);
            assert(fits::<M>(features@, embed_dim as nat, embedding@));
            Ok(embedding)
        },
    }
}

/// The bins of a histogram account for every spike once: a neuron's counts add
/// up to how often it fired.
pub proof fn law_bins_account_for_all_spikes(train: Seq<Vec<usize>>, steps: int, neuron: int)
    requires
        train.len() <= steps,
    ensures
        spike_count(train, steps, None, neuron) == spike_count(train, steps, Some(0), neuron)
            + spike_count(train, steps, Some(1), neuron) + spike_count(
            train,
            steps,
            Some(2),
            neuron,
        ) + spike_count(train, steps, Some(3), neuron),
    decreases train.len(),
{
    if train.len() > 0 {
        law_bins_account_for_all_spikes(train.drop_last(), steps, neuron);
        let t = train.len() - 1;
        assert(0 <= bin_of(t, steps) < TEMPORAL_BINS) by (nonlinear_arith)
            requires
                0 <= t < steps,
        ;
    }
}

/// One step of fired neurons with membranes at rest is an activity that every
/// mode takes.
pub proof fn law_fired_activity_is_taken(activity: &SpikeActivity, fired: Seq<usize>, n: usize)
    requires
        SpikeActivity::fired_error(fired, n) is None,
        activity.spike_train@.len() == 1,
        activity.spike_train@[0]@ == fired,
        activity.potentials@ == Seq::new(n as nat, |i: int| scalar::scalar(0)),
    ensures
        activity_error(activity, n) is None,
{
    assert(train_in_range(activity.spike_train@, n));
    assert(validate::all_finite(activity.potentials@.take(n as int)));
}

/// The number of features depends on the mode alone: one per neuron, or four
/// where they are binned.
pub proof fn law_feature_count<M: Arithmetic>(
    mode: ProjectionMode,
    activity: &SpikeActivity,
    n: usize,
    features: Seq<Scalar>,
)
    requires
        activity_error(activity, n) is None,
        featured::<M>(mode, activity, n, features),
    ensures
        features.len() == if mode == ProjectionMode::TemporalHistogram {
            4 * n
        } else {
            n as int
        },
{
}

/// The ternary mode is the rate mode by another name: the same features, or the
/// same error. On a deterministic host both come to the same.
pub proof fn law_ternary_is_rate_sum<M: Arithmetic>(
    activity: &SpikeActivity,
    n: usize,
    ternary: Result<Seq<Scalar>, error::ErrorView>,
    rates: Result<Seq<Scalar>, error::ErrorView>,
)
    ensures
        features_outcome::<M>(ProjectionMode::SpikingTernary, activity, n, rates)
            <==> features_outcome::<M>(ProjectionMode::RateSum, activity, n, rates),
        arithmetic::deterministic::<M>() && features_outcome::<M>(
            ProjectionMode::SpikingTernary,
            activity,
            n,
            ternary,
        ) && features_outcome::<M>(ProjectionMode::RateSum, activity, n, rates) ==> ternary
            == rates,
{
    let mode = ProjectionMode::RateSum;
    if arithmetic::deterministic::<M>() && features_outcome::<M>(
        ProjectionMode::SpikingTernary,
        activity,
        n,
        ternary,
    ) && features_outcome::<M>(mode, activity, n, rates) && activity_error(activity, n) is None {
        law_features_are_unique::<M>(mode, activity, n, ternary->Ok_0, rates->Ok_0);
    }
}

/// How often an index occurs is a matter of the multiset of indices.
proof fn lemma_occurrences(step: Seq<usize>, neuron: usize)
    ensures
        occurrences(step, neuron as int) == step.to_multiset().count(neuron),
    decreases step.len(),
{
    broadcast use vstd::seq_lib::group_to_multiset_ensures;

    if step.len() > 0 {
        lemma_occurrences(step.drop_last(), neuron);
        assert(step =~= step.drop_last().push(step.last()));
    }
}

/// The trains hold the same indices in each step, in whatever order.
pub open spec fn reordered(a: Seq<Vec<usize>>, b: Seq<Vec<usize>>) -> bool {
    &&& a.len() == b.len()
    &&& forall|t: int|
        #![trigger a[t]]
        #![trigger b[t]]
        0 <= t < a.len() ==> a[t]@.to_multiset() == b[t]@.to_multiset()
}

/// Reordering the indices of each step keeps every count.
proof fn lemma_reordered_count(
    a: Seq<Vec<usize>>,
    b: Seq<Vec<usize>>,
    steps: int,
    bin: Option<usize>,
    neuron: usize,
)
    requires
        reordered(a, b),
    ensures
        spike_count(a, steps, bin, neuron as int) == spike_count(b, steps, bin, neuron as int),
    decreases a.len(),
{
    if a.len() > 0 {
        let last = a.len() - 1;
        assert(a[last]@.to_multiset() == b[last]@.to_multiset());
        lemma_occurrences(a[last]@, neuron);
        lemma_occurrences(b[last]@, neuron);
        assert forall|t: int|
            #![trigger a.drop_last()[t]]
            #![trigger b.drop_last()[t]]
            0 <= t < last implies a.drop_last()[t]@.to_multiset()
            == b.drop_last()[t]@.to_multiset() by {
            assert(a[t]@.to_multiset() == b[t]@.to_multiset());
        }
        lemma_reordered_count(a.drop_last(), b.drop_last(), steps, bin, neuron);
    }
}

/// Reordering the indices of each step keeps them in range.
proof fn lemma_reordered_in_range(a: Seq<Vec<usize>>, b: Seq<Vec<usize>>, n: usize)
    requires
        reordered(a, b),
        train_in_range(a, n),
    ensures
        train_in_range(b, n),
{
    broadcast use vstd::seq_lib::group_to_multiset_ensures;

    assert forall|t: int| 0 <= t < b.len() implies traits::all_below((#[trigger] b[t])@, n) by {
        assert(a[t]@.to_multiset() == b[t]@.to_multiset());
        assert(traits::all_below(a[t]@, n));
        assert forall|i: int| 0 <= i < b[t]@.len() implies #[trigger] b[t]@[i] < n by {
            let x = b[t]@[i];
            assert(b[t]@.contains(x));
            assert(b[t]@.to_multiset().count(x) > 0);
            assert(a[t]@.contains(x));
        }
    }
}

/// Reordering the indices of each step keeps the features.
proof fn lemma_reordered_features<M: Arithmetic>(
    mode: ProjectionMode,
    a: &SpikeActivity,
    b: &SpikeActivity,
    n: usize,
    features: Seq<Scalar>,
)
    requires
        reordered(a.spike_train@, b.spike_train@),
        a.potentials@ == b.potentials@,
        featured::<M>(mode, a, n, features),
    ensures
        featured::<M>(mode, b, n, features),
{
    let ta = a.spike_train@;
    let tb = b.spike_train@;
    let steps = ta.len() as int;
    match mode {
        ProjectionMode::RateSum | ProjectionMode::SpikingTernary => {
            assert forall|i: int| 0 <= i < n implies rate::<M>(
                spike_count(tb, steps, None, i),
                tb.len(),
                #[trigger] features[i],
            ) by {
                lemma_reordered_count(ta, tb, steps, None, i as usize);
            }
        },
        ProjectionMode::TemporalHistogram => {
            if ta.len() > 0 {
                let bins = TEMPORAL_BINS as int;
                let span = choose|span: Scalar| #[trigger]
                    bin_span::<M>(ta.len(), span) && forall|k: int|
                        0 <= k < features.len() ==> binned_rate::<M>(
                            spike_count(ta, steps, Some((k % bins) as usize), k / bins),
                            span,
                            #[trigger] features[k],
                        );
                assert(bin_span::<M>(tb.len(), span));
                assert forall|k: int| 0 <= k < features.len() implies binned_rate::<M>(
                    spike_count(tb, steps, Some((k % bins) as usize), k / bins),
                    span,
                    #[trigger] features[k],
                ) by {
                    lemma_reordered_count(
                        ta,
                        tb,
                        steps,
                        Some((k % bins) as usize),
                        (k / bins) as usize,
                    );
                }
            }
        },
        ProjectionMode::MembraneSnapshot => {},
    }
}

/// The order of the indices inside a step does not matter: an accepted activity
/// whose steps are reordered is accepted, and has the same features. On a
/// deterministic host both come to the same.
pub proof fn law_step_order_does_not_matter<M: Arithmetic>(
    mode: ProjectionMode,
    a: &SpikeActivity,
    b: &SpikeActivity,
    n: usize,
    of_a: Result<Seq<Scalar>, error::ErrorView>,
    of_b: Result<Seq<Scalar>, error::ErrorView>,
)
    requires
        activity_error(a, n) is None,
        reordered(a.spike_train@, b.spike_train@),
        a.potentials@ == b.potentials@,
    ensures
        activity_error(b, n) is None,
        features_outcome::<M>(mode, a, n, of_a) <==> features_outcome::<M>(mode, b, n, of_a),
        arithmetic::deterministic::<M>() && features_outcome::<M>(mode, a, n, of_a)
            && features_outcome::<M>(mode, b, n, of_b) ==> of_a == of_b,
{
    lemma_reordered_in_range(a.spike_train@, b.spike_train@, n);
    if of_a is Ok && featured::<M>(mode, a, n, of_a->Ok_0) {
        lemma_reordered_features::<M>(mode, a, b, n, of_a->Ok_0);
    }
    if of_a is Ok && featured::<M>(mode, b, n, of_a->Ok_0) {
        lemma_reordered_features::<M>(mode, b, a, n, of_a->Ok_0);
    }
    if arithmetic::deterministic::<M>() && features_outcome::<M>(mode, a, n, of_a)
        && features_outcome::<M>(mode, b, n, of_b) {
        law_features_are_unique::<M>(mode, b, n, of_a->Ok_0, of_b->Ok_0);
    }
}

/// Only the spikes and the first `n` membrane potentials of an activity count,
/// and nothing else of it: not the potentials behind them, nor the
/// adaptive-bank potentials. Two that agree in those come to the same features
/// or the same error; on a deterministic host, to one outcome.
pub proof fn law_only_own_potentials_count<M: Arithmetic>(
    mode: ProjectionMode,
    a: &SpikeActivity,
    b: &SpikeActivity,
    n: usize,
    of_a: Result<Seq<Scalar>, error::ErrorView>,
    of_b: Result<Seq<Scalar>, error::ErrorView>,
)
    requires
        a.spike_train@ == b.spike_train@,
        n <= a.potentials@.len(),
        n <= b.potentials@.len(),
        a.potentials@.take(n as int) == b.potentials@.take(n as int),
    ensures
        activity_error(a, n) == activity_error(b, n),
        features_outcome::<M>(mode, a, n, of_a) <==> features_outcome::<M>(mode, b, n, of_a),
        arithmetic::deterministic::<M>() && features_outcome::<M>(mode, a, n, of_a)
            && features_outcome::<M>(mode, b, n, of_b) ==> of_a == of_b,
{
    if arithmetic::deterministic::<M>() && features_outcome::<M>(mode, a, n, of_a)
        && features_outcome::<M>(mode, b, n, of_b) && activity_error(a, n) is None {
        law_features_are_unique::<M>(mode, a, n, of_a->Ok_0, of_b->Ok_0);
    }
}

/// The features of a snapshot lie in the interval from `0` to `1`.
pub proof fn law_snapshot_in_unit<M: Arithmetic>(
    activity: &SpikeActivity,
    n: usize,
    features: Seq<Scalar>,
)
    requires
        activity_error(activity, n) is None,
        featured::<M>(ProjectionMode::MembraneSnapshot, activity, n, features),
    ensures
        forall|i: int|
            0 <= i < features.len() ==> 0 <= (#[trigger] features[i]).ordinal()
                <= scalar::ONE_BITS,
{
    let first = activity.potentials@.take(n as int);
    assert forall|i: int| 0 <= i < features.len() implies 0 <= (#[trigger] features[i]).ordinal()
        <= scalar::ONE_BITS by {
        assert(first[i].finite());
        assert(features[i] == first[i].clamped_to_unit());
    }
}

/// A projection has as many numbers as were asked for.
pub proof fn law_projection_length<M: Arithmetic>(
    mode: ProjectionMode,
    activity: &SpikeActivity,
    n: usize,
    embed_dim: usize,
    embedding: Seq<Scalar>,
)
    requires
        projected::<M>(mode, activity, n, embed_dim, embedding),
    ensures
        embedding.len() == embed_dim,
{
}

/// Stimuli have as many numbers as were asked for.
pub proof fn law_stimuli_length<M: Arithmetic>(tensor: &Tensor, width: nat, stimuli: Seq<Scalar>)
    requires
        stimulates_width::<M>(tensor, width, stimuli),
    ensures
        stimuli.len() == width,
{
}

/// The host's hyperbolic tangent of a number lies in the interval from `-1` to
/// `1`, and that of NaN is NaN.
pub open spec fn squashing<M: Arithmetic>() -> bool {
    forall|a: Scalar, r: Scalar| #[trigger]
        arithmetic::squashes::<M>(a, r) ==> if a.nan() {
            r.nan()
        } else {
            r.unit_bounded()
        }
}

/// On a squashing host every stimulus that is finite lies in the interval from
/// `-1` to `1`.
pub proof fn law_stimuli_bounded<M: Arithmetic>(tensor: &Tensor, width: nat, stimuli: Seq<Scalar>)
    requires
        squashing::<M>(),
        stimulates_width::<M>(tensor, width, stimuli),
        validate::all_finite(stimuli),
    ensures
        forall|i: int| 0 <= i < stimuli.len() ==> (#[trigger] stimuli[i]).unit_bounded(),
{
    let pooled = choose|pooled: Seq<Scalar>| #[trigger]
        mean_pools::<M>(tensor, pooled) && fits::<M>(pooled, width, stimuli);
    lemma_fit_bounded::<M>(pooled, width, stimuli);
    assert forall|i: int| 0 <= i < stimuli.len() implies (#[trigger] stimuli[i]).unit_bounded() by {
        assert(stimuli[i].finite());
    }
}

/// On a squashing host that keeps numbers that are not negative so, every number
/// of the projection of an accepted activity lies in the interval from `-1` to
/// `1`.
pub proof fn law_projection_bounded<M: Arithmetic>(
    mode: ProjectionMode,
    activity: &SpikeActivity,
    n: usize,
    embed_dim: usize,
    embedding: Seq<Scalar>,
)
    requires
        squashing::<M>(),
        arithmetic::keeps_nonnegative::<M>(),
        activity_error(activity, n) is None,
        projected::<M>(mode, activity, n, embed_dim, embedding),
    ensures
        forall|i: int| 0 <= i < embedding.len() ==> (#[trigger] embedding[i]).unit_bounded(),
{
    let features = choose|features: Seq<Scalar>| #[trigger]
        featured::<M>(mode, activity, n, features) && features.len() <= usize::MAX && fits::<M>(
            features,
            embed_dim as nat,
            embedding,
        );
    law_features_are_nonnegative::<M>(mode, activity, n, features);
    let resized = choose|resized: Seq<Scalar>| #[trigger]
        resizes::<M>(features, embed_dim as nat, resized) && squashed::<M>(resized, embedding);
    lemma_resized_is_nonnegative::<M>(features, embed_dim as nat, resized);
    assert forall|i: int| 0 <= i < embedding.len() implies (
    #[trigger] embedding[i]).unit_bounded() by {
        assert(arithmetic::squashes::<M>(resized[i], embedding[i]));
        assert(resized[i].nonnegative());
    }
}

/// On a host that keeps numbers that are not negative so, no feature of an
/// accepted activity is negative or NaN.
pub proof fn law_features_are_nonnegative<M: Arithmetic>(
    mode: ProjectionMode,
    activity: &SpikeActivity,
    n: usize,
    features: Seq<Scalar>,
)
    requires
        arithmetic::keeps_nonnegative::<M>(),
        activity_error(activity, n) is None,
        featured::<M>(mode, activity, n, features),
    ensures
        forall|i: int| 0 <= i < features.len() ==> (#[trigger] features[i]).nonnegative(),
{
    let train = activity.spike_train@;
    let steps = train.len() as int;
    match mode {
        ProjectionMode::RateSum | ProjectionMode::SpikingTernary => {
            assert forall|i: int| 0 <= i < features.len() implies (
            #[trigger] features[i]).nonnegative() by {
                let count = spike_count(train, steps, None, i);
                assert(rate::<M>(count, train.len(), features[i]));
                let (total, c) = choose|total: Scalar, c: Scalar|
                    arithmetic::tallies::<M>(count, total) && arithmetic::counts::<M>(
                        at_least_one(train.len() as usize),
                        c,
                    ) && #[trigger] arithmetic::divides::<M>(total, c, features[i]);
                lemma_tally_is_nonnegative::<M>(count, total);
            }
        },
        ProjectionMode::TemporalHistogram => {
            if train.len() > 0 {
                lemma_histogram_is_nonnegative::<M>(activity, n as nat, features);
            }
        },
        ProjectionMode::MembraneSnapshot => {
            law_snapshot_in_unit::<M>(activity, n, features);
            let first = activity.potentials@.take(n as int);
            assert forall|i: int| 0 <= i < features.len() implies (
            #[trigger] features[i]).nonnegative() by {
                assert(first[i].finite());
                assert(features[i] == first[i].clamped_to_unit());
            }
        },
    }
}

/// A tally is not negative.
proof fn lemma_tally_is_nonnegative<M: Arithmetic>(count: nat, total: Scalar)
    requires
        arithmetic::keeps_nonnegative::<M>(),
        arithmetic::tallies::<M>(count, total),
    ensures
        total.nonnegative(),
{
    arithmetic::law_sum_is_nonnegative::<M>(
        Seq::new(count, |i: int| scalar::scalar(scalar::ONE_BITS)),
        total,
    );
}

/// A histogram holds no negative number.
proof fn lemma_histogram_is_nonnegative<M: Arithmetic>(
    activity: &SpikeActivity,
    n: nat,
    features: Seq<Scalar>,
)
    requires
        arithmetic::keeps_nonnegative::<M>(),
        activity.spike_train@.len() > 0,
        histogram::<M>(activity.spike_train@, n, features),
    ensures
        forall|k: int| 0 <= k < features.len() ==> (#[trigger] features[k]).nonnegative(),
{
    let train = activity.spike_train@;
    let bins = TEMPORAL_BINS as int;
    assert(activity.spike_train.len() == train.len());
    let span = choose|span: Scalar| #[trigger]
        bin_span::<M>(train.len(), span) && forall|k: int|
            0 <= k < features.len() ==> binned_rate::<M>(
                spike_count(train, train.len() as int, Some((k % bins) as usize), k / bins),
                span,
                #[trigger] features[k],
            );
    assert(scalar::scalar(scalar::FOUR_BITS).finite_from_one());
    assert(span.finite_from_one());
    assert forall|k: int| 0 <= k < features.len() implies (
    #[trigger] features[k]).nonnegative() by {
        let count = spike_count(train, train.len() as int, Some((k % bins) as usize), k / bins);
        assert(binned_rate::<M>(count, span, features[k]));
        let total = choose|total: Scalar| #[trigger]
            arithmetic::tallies::<M>(count, total) && arithmetic::divides::<M>(
                total,
                span,
                features[k],
            );
        lemma_tally_is_nonnegative::<M>(count, total);
    }
}

/// Resizing numbers that are not negative gives such numbers.
proof fn lemma_resized_is_nonnegative<M: Arithmetic>(
    src: Seq<Scalar>,
    target: nat,
    out: Seq<Scalar>,
)
    requires
        arithmetic::keeps_nonnegative::<M>(),
        src.len() <= usize::MAX,
        forall|i: int| 0 <= i < src.len() ==> (#[trigger] src[i]).nonnegative(),
        resizes::<M>(src, target, out),
    ensures
        forall|i: int| 0 <= i < out.len() ==> (#[trigger] out[i]).nonnegative(),
{
    assert forall|i: int| 0 <= i < out.len() implies (#[trigger] out[i]).nonnegative() by {
        if src.len() > target {
            lemma_block_bounds(i, src.len() as int, target as int);
            let block = src.subrange(
                block_start(i, src.len() as int, target as int),
                block_start(i + 1, src.len() as int, target as int),
            );
            assert(averages::<M>(block, out[i]));
            let (s, c) = choose|s: Scalar, c: Scalar|
                arithmetic::sums_to::<M>(block, s) && arithmetic::counts::<M>(
                    block.len() as usize,
                    c,
                ) && #[trigger] arithmetic::divides::<M>(s, c, out[i]);
            assert forall|k: int| 0 <= k < block.len() implies (
            #[trigger] block[k]).nonnegative() by {
                assert(src[block_start(i, src.len() as int, target as int) + k].nonnegative());
            }
            arithmetic::law_sum_is_nonnegative::<M>(block, s);
        } else if i < src.len() {
            assert(out[i] == src[i]);
        }
    }
}

/// What was squashed is bounded.
proof fn lemma_fit_bounded<M: Arithmetic>(src: Seq<Scalar>, target: nat, out: Seq<Scalar>)
    requires
        squashing::<M>(),
        fits::<M>(src, target, out),
    ensures
        forall|i: int|
            0 <= i < out.len() ==> (#[trigger] out[i]).nan() || out[i].unit_bounded(),
{
    let resized = choose|resized: Seq<Scalar>| #[trigger]
        resizes::<M>(src, target, resized) && squashed::<M>(resized, out);
    assert forall|i: int| 0 <= i < out.len() implies (#[trigger] out[i]).nan()
        || out[i].unit_bounded() by {
        assert(arithmetic::squashes::<M>(resized[i], out[i]));
    }
}

/// On a deterministic host an activity has one projection.
pub proof fn law_projection_is_unique<M: Arithmetic>(
    mode: ProjectionMode,
    activity: &SpikeActivity,
    n: usize,
    embed_dim: usize,
    a: Seq<Scalar>,
    b: Seq<Scalar>,
)
    requires
        arithmetic::deterministic::<M>(),
        projected::<M>(mode, activity, n, embed_dim, a),
        projected::<M>(mode, activity, n, embed_dim, b),
    ensures
        a == b,
{
    let fa = choose|features: Seq<Scalar>| #[trigger]
        featured::<M>(mode, activity, n, features) && features.len() <= usize::MAX && fits::<M>(
            features,
            embed_dim as nat,
            a,
        );
    let fb = choose|features: Seq<Scalar>| #[trigger]
        featured::<M>(mode, activity, n, features) && features.len() <= usize::MAX && fits::<M>(
            features,
            embed_dim as nat,
            b,
        );
    law_features_are_unique::<M>(mode, activity, n, fa, fb);
    lemma_fit_is_unique::<M>(fa, embed_dim as nat, a, b);
}

/// On a deterministic host an activity has one vector of features.
pub proof fn law_features_are_unique<M: Arithmetic>(
    mode: ProjectionMode,
    activity: &SpikeActivity,
    n: usize,
    a: Seq<Scalar>,
    b: Seq<Scalar>,
)
    requires
        arithmetic::deterministic::<M>(),
        featured::<M>(mode, activity, n, a),
        featured::<M>(mode, activity, n, b),
    ensures
        a == b,
{
    let train = activity.spike_train@;
    match mode {
        ProjectionMode::RateSum | ProjectionMode::SpikingTernary => {
            assert forall|i: int| 0 <= i < a.len() implies a[i] == b[i] by {
                let count = spike_count(train, train.len() as int, None, i);
                assert(rate::<M>(count, train.len(), a[i]));
                assert(rate::<M>(count, train.len(), b[i]));
                lemma_rate_is_unique::<M>(count, train.len(), a[i], b[i]);
            }
            assert(a =~= b);
        },
        ProjectionMode::TemporalHistogram => {
            if train.len() > 0 {
                lemma_histogram_is_unique::<M>(train, n as nat, a, b);
            } else {
                assert(a =~= b);
            }
        },
        ProjectionMode::MembraneSnapshot => {},
    }
}

/// On a deterministic host a count has one rate.
proof fn lemma_rate_is_unique<M: Arithmetic>(count: nat, steps: nat, a: Scalar, b: Scalar)
    requires
        arithmetic::deterministic::<M>(),
        rate::<M>(count, steps, a),
        rate::<M>(count, steps, b),
    ensures
        a == b,
{
    let s = at_least_one(steps as usize);
    let (ta, ca) = choose|total: Scalar, c: Scalar|
        arithmetic::tallies::<M>(count, total) && arithmetic::counts::<M>(s, c)
            && #[trigger] arithmetic::divides::<M>(total, c, a);
    let (tb, cb) = choose|total: Scalar, c: Scalar|
        arithmetic::tallies::<M>(count, total) && arithmetic::counts::<M>(s, c)
            && #[trigger] arithmetic::divides::<M>(total, c, b);
    arithmetic::law_sum_is_unique::<M>(
        Seq::new(count, |i: int| scalar::scalar(scalar::ONE_BITS)),
        ta,
        tb,
    );
}

/// On a deterministic host a train has one histogram.
proof fn lemma_histogram_is_unique<M: Arithmetic>(
    train: Seq<Vec<usize>>,
    n: nat,
    a: Seq<Scalar>,
    b: Seq<Scalar>,
)
    requires
        arithmetic::deterministic::<M>(),
        train.len() > 0,
        histogram::<M>(train, n, a),
        histogram::<M>(train, n, b),
    ensures
        a == b,
{
    let bins = TEMPORAL_BINS as int;
    let sa = choose|span: Scalar| #[trigger]
        bin_span::<M>(train.len(), span) && forall|k: int|
            0 <= k < a.len() ==> binned_rate::<M>(
                spike_count(train, train.len() as int, Some((k % bins) as usize), k / bins),
                span,
                #[trigger] a[k],
            );
    let sb = choose|span: Scalar| #[trigger]
        bin_span::<M>(train.len(), span) && forall|k: int|
            0 <= k < b.len() ==> binned_rate::<M>(
                spike_count(train, train.len() as int, Some((k % bins) as usize), k / bins),
                span,
                #[trigger] b[k],
            );
    assert(sa == sb);
    assert forall|k: int| 0 <= k < a.len() implies a[k] == b[k] by {
        let count = spike_count(train, train.len() as int, Some((k % bins) as usize), k / bins);
        assert(binned_rate::<M>(count, sa, a[k]));
        assert(binned_rate::<M>(count, sa, b[k]));
        let ta = choose|total: Scalar| #[trigger]
            arithmetic::tallies::<M>(count, total) && arithmetic::divides::<M>(total, sa, a[k]);
        let tb = choose|total: Scalar| #[trigger]
            arithmetic::tallies::<M>(count, total) && arithmetic::divides::<M>(total, sa, b[k]);
        arithmetic::law_sum_is_unique::<M>(
            Seq::new(count, |i: int| scalar::scalar(scalar::ONE_BITS)),
            ta,
            tb,
        );
    }
    assert(a =~= b);
}

/// On a deterministic host the means of fewer columns begin those of more.
pub proof fn law_fewer_means_are_a_prefix<M: Arithmetic>(
    values: Seq<Scalar>,
    rows: usize,
    width: int,
    fewer: nat,
    more: nat,
    a: Seq<Scalar>,
    b: Seq<Scalar>,
)
    requires
        arithmetic::deterministic::<M>(),
        fewer <= more,
        column_means::<M>(values, rows, width, fewer, a),
        column_means::<M>(values, rows, width, more, b),
    ensures
        a == b.take(fewer as int),
{
    let ia = choose|inv: Scalar|
        {
            &&& #[trigger] arithmetic::inverts::<M>(rows, inv)
            &&& forall|i: int|
                0 <= i < fewer ==> scaled_sum::<M>(
                    column(values, width, rows as nat, i),
                    inv,
                    #[trigger] a[i],
                )
        };
    let ib = choose|inv: Scalar|
        {
            &&& #[trigger] arithmetic::inverts::<M>(rows, inv)
            &&& forall|i: int|
                0 <= i < more ==> scaled_sum::<M>(
                    column(values, width, rows as nat, i),
                    inv,
                    #[trigger] b[i],
                )
        };
    assert(ia == ib);
    assert forall|i: int| 0 <= i < fewer implies a[i] == b[i] by {
        let xs = column(values, width, rows as nat, i);
        assert(scaled_sum::<M>(xs, ia, a[i]));
        assert(scaled_sum::<M>(xs, ia, b[i]));
        let sa = choose|s: Scalar| #[trigger]
            arithmetic::sums_to::<M>(xs, s) && arithmetic::multiplies::<M>(s, ia, a[i]);
        let sb = choose|s: Scalar| #[trigger]
            arithmetic::sums_to::<M>(xs, s) && arithmetic::multiplies::<M>(s, ia, b[i]);
        arithmetic::law_sum_is_unique::<M>(xs, sa, sb);
    }
    assert(a =~= b.take(fewer as int));
}

/// On a deterministic host a sequence is resized and squashed in one way.
proof fn lemma_fit_is_unique<M: Arithmetic>(
    src: Seq<Scalar>,
    target: nat,
    a: Seq<Scalar>,
    b: Seq<Scalar>,
)
    requires
        arithmetic::deterministic::<M>(),
        fits::<M>(src, target, a),
        fits::<M>(src, target, b),
    ensures
        a == b,
{
    let ra = choose|resized: Seq<Scalar>| #[trigger]
        resizes::<M>(src, target, resized) && squashed::<M>(resized, a);
    let rb = choose|resized: Seq<Scalar>| #[trigger]
        resizes::<M>(src, target, resized) && squashed::<M>(resized, b);
    if src.len() > target {
        assert forall|i: int| 0 <= i < target implies ra[i] == rb[i] by {
            let block = src.subrange(
                block_start(i, src.len() as int, target as int),
                block_start(i + 1, src.len() as int, target as int),
            );
            assert(averages::<M>(block, ra[i]));
            assert(averages::<M>(block, rb[i]));
            let (s, c) = choose|s: Scalar, c: Scalar|
                arithmetic::sums_to::<M>(block, s) && arithmetic::counts::<M>(
                    block.len() as usize,
                    c,
                ) && #[trigger] arithmetic::divides::<M>(s, c, ra[i]);
            let (s2, c2) = choose|s: Scalar, c: Scalar|
                arithmetic::sums_to::<M>(block, s) && arithmetic::counts::<M>(
                    block.len() as usize,
                    c,
                ) && #[trigger] arithmetic::divides::<M>(s, c, rb[i]);
            arithmetic::law_sum_is_unique::<M>(block, s, s2);
        }
    }
    assert(ra =~= rb);
    assert forall|i: int| 0 <= i < a.len() implies a[i] == b[i] by {
        assert(arithmetic::squashes::<M>(ra[i], a[i]));
        assert(arithmetic::squashes::<M>(rb[i], b[i]));
    }
    assert(a =~= b);
}

/// A bin is an even span of the train: step `t` is in bin `b` of the four exactly
/// where it lies from `b` quarters of the train on and before `b + 1` quarters.
pub proof fn law_bin_is_a_quarter(t: int, steps: int, b: usize)
    requires
        0 <= t < steps,
        b < 4,
    ensures
        counted(t, steps, Some(b)) <==> b * steps <= 4 * t < (b + 1) * steps,
        counted(t, steps, None),
{
    let q = (t * 4) / steps;
    assert(q * steps <= t * 4 < (q + 1) * steps) by (nonlinear_arith)
        requires
            q == (t * 4) / steps,
            steps > 0,
    ;
    if q < b {
        assert((q + 1) * steps <= b * steps) by (nonlinear_arith)
            requires
                q + 1 <= b,
                steps > 0,
        ;
    } else if b < q {
        assert((b + 1) * steps <= q * steps) by (nonlinear_arith)
            requires
                b + 1 <= q,
                steps > 0,
        ;
    }
}

/// Every step is in exactly one of the four bins.
pub proof fn law_step_has_one_bin(t: int, steps: int)
    requires
        0 <= t < steps,
    ensures
        exists|b: usize| b < 4 && #[trigger] counted(t, steps, Some(b)),
        forall|a: usize, b: usize| #[trigger]
            counted(t, steps, Some(a)) && #[trigger] counted(t, steps, Some(b)) ==> a == b,
{
    law_bin_is_a_quarter(t, steps, 0);
    law_bin_is_a_quarter(t, steps, 1);
    law_bin_is_a_quarter(t, steps, 2);
    law_bin_is_a_quarter(t, steps, 3);
}

/// The bins are consecutive: a later step is in no earlier bin.
pub proof fn law_bins_are_consecutive(s: int, t: int, steps: int, a: usize, b: usize)
    requires
        0 <= s <= t < steps,
        a < 4,
        b < 4,
        counted(s, steps, Some(a)),
        counted(t, steps, Some(b)),
    ensures
        a <= b,
{
    law_bin_is_a_quarter(s, steps, a);
    law_bin_is_a_quarter(t, steps, b);
    if b < a {
        assert((b + 1) * steps <= a * steps) by (nonlinear_arith)
            requires
                b + 1 <= a,
                steps > 0,
        ;
    }
}

/// The steps of a train that are in a bin.
pub open spec fn steps_in_bin(steps: int, b: usize) -> Set<int> {
    Set::new(|t: int| 0 <= t < steps && counted(t, steps, Some(b)))
}

/// A bin holds a quarter of the steps, or one more.
proof fn lemma_bin_size(steps: int, b: usize)
    requires
        0 < steps,
        b < 4,
    ensures
        steps_in_bin(steps, b).finite(),
        steps / 4 <= steps_in_bin(steps, b).len() <= steps / 4 + 1,
{
    let lo = (b * steps + 3) / 4;
    let hi = ((b + 1) * steps + 3) / 4;
    assert((b + 1) * steps == b * steps + steps) by (nonlinear_arith);
    assert(0 <= b * steps && (b + 1) * steps <= 4 * steps) by (nonlinear_arith)
        requires
            b < 4,
            steps > 0,
    ;
    vstd::set_lib::lemma_int_range(lo, hi);
    assert forall|t: int| steps_in_bin(steps, b).contains(t)
        == vstd::set_lib::set_int_range(lo, hi).contains(t) by {
        if 0 <= t < steps {
            law_bin_is_a_quarter(t, steps, b);
        }
    }
    assert(steps_in_bin(steps, b) =~= vstd::set_lib::set_int_range(lo, hi));
}

/// The bins are even: the numbers of steps in any two differ by at most one.
pub proof fn law_bins_are_even(steps: int, a: usize, b: usize)
    requires
        0 < steps,
        a < 4,
        b < 4,
    ensures
        steps_in_bin(steps, a).finite(),
        steps_in_bin(steps, b).finite(),
        steps_in_bin(steps, a).len() <= steps_in_bin(steps, b).len() + 1,
{
    lemma_bin_size(steps, a);
    lemma_bin_size(steps, b);
}

/// Where the number of steps divides by four, a bin is exactly a quarter of the
/// train.
pub proof fn law_bins_of_a_multiple(quarter: int, t: int, b: usize)
    requires
        0 <= t < 4 * quarter,
        b < 4,
    ensures
        counted(t, 4 * quarter, Some(b)) <==> b * quarter <= t < (b + 1) * quarter,
{
    law_bin_is_a_quarter(t, 4 * quarter, b);
    assert(b * (4 * quarter) == 4 * (b * quarter)) by (nonlinear_arith);
    assert((b + 1) * (4 * quarter) == 4 * ((b + 1) * quarter)) by (nonlinear_arith);
}

/// How often `neuron` fired from step `lo` on and before step `hi`: the counts of
/// those steps, added up.
pub open spec fn fired_between(train: Seq<Vec<usize>>, neuron: usize, lo: int, hi: int) -> nat {
    train.subrange(lo, hi).fold_left(
        0,
        |sum: nat, step: Vec<usize>| sum + step@.to_multiset().count(neuron),
    )
}

/// The firings up to a step, and in that step.
proof fn lemma_fired_next(train: Seq<Vec<usize>>, neuron: usize, lo: int, hi: int)
    requires
        0 <= lo <= hi < train.len(),
    ensures
        fired_between(train, neuron, lo, hi + 1) == fired_between(train, neuron, lo, hi)
            + occurrences(train[hi]@, neuron as int),
{
    lemma_occurrences(train[hi]@, neuron);
    assert(train.subrange(lo, hi + 1).drop_last() =~= train.subrange(lo, hi));
    assert(train.subrange(lo, hi + 1).last() == train[hi]);
}

/// The count of a neuron over all steps is how often it fired in them.
pub proof fn law_count_of_all_steps(train: Seq<Vec<usize>>, steps: int, neuron: usize)
    ensures
        spike_count(train, steps, None, neuron as int) == fired_between(
            train,
            neuron,
            0,
            train.len() as int,
        ),
    decreases train.len(),
{
    if train.len() > 0 {
        let front = train.drop_last();
        let n = front.len() as int;
        law_count_of_all_steps(front, steps, neuron);
        lemma_fired_next(train, neuron, 0, n);
        assert(front.subrange(0, n) =~= train.subrange(0, n));
    }
}

/// What the first `n` steps of a train hold for a bin is what lies between the
/// bin's quarters, as far as they go.
proof fn lemma_count_of_a_bin(train: Seq<Vec<usize>>, n: int, b: usize, neuron: usize)
    requires
        0 <= n <= train.len(),
        b < 4,
    ensures
        ({
            let steps = train.len() as int;
            let lo = (b * steps + 3) / 4;
            let hi = ((b + 1) * steps + 3) / 4;
            spike_count(train.take(n), steps, Some(b), neuron as int) == if n <= lo {
                0
            } else if n <= hi {
                fired_between(train, neuron, lo, n)
            } else {
                fired_between(train, neuron, lo, hi)
            }
        }),
    decreases n,
{
    let steps = train.len() as int;
    let lo = (b * steps + 3) / 4;
    let hi = ((b + 1) * steps + 3) / 4;
    assert((b + 1) * steps == b * steps + steps) by (nonlinear_arith);
    assert(0 <= b * steps && (b + 1) * steps <= 4 * steps) by (nonlinear_arith)
        requires
            b < 4,
            steps >= 0,
    ;
    assert(0 <= lo <= hi <= steps);
    assert(train.subrange(lo, lo).len() == 0);
    if n > 0 {
        lemma_count_of_a_bin(train, n - 1, b, neuron);
        law_bin_is_a_quarter(n - 1, steps, b);
        assert(train.take(n).drop_last() =~= train.take(n - 1));
        assert(train.take(n).last() == train[n - 1]);
        if lo < n <= hi {
            lemma_fired_next(train, neuron, lo, n - 1);
        }
    }
}

/// The count of a neuron in a bin is how often it fired in the steps between the
/// bin's quarters of the train, `lo` and `hi`.
pub proof fn law_count_of_a_bin(train: Seq<Vec<usize>>, b: usize, neuron: usize, lo: int, hi: int)
    requires
        b < 4,
        4 * (lo - 1) < b * train.len() <= 4 * lo,
        4 * (hi - 1) < (b + 1) * train.len() <= 4 * hi,
    ensures
        spike_count(train, train.len() as int, Some(b), neuron as int) == fired_between(
            train,
            neuron,
            lo,
            hi,
        ),
{
    let steps = train.len() as int;
    lemma_count_of_a_bin(train, steps, b, neuron);
    assert(train.take(steps) =~= train);
    assert((b + 1) * steps == b * steps + steps) by (nonlinear_arith);
    assert(0 <= b * steps && (b + 1) * steps <= 4 * steps) by (nonlinear_arith)
        requires
            b < 4,
            steps >= 0,
    ;
    assert(lo == (b * steps + 3) / 4);
    assert(hi == ((b + 1) * steps + 3) / 4);
    if steps <= lo {
        assert(train.subrange(lo, hi).len() == 0);
    }
}

/// A rate feature is how often the neuron fired in all steps, tallied up, over
/// the host's number for the steps, or for one where there are none. Handed back
/// are the tally and that number.
pub proof fn law_rate_feature<M: Arithmetic>(
    activity: &SpikeActivity,
    n: usize,
    features: Seq<Scalar>,
    neuron: usize,
) -> (r: (Scalar, Scalar))
    requires
        activity.spike_train@.len() <= usize::MAX,
        featured::<M>(ProjectionMode::RateSum, activity, n, features),
        neuron < n,
    ensures
        features.len() == n,
        arithmetic::tallies::<M>(
            fired_between(activity.spike_train@, neuron, 0, activity.spike_train@.len() as int),
            r.0,
        ),
        activity.spike_train@.len() > 0 ==> call_ensures(
            M::count,
            (activity.spike_train@.len() as usize,),
            r.1,
        ),
        activity.spike_train@.len() == 0 ==> call_ensures(M::count, (1usize,), r.1),
        call_ensures(M::divide, r, features[neuron as int]),
{
    let train = activity.spike_train@;
    let steps = train.len() as int;
    law_count_of_all_steps(train, steps, neuron);
    let count = spike_count(train, steps, None, neuron as int);
    assert(rate::<M>(count, train.len(), features[neuron as int]));
    let (total, c) = choose|total: Scalar, c: Scalar|
        arithmetic::tallies::<M>(count, total) && arithmetic::counts::<M>(
            at_least_one(train.len() as usize),
            c,
        ) && #[trigger] arithmetic::divides::<M>(total, c, features[neuron as int]);
    assert(arithmetic::divides::<M>(total, c, features[neuron as int]));
    (total, c)
}

/// A histogram feature is how often the neuron fired between two quarters of the
/// train, `lo` and `hi`, tallied up, over the length of a quarter, which is taken
/// as one at least. The features of a neuron stand side by side. Handed back are
/// the tally, the host's number for the steps and its quarter.
pub proof fn law_histogram_feature<M: Arithmetic>(
    activity: &SpikeActivity,
    n: usize,
    features: Seq<Scalar>,
    neuron: usize,
    b: usize,
    lo: int,
    hi: int,
) -> (r: (Scalar, Scalar, Scalar))
    requires
        0 < activity.spike_train@.len() <= usize::MAX,
        featured::<M>(ProjectionMode::TemporalHistogram, activity, n, features),
        neuron < n,
        b < 4,
        4 * (lo - 1) < b * activity.spike_train@.len() <= 4 * lo,
        4 * (hi - 1) < (b + 1) * activity.spike_train@.len() <= 4 * hi,
    ensures
        features.len() == 4 * n,
        arithmetic::tallies::<M>(fired_between(activity.spike_train@, neuron, lo, hi), r.0),
        call_ensures(M::count, (activity.spike_train@.len() as usize,), r.1),
        call_ensures(M::divide, (r.1, Scalar { bits: 0x4080_0000 }), r.2),
        call_ensures(
            M::divide,
            (r.0, r.2.larger(Scalar { bits: 0x3f80_0000 })),
            features[4 * neuron + b],
        ),
{
    let train = activity.spike_train@;
    let steps = train.len() as int;
    let bins = TEMPORAL_BINS as int;
    let k = 4 * neuron + b;
    law_count_of_a_bin(train, b, neuron, lo, hi);
    let span = choose|span: Scalar| #[trigger]
        bin_span::<M>(train.len(), span) && forall|k: int|
            0 <= k < features.len() ==> binned_rate::<M>(
                spike_count(train, steps, Some((k % bins) as usize), k / bins),
                span,
                #[trigger] features[k],
            );
    let (c, q) = choose|c: Scalar, q: Scalar|
        arithmetic::counts::<M>(train.len() as usize, c) && #[trigger] arithmetic::divides::<M>(
            c,
            scalar::scalar(scalar::FOUR_BITS),
            q,
        ) && span == q.larger(scalar::scalar(scalar::ONE_BITS));
    assert(arithmetic::divides::<M>(c, scalar::scalar(scalar::FOUR_BITS), q));
    assert(k % bins == b && k / bins == neuron);
    let count = spike_count(train, steps, Some(b), neuron as int);
    assert(binned_rate::<M>(count, span, features[k]));
    let total = choose|total: Scalar| #[trigger]
        arithmetic::tallies::<M>(count, total) && arithmetic::divides::<M>(total, span, features[k]);
    assert(arithmetic::divides::<M>(total, span, features[k]));
    (total, c, q)
}

/// Without any step every feature of a histogram is zero.
pub proof fn law_histogram_of_nothing<M: Arithmetic>(
    activity: &SpikeActivity,
    n: usize,
    features: Seq<Scalar>,
)
    requires
        activity.spike_train@.len() == 0,
        featured::<M>(ProjectionMode::TemporalHistogram, activity, n, features),
    ensures
        features.len() == 4 * n,
        forall|k: int| 0 <= k < features.len() ==> (#[trigger] features[k]).bits == 0,
{
}

/// A snapshot feature is the membrane potential itself where that lies in the
/// interval from `0` to `1`, and the nearer end of it where it does not.
pub proof fn law_snapshot_feature<M: Arithmetic>(
    activity: &SpikeActivity,
    n: usize,
    features: Seq<Scalar>,
    neuron: int,
)
    requires
        activity_error(activity, n) is None,
        featured::<M>(ProjectionMode::MembraneSnapshot, activity, n, features),
        0 <= neuron < n,
    ensures
        features.len() == n,
        features[neuron].finite(),
        ({
            let v = activity.potentials@[neuron];
            &&& v.finite()
            &&& 0 <= v.value() <= scalar::scalar(0x3f80_0000).value() ==> features[neuron] == v
            &&& v.value() < 0 ==> features[neuron].value() == 0
            &&& v.value() > scalar::scalar(0x3f80_0000).value() ==> features[neuron].value()
                == scalar::scalar(0x3f80_0000).value()
        }),
{
    let first = activity.potentials@.take(n as int);
    assert(first[neuron].finite());
    assert(features[neuron] == first[neuron].clamped_to_unit());
    scalar::law_named_values();
    scalar::law_clamping(first[neuron]);
    scalar::law_order_is_numeric(first[neuron], scalar::scalar(0));
}

/// Every mode takes an activity exactly where there are neurons, a potential for
/// each of them, only spikes of theirs, and no potential of theirs that is
/// infinite or NaN.
pub proof fn law_accepted_activity(activity: &SpikeActivity, n: usize)
    ensures
        activity_error(activity, n) is None <==> {
            &&& 0 < n <= activity.potentials@.len()
            &&& forall|t: int, j: int|
                0 <= t < activity.spike_train@.len() && 0 <= j < activity.spike_train@[t]@.len()
                    ==> #[trigger] activity.spike_train@[t]@[j] < n
            &&& forall|i: int| 0 <= i < n ==> (#[trigger] activity.potentials@[i]).finite()
        },
        0 < n && activity.potentials@.len() < n && activity.potentials@.len() <= usize::MAX
            ==> activity_error(activity, n) == Some(
            error::ErrorView::InputLengthMismatch {
                expected: n,
                got: activity.potentials@.len() as usize,
            },
        ),
        n == 0 ==> activity_error(activity, n) == Some(
            error::ErrorView::InvalidConfig("spike_activity_features: n_neurons must be > 0"@),
        ),
{
    let train = activity.spike_train@;
    let potentials = activity.potentials@;
    if 0 < n <= potentials.len() {
        let first = potentials.take(n as int);
        if train_in_range(train, n) {
            assert forall|t: int, j: int|
                0 <= t < train.len() && 0 <= j < train[t]@.len() implies #[trigger] train[t]@[j]
                < n by {
                assert(traits::all_below(train[t]@, n));
            }
        }
        if validate::all_finite(first) {
            assert forall|i: int| 0 <= i < n implies (#[trigger] potentials[i]).finite() by {
                assert(first[i].finite());
            }
        }
    }
}

/// A spike out of range is reported with its index and its step: those of the
/// first such spike, by step and then by place.
pub proof fn law_first_bad_spike(activity: &SpikeActivity, n: usize, t: int, j: int)
    requires
        0 < n <= activity.potentials@.len(),
        0 <= t < activity.spike_train@.len(),
        0 <= j < activity.spike_train@[t]@.len(),
        activity.spike_train@[t]@[j] >= n,
        forall|i: int| 0 <= i < j ==> #[trigger] activity.spike_train@[t]@[i] < n,
        forall|s: int, i: int|
            0 <= s < t && 0 <= i < activity.spike_train@[s]@.len()
                ==> #[trigger] activity.spike_train@[s]@[i] < n,
    ensures
        activity_error(activity, n) == Some(
            error::ErrorView::InvalidConfig(
                "spike_activity_features: spike index "@ + text::decimal(
                    activity.spike_train@[t]@[j] as nat,
                ) + " out of range at step "@ + text::decimal(t as nat) + " (n_neurons="@
                    + text::decimal(n as nat) + ")"@,
            ),
        ),
{
    let train = activity.spike_train@;
    assert(traits::out_of_range_at(train[t]@, n, j));
    traits::lemma_out_of_range(train[t]@, n, j);
    assert(bad_step_at(train, n, t));
    lemma_bad_step(train, n, t);
}

/// Where all spikes are in range, the first potential that is infinite or NaN is
/// reported with its index.
pub proof fn law_first_bad_potential(activity: &SpikeActivity, n: usize, i: int)
    requires
        0 <= i < n <= activity.potentials@.len(),
        forall|t: int, j: int|
            0 <= t < activity.spike_train@.len() && 0 <= j < activity.spike_train@[t]@.len()
                ==> #[trigger] activity.spike_train@[t]@[j] < n,
        !activity.potentials@[i].finite(),
        forall|k: int| 0 <= k < i ==> (#[trigger] activity.potentials@[k]).finite(),
    ensures
        activity_error(activity, n) == Some(
            error::ErrorView::InvalidConfig(
                "spike_activity_features: non-finite membrane potential at index "@
                    + text::decimal(i as nat),
            ),
        ),
{
    let first = activity.potentials@.take(n as int);
    assert(first[i] == activity.potentials@[i]);
    assert(validate::non_finite_at(first, i));
    validate::lemma_non_finite_at(first, i);
    assert(train_in_range(activity.spike_train@, n));
}

/// Where block `i` begins, and how long it is: a number is before its beginning
/// exactly where as many numbers as lead up to it fill no more than `i` blocks,
/// and its length is the even share, or one more.
pub proof fn law_blocks_are_even(i: int, len: int, target: int, j: int)
    requires
        0 <= i < target < len,
        0 <= j < len,
    ensures
        j < block_start(i, len, target) <==> target * (j + 1) <= i * len,
        len / target <= block_start(i + 1, len, target) - block_start(i, len, target) <= len
            / target + 1,
{
    let x = i * len;
    let s = x / target;
    let share = len / target;
    assert(block_start(i, len, target) == s);
    assert(target * s <= x < target * (s + 1)) by (nonlinear_arith)
        requires
            s == x / target,
            target > 0,
    ;
    if j < s {
        assert(target * (j + 1) <= target * s) by (nonlinear_arith)
            requires
                j + 1 <= s,
                target > 0,
        ;
    } else {
        assert(target * (s + 1) <= target * (j + 1)) by (nonlinear_arith)
            requires
                s <= j,
                target > 0,
        ;
    }
    let e = (x + len) / target;
    assert((i + 1) * len == x + len) by (nonlinear_arith)
        requires
            x == i * len,
    ;
    assert(block_start(i + 1, len, target) == e);
    assert(target * e <= x + len < target * (e + 1)) by (nonlinear_arith)
        requires
            e == (x + len) / target,
            target > 0,
    ;
    assert(target * share <= len < target * (share + 1)) by (nonlinear_arith)
        requires
            share == len / target,
            target > 0,
    ;
    assert(share <= e - s <= share + 1) by (nonlinear_arith)
        requires
            target > 0,
            target * s <= x < target * (s + 1),
            target * e <= x + len < target * (e + 1),
            target * share <= len < target * (share + 1),
    ;
}

/// A downsized source has the mean of each block: the host's sum of the numbers
/// from `start` up to `end` over its number for how many those are, where `start`
/// and `end` are `i` and `i + 1` parts of the source, rounded down. Handed back
/// are the sum and that number.
pub proof fn law_resize_averages<M: Arithmetic>(
    src: Seq<Scalar>,
    target: nat,
    out: Seq<Scalar>,
    i: int,
    start: int,
    end: int,
) -> (r: (Scalar, Scalar))
    requires
        resizes::<M>(src, target, out),
        0 <= i < target < src.len() <= usize::MAX,
        target * start <= i * src.len() < target * (start + 1),
        target * end <= (i + 1) * src.len() < target * (end + 1),
    ensures
        out.len() == target,
        0 <= start < end <= src.len(),
        arithmetic::sums_to::<M>(src.subrange(start, end), r.0),
        call_ensures(M::count, ((end - start) as usize,), r.1),
        call_ensures(M::divide, r, out[i]),
{
    let len = src.len() as int;
    let x = i * len;
    let y = (i + 1) * len;
    assert(start == x / (target as int)) by (nonlinear_arith)
        requires
            target * start <= x < target * (start + 1),
            target > 0,
    ;
    assert(end == y / (target as int)) by (nonlinear_arith)
        requires
            target * end <= y < target * (end + 1),
            target > 0,
    ;
    lemma_block_bounds(i, len, target as int);
    let block = src.subrange(start, end);
    assert(averages::<M>(block, out[i]));
    let (s, c) = choose|s: Scalar, c: Scalar|
        arithmetic::sums_to::<M>(block, s) && arithmetic::counts::<M>(block.len() as usize, c)
            && #[trigger] arithmetic::divides::<M>(s, c, out[i]);
    assert(arithmetic::divides::<M>(s, c, out[i]));
    (s, c)
}

/// A source that is not downsized stays as it is, with zeros behind it.
pub proof fn law_resize_pads<M: Arithmetic>(src: Seq<Scalar>, target: nat, out: Seq<Scalar>)
    requires
        resizes::<M>(src, target, out),
        src.len() <= target,
    ensures
        out.len() == target,
        out.take(src.len() as int) == src,
        forall|i: int| src.len() <= i < target ==> (#[trigger] out[i]).bits == 0,
        src.len() == target ==> out == src,
{
    assert(out.take(src.len() as int) =~= src);
    if src.len() == target {
        assert(out =~= src);
    }
}

/// The mean of a column is the host's sum of it times the host's inverse of the
/// number of rows. Handed back are the sum and the inverse.
pub proof fn law_column_mean<M: Arithmetic>(
    values: Seq<Scalar>,
    rows: usize,
    width: int,
    take: nat,
    out: Seq<Scalar>,
    i: int,
) -> (r: (Scalar, Scalar))
    requires
        column_means::<M>(values, rows, width, take, out),
        0 <= i < take,
    ensures
        arithmetic::sums_to::<M>(Seq::new(rows as nat, |t: int| values[t * width + i]), r.0),
        arithmetic::inverts::<M>(rows, r.1),
        call_ensures(M::multiply, r, out[i]),
{
    let inv = choose|inv: Scalar|
        {
            &&& #[trigger] arithmetic::inverts::<M>(rows, inv)
            &&& forall|i: int|
                0 <= i < take ==> scaled_sum::<M>(
                    column(values, width, rows as nat, i),
                    inv,
                    #[trigger] out[i],
                )
        };
    let xs = column(values, width, rows as nat, i);
    assert(scaled_sum::<M>(xs, inv, out[i]));
    let s = choose|s: Scalar| #[trigger]
        arithmetic::sums_to::<M>(xs, s) && arithmetic::multiplies::<M>(s, inv, out[i]);
    assert(xs =~= Seq::new(rows as nat, |t: int| values[t * width + i]));
    assert(arithmetic::multiplies::<M>(s, inv, out[i]));
    (s, inv)
}

/// Pooling a matrix gives, for each column, the host's sum of its entries, one
/// per row, times the host's quotient of one by its number for the rows. Handed
/// back are the sum, that number and the quotient.
pub proof fn law_pooling_averages_rows<M: Arithmetic>(
    tensor: &Tensor,
    out: Seq<Scalar>,
    i: int,
) -> (r: (Scalar, Scalar, Scalar))
    requires
        mean_pools::<M>(tensor, out),
        tensor.extents().len() == 2,
        0 < tensor.extents()[0],
        0 <= i < tensor.extents()[1],
    ensures
        out.len() == tensor.extents()[1],
        arithmetic::sums_to::<M>(
            Seq::new(
                tensor.extents()[0] as nat,
                |t: int| tensor.values()[t * tensor.extents()[1] + i],
            ),
            r.0,
        ),
        call_ensures(M::count, (tensor.extents()[0],), r.1),
        call_ensures(M::divide, (Scalar { bits: 0x3f80_0000 }, r.1), r.2),
        call_ensures(M::multiply, (r.0, r.2), out[i]),
{
    let rows = tensor.extents()[0];
    let width = tensor.extents()[1];
    let (s, inv) = law_column_mean::<M>(
        tensor.values(),
        rows,
        width as int,
        width as nat,
        out,
        i,
    );
    arithmetic::law_inverse::<M>(rows, inv);
    let c = choose|c: Scalar|
        call_ensures(M::count, (rows,), c) && #[trigger] call_ensures(
            M::divide,
            (Scalar { bits: 0x3f80_0000 }, c),
            inv,
        );
    assert(Seq::new(rows as nat, |t: int| tensor.values()[t * (width as int) + i]) =~= Seq::new(
        rows as nat,
        |t: int| tensor.values()[t * tensor.extents()[1] + i],
    ));
    (s, c, inv)
}

/// A tensor that is no matrix is pooled to its own numbers.
pub proof fn law_pooling_keeps_other_ranks<M: Arithmetic>(tensor: &Tensor, out: Seq<Scalar>)
    requires
        mean_pools::<M>(tensor, out),
        tensor.extents().len() != 2,
    ensures
        out == tensor.values(),
{
}

/// Stimuli are pooled numbers, resized where a width is asked for, of which the
/// host then takes the hyperbolic tangent, one by one. Handed back are the
/// numbers before that.
pub proof fn law_stimuli_are_squashed_last<M: Arithmetic>(
    tensor: &Tensor,
    width: nat,
    stimuli: Seq<Scalar>,
) -> (r: (Seq<Scalar>, Seq<Scalar>))
    requires
        stimulates_width::<M>(tensor, width, stimuli),
    ensures
        mean_pools::<M>(tensor, r.0),
        resizes::<M>(r.0, width, r.1),
        stimuli.len() == width,
        forall|i: int|
            0 <= i < stimuli.len() ==> call_ensures(M::tanh, (r.1[i],), #[trigger] stimuli[i]),
{
    let pooled = choose|pooled: Seq<Scalar>| #[trigger]
        mean_pools::<M>(tensor, pooled) && fits::<M>(pooled, width, stimuli);
    let resized = choose|resized: Seq<Scalar>| #[trigger]
        resizes::<M>(pooled, width, resized) && squashed::<M>(resized, stimuli);
    assert forall|i: int| 0 <= i < stimuli.len() implies call_ensures(
        M::tanh,
        (resized[i],),
        #[trigger] stimuli[i],
    ) by {
        assert(arithmetic::squashes::<M>(resized[i], stimuli[i]));
    }
    (pooled, resized)
}

/// Stimuli without a width of their own are those for the width of the pooled
/// tensor.
pub proof fn law_stimuli_of_own_width<M: Arithmetic>(tensor: &Tensor, stimuli: Seq<Scalar>)
    ensures
        stimulates::<M>(tensor, stimuli) ==> stimulates_width::<M>(tensor, stimuli.len(), stimuli),
{
    if stimulates::<M>(tensor, stimuli) {
        let pooled = choose|pooled: Seq<Scalar>| #[trigger]
            mean_pools::<M>(tensor, pooled) && squashed::<M>(pooled, stimuli);
        assert(pooled + Seq::new(0, |i: int| scalar::scalar(0)) =~= pooled);
        assert(resizes::<M>(pooled, stimuli.len(), pooled));
        assert(fits::<M>(pooled, stimuli.len(), stimuli));
    }
}

/// A projection is the features, resized, of which the host then takes the
/// hyperbolic tangent, one by one. Handed back are the features and the numbers
/// before that.
pub proof fn law_projection_is_squashed_last<M: Arithmetic>(
    mode: ProjectionMode,
    activity: &SpikeActivity,
    n: usize,
    embed_dim: usize,
    embedding: Seq<Scalar>,
) -> (r: (Seq<Scalar>, Seq<Scalar>))
    requires
        projection_outcome::<M>(mode, activity, n, embed_dim, Ok(embedding)),
    ensures
        embed_dim > 0,
        features_outcome::<M>(mode, activity, n, Ok(r.0)),
        resizes::<M>(r.0, embed_dim as nat, r.1),
        embedding.len() == embed_dim,
        forall|i: int|
            0 <= i < embedding.len() ==> call_ensures(M::tanh, (r.1[i],), #[trigger] embedding[i]),
{
    let features = choose|features: Seq<Scalar>| #[trigger]
        featured::<M>(mode, activity, n, features) && features.len() <= usize::MAX && fits::<M>(
            features,
            embed_dim as nat,
            embedding,
        );
    let resized = choose|resized: Seq<Scalar>| #[trigger]
        resizes::<M>(features, embed_dim as nat, resized) && squashed::<M>(resized, embedding);
    assert forall|i: int| 0 <= i < embedding.len() implies call_ensures(
        M::tanh,
        (resized[i],),
        #[trigger] embedding[i],
    ) by {
        assert(arithmetic::squashes::<M>(resized[i], embedding[i]));
    }
    (features, resized)
}

/// A projection fails exactly where no numbers are asked for or the activity is
/// not taken, with the activity's own error where numbers are asked for.
pub proof fn law_projection_errors<M: Arithmetic>(
    mode: ProjectionMode,
    activity: &SpikeActivity,
    n: usize,
    embed_dim: usize,
    outcome: Result<Seq<Scalar>, error::ErrorView>,
    features: Result<Seq<Scalar>, error::ErrorView>,
)
    requires
        projection_outcome::<M>(mode, activity, n, embed_dim, outcome),
        features_outcome::<M>(mode, activity, n, features),
    ensures
        embed_dim == 0 ==> outcome == Err::<Seq<Scalar>, error::ErrorView>(
            error::ErrorView::InvalidConfig("project_spike_activity: embed_dim must be > 0"@),
        ),
        embed_dim > 0 ==> (outcome is Ok <==> features is Ok),
        embed_dim > 0 && features is Err ==> outcome == features,
{
}

/// What an activity comes to are its features where nothing is wrong with it,
/// and else what is.
pub proof fn law_features_or_error<M: Arithmetic>(
    mode: ProjectionMode,
    activity: &SpikeActivity,
    n: usize,
    outcome: Result<Seq<Scalar>, error::ErrorView>,
)
    requires
        features_outcome::<M>(mode, activity, n, outcome),
    ensures
        match outcome {
            Ok(features) => activity_error(activity, n) is None && featured::<M>(
                mode,
                activity,
                n,
                features,
            ),
            Err(e) => activity_error(activity, n) == Some(e),
        },
{
}

/// The view of numbers are those numbers, and that of an error is the error's.
pub proof fn law_numbers_view(r: Result<Vec<Scalar>, HybridError>)
    ensures
        r is Ok ==> numbers_view(r) == Ok::<Seq<Scalar>, error::ErrorView>(r->Ok_0@),
        r is Err ==> numbers_view(r) == Err::<Seq<Scalar>, error::ErrorView>(r->Err_0@),
{
}

} // verus!
