//! The reverse path: spike activity to an embedding to a mixture-of-experts
//! route.

use crate::arithmetic;
use crate::arithmetic::Arithmetic;
use crate::error;
use crate::error::HybridError;
use crate::hybrid;
use crate::projector;
use crate::scalar;
use crate::scalar::{Scalar, Wide};
use crate::text;
use crate::traits::{ExpertRouteOutput, ExpertRouter, SpikeActivity};
use crate::types::{HybridOutput, ProjectionMode};
use crate::validate;
use vstd::arithmetic::power2::pow2;
use vstd::prelude::*;

verus! {

/// How far the sum of a router's weights may lie from one, as a binary64
/// pattern: `2^-20`, eight times the spacing of binary32 numbers above one.
///
/// Weights that are each rounded once to binary32 add up to one within
/// `2^-24`, whatever their number, if their normalizer was accumulated wide.
/// The tolerance leaves room for that and no more.
pub const WEIGHT_SUM_TOLERANCE: u64 = 0x3eb0_0000_0000_0000;

/// The smallest accepted sum: `1 - 2^-20`.
const LEAST_SUM: u64 = 0x3fef_fffe_0000_0000;

/// The largest accepted sum: `1 + 2^-20`.
const GREATEST_SUM: u64 = 0x3ff0_0001_0000_0000;

/// The sum lies within the tolerance of one.
pub open spec fn within_tolerance(sum: Wide) -> bool {
    let one = scalar::wide_value(scalar::WIDE_ONE_BITS);
    let tolerance = scalar::wide_value(WEIGHT_SUM_TOLERANCE);
    &&& sum.bits < scalar::WIDE_INFINITY_BITS
    &&& one - tolerance <= scalar::wide_value(sum.bits) <= one + tolerance
}

/// Multiples of a positive number compare as their factors.
proof fn lemma_compare_multiples(a: int, b: int, p: int)
    by (nonlinear_arith)
    requires
        p > 0,
    ensures
        a * p <= b * p <==> a <= b,
{
}

/// The accepted sums are a range of patterns.
proof fn lemma_tolerance_is_a_range(sum: Wide)
    ensures
        within_tolerance(sum) <==> LEAST_SUM <= sum.bits <= GREATEST_SUM,
{
    let unit = 0x10_0000_0000_0000int;
    let exponent = sum.bits as int / unit;
    let fraction = sum.bits as int % unit;
    // In units of `p` one is 2^72 and the tolerance 2^52.
    let p = pow2(1002) as int;
    let one = 0x100_0000_0000_0000_0000int;
    let value = scalar::wide_value(sum.bits);
    vstd::arithmetic::power2::lemma_pow2_pos(1002);
    vstd::arithmetic::power2::lemma2_to64();
    vstd::arithmetic::power2::lemma_pow2_adds(1002, 18);
    vstd::arithmetic::power2::lemma_pow2_adds(1002, 19);
    vstd::arithmetic::power2::lemma_pow2_adds(1002, 20);
    vstd::arithmetic::power2::lemma_pow2_adds(1002, 21);
    assert(scalar::wide_value(WEIGHT_SUM_TOLERANCE) == unit * p);
    assert(scalar::wide_value(scalar::WIDE_ONE_BITS) == one * p) by {
        assert(unit * (0x10_0000 * p) == one * p) by (nonlinear_arith)
            requires
                unit == 0x10_0000_0000_0000,
                one == 0x100_0000_0000_0000_0000,
        ;
    }
    assert(one * p - unit * p == (one - unit) * p) by (nonlinear_arith);
    assert(one * p + unit * p == (one + unit) * p) by (nonlinear_arith);
    if exponent == 1023 {
        let factor = (unit + fraction) * 0x10_0000;
        assert(value == factor * p) by {
            assert((unit + fraction) * (0x10_0000 * p) == ((unit + fraction) * 0x10_0000) * p)
                by (nonlinear_arith);
        }
        lemma_compare_multiples(factor, one + unit, p);
        lemma_compare_multiples(one - unit, factor, p);
    } else if exponent == 1022 {
        let factor = (unit + fraction) * 0x8_0000;
        assert(value == factor * p) by {
            assert((unit + fraction) * (0x8_0000 * p) == ((unit + fraction) * 0x8_0000) * p)
                by (nonlinear_arith);
        }
        lemma_compare_multiples(factor, one + unit, p);
        lemma_compare_multiples(one - unit, factor, p);
    } else if exponent > 1023 {
        if exponent > 1024 {
            vstd::arithmetic::power2::lemma_pow2_strictly_increases(1023, (exponent - 1) as nat);
        }
        let power = pow2((exponent - 1) as nat) as int;
        assert(value == (unit + fraction) * power);
        assert((unit + fraction) * power > (one + unit) * p) by (nonlinear_arith)
            requires
                power >= 0x20_0000 * p,
                p > 0,
                unit == 0x10_0000_0000_0000,
                one == 0x100_0000_0000_0000_0000,
                fraction >= 0,
        ;
    } else if exponent > 0 {
        if exponent < 1021 {
            vstd::arithmetic::power2::lemma_pow2_strictly_increases((exponent - 1) as nat, 1020);
        }
        let power = pow2((exponent - 1) as nat) as int;
        assert(value == (unit + fraction) * power);
        vstd::arithmetic::power2::lemma_pow2_pos((exponent - 1) as nat);
        assert((unit + fraction) * power < (one - unit) * p) by (nonlinear_arith)
            requires
                0 < power <= 0x4_0000 * p,
                p > 0,
                unit == 0x10_0000_0000_0000,
                one == 0x100_0000_0000_0000_0000,
                0 <= fraction < unit,
        ;
    } else {
        assert(value == fraction);
        assert(fraction < (one - unit) * p) by (nonlinear_arith)
            requires
                p > 0,
                unit == 0x10_0000_0000_0000,
                one == 0x100_0000_0000_0000_0000,
                0 <= fraction < unit,
        ;
    }
}

/// Every weight is finite and not negative.
pub open spec fn all_weights(weights: Seq<Scalar>) -> bool {
    forall|i: int| 0 <= i < weights.len() ==> (#[trigger] weights[i]).finite_nonnegative()
}

/// What is wrong with the sizes and the single weights of a route.
pub open spec fn weights_error(n_experts: usize, top_k: usize, weights: Seq<Scalar>) -> Option<
    error::ErrorView,
> {
    if n_experts == 0 || top_k == 0 || top_k > n_experts {
        Some(
            error::ErrorView::InvalidConfig(
                "ReverseHybridPath: router reports invalid num_experts="@ + text::decimal(
                    n_experts as nat,
                ) + " / top_k="@ + text::decimal(top_k as nat),
            ),
        )
    } else if weights.len() != n_experts {
        Some(
            error::ErrorView::InvalidConfig(
                "ReverseHybridPath: expert_weights.len() ("@ + text::decimal(weights.len())
                    + ") != num_experts ("@ + text::decimal(n_experts as nat) + ")"@,
            ),
        )
    } else if !all_weights(weights) {
        Some(
            error::ErrorView::InvalidConfig(
                "ReverseHybridPath: expert_weights contain non-finite or negative values"@,
            ),
        )
    } else {
        None
    }
}

/// `found` is what is wrong with the sum of a route's weights.
pub open spec fn sum_check<M: Arithmetic>(sum: Wide, found: Option<error::ErrorView>) -> bool {
    if sum.zero() {
        found == Some(
            error::ErrorView::InvalidConfig("ReverseHybridPath: expert_weights are all zero"@),
        )
    } else if !within_tolerance(sum) {
        exists|shown: String|
            #[trigger] call_ensures(M::wide_text, (sum,), shown) && found == Some(
                error::ErrorView::InvalidConfig(
                    "ReverseHybridPath: expert_weights sum "@ + shown@
                        + " is outside tolerance 0.00000095367431640625 of 1.0; routers with many experts must accumulate their softmax denominator in f64 (see ExpertRouteOutput docs)"@,
                ),
            )
    } else {
        found is None
    }
}

/// The selected expert at `p` does not exist, or was selected before.
pub open spec fn flawed(selected: Seq<usize>, n_experts: usize, p: int) -> bool {
    selected[p] >= n_experts || selected.take(p).contains(selected[p])
}

/// The first flaw of a selection stands at `p`.
pub open spec fn flawed_at(selected: Seq<usize>, n_experts: usize, p: int) -> bool {
    &&& 0 <= p < selected.len()
    &&& flawed(selected, n_experts, p)
    &&& forall|q: int| 0 <= q < p ==> !#[trigger] flawed(selected, n_experts, q)
}

/// What is wrong with the selected expert at `p`.
pub open spec fn flaw(selected: Seq<usize>, n_experts: usize, p: int) -> error::ErrorView {
    if selected[p] >= n_experts {
        error::ErrorView::InvalidConfig(
            "ReverseHybridPath: selected expert index "@ + text::decimal(selected[p] as nat)
                + " >= num_experts ("@ + text::decimal(n_experts as nat) + ")"@,
        )
    } else {
        error::ErrorView::InvalidConfig(
            "ReverseHybridPath: selected_experts contains duplicate indices"@,
        )
    }
}

/// What is wrong with a selection.
pub open spec fn selection_error(selected: Seq<usize>, n_experts: usize, top_k: usize) -> Option<
    error::ErrorView,
> {
    if selected.len() != top_k {
        Some(
            error::ErrorView::InvalidConfig(
                "ReverseHybridPath: selected_experts.len() ("@ + text::decimal(selected.len())
                    + ") != top_k ("@ + text::decimal(top_k as nat) + ")"@,
            ),
        )
    } else if exists|p: int| flawed_at(selected, n_experts, p) {
        Some(flaw(selected, n_experts, choose|p: int| flawed_at(selected, n_experts, p)))
    } else {
        None
    }
}

/// `r` is `w` times `scale`, in wide arithmetic.
pub open spec fn rescales<M: Arithmetic>(w: Scalar, scale: Wide, r: Scalar) -> bool {
    exists|x: Wide, y: Wide|
        arithmetic::widens::<M>(w, x) && #[trigger] arithmetic::wide_multiplies::<M>(x, scale, y)
            && arithmetic::narrows::<M>(y, r)
}

/// `out` holds the weights times one over `sum`.
pub open spec fn renormalized<M: Arithmetic>(
    weights: Seq<Scalar>,
    sum: Wide,
    out: Seq<Scalar>,
) -> bool {
    &&& out.len() == weights.len()
    &&& exists|scale: Wide|
        {
            &&& #[trigger] arithmetic::wide_divides::<M>(
                scalar::wide(scalar::WIDE_ONE_BITS),
                sum,
                scale,
            )
            &&& forall|i: int|
                0 <= i < out.len() ==> rescales::<M>(weights[i], scale, #[trigger] out[i])
        }
}

/// `outcome` is what a route comes to: its weights renormalized, or the first
/// thing wrong with it. The weights are examined before the selection.
pub open spec fn accepted<M: Arithmetic>(
    n_experts: usize,
    top_k: usize,
    weights: Seq<Scalar>,
    selected: Seq<usize>,
    outcome: Result<Seq<Scalar>, error::ErrorView>,
) -> bool {
    match weights_error(n_experts, top_k, weights) {
        Some(e) => outcome == Err::<Seq<Scalar>, error::ErrorView>(e),
        None => exists|sum: Wide|
            #[trigger] arithmetic::wide_sums_to::<M>(weights, sum) && summed::<M>(
                n_experts,
                top_k,
                weights,
                selected,
                sum,
                outcome,
            ),
    }
}

/// `outcome` is what a route with the given sum of weights comes to.
pub open spec fn summed<M: Arithmetic>(
    n_experts: usize,
    top_k: usize,
    weights: Seq<Scalar>,
    selected: Seq<usize>,
    sum: Wide,
    outcome: Result<Seq<Scalar>, error::ErrorView>,
) -> bool {
    exists|found: Option<error::ErrorView>|
        #[trigger] sum_check::<M>(sum, found) && match found {
            Some(e) => outcome == Err::<Seq<Scalar>, error::ErrorView>(e),
            None => match selection_error(selected, n_experts, top_k) {
                Some(e) => outcome == Err::<Seq<Scalar>, error::ErrorView>(e),
                None => outcome matches Ok(out) && renormalized::<M>(weights, sum, out),
            },
        }
}

/// Checks the sizes and the single weights of a route.
fn check_weights(n_experts: usize, top_k: usize, weights: &[Scalar]) -> (r: Result<
    (),
    HybridError,
>)
    ensures
        validate::checks(r, weights_error(n_experts, top_k, weights@)),
{
    if n_experts == 0 || top_k == 0 || top_k > n_experts {
        let mut message = text::with_number(
            "ReverseHybridPath: router reports invalid num_experts=",
            n_experts,
            " / top_k=",
        );
        text::push_decimal(&mut message, top_k);
        return Err(HybridError::InvalidConfig(message));
    }
    if weights.len() != n_experts {
        let mut message = text::with_number(
            "ReverseHybridPath: expert_weights.len() (",
            weights.len(),
            ") != num_experts (",
        );
        text::push_decimal(&mut message, n_experts);
        message.append(")");
        return Err(HybridError::InvalidConfig(message));
    }
    let mut i: usize = 0;
    while i < weights.len()
        invariant
            i <= weights@.len(),
            0 < top_k <= n_experts,
            weights@.len() == n_experts,
            forall|k: int| 0 <= k < i ==> (#[trigger] weights@[k]).finite_nonnegative(),
        decreases weights@.len() - i,
    {
        if !weights[i].is_finite() || weights[i].rank() < 0 {
            assert(!weights@[i as int].finite_nonnegative());
            return Err(
                HybridError::InvalidConfig(
                    String::from_str(
                        "ReverseHybridPath: expert_weights contain non-finite or negative values",
                    ),
                ),
            );
        }
        i = i + 1;
    }
    Ok(())
}

/// Checks the sum of a route's weights.
fn check_sum<M: Arithmetic>(sum: Wide) -> (r: Result<(), HybridError>)
    ensures
        sum_check::<M>(
            sum,
            match r {
                Ok(_) => None,
                Err(e) => Some(e@),
            },
        ),
{
    if sum.is_zero() {
        return Err(
            HybridError::InvalidConfig(
                String::from_str("ReverseHybridPath: expert_weights are all zero"),
            ),
        );
    }
    proof {
        lemma_tolerance_is_a_range(sum);
    }
    if sum.bits < LEAST_SUM || sum.bits > GREATEST_SUM {
        let shown = M::wide_text(sum);
        assert(call_ensures(M::wide_text, (sum,), shown));
        let mut message = text::join("ReverseHybridPath: expert_weights sum ", shown.as_str());
        message.append(
            " is outside tolerance 0.00000095367431640625 of 1.0; routers with many experts must accumulate their softmax denominator in f64 (see ExpertRouteOutput docs)",
        );
        return Err(HybridError::InvalidConfig(message));
    }
    Ok(())
}

/// The first flaw is one place.
proof fn lemma_first_flaw(selected: Seq<usize>, n_experts: usize, p: int)
    requires
        flawed_at(selected, n_experts, p),
    ensures
        (choose|q: int| flawed_at(selected, n_experts, q)) == p,
{
    let c = choose|q: int| flawed_at(selected, n_experts, q);
    assert(flawed_at(selected, n_experts, c));
    if c < p {
        assert(!flawed(selected, n_experts, c));
    } else if p < c {
        assert(!flawed(selected, n_experts, p));
    }
}

/// Checks the selection of a route.
fn check_selection(selected: &[usize], n_experts: usize, top_k: usize) -> (r: Result<
    (),
    HybridError,
>)
    ensures
        validate::checks(r, selection_error(selected@, n_experts, top_k)),
{
    if selected.len() != top_k {
        let mut message = text::with_number(
            "ReverseHybridPath: selected_experts.len() (",
            selected.len(),
            ") != top_k (",
        );
        text::push_decimal(&mut message, top_k);
        message.append(")");
        return Err(HybridError::InvalidConfig(message));
    }
    let mut seen = vec![false; n_experts];
    let mut p: usize = 0;
    while p < selected.len()
        invariant
            p <= selected@.len(),
            selected@.len() == top_k,
            seen@.len() == n_experts,
            forall|x: int|
                0 <= x < n_experts ==> #[trigger] seen@[x] == selected@.take(p as int).contains(
                    x as usize,
                ),
            forall|q: int| 0 <= q < p ==> !#[trigger] flawed(selected@, n_experts, q),
        decreases selected@.len() - p,
    {
        let idx: usize = selected[p];
        if idx >= n_experts {
            proof {
                assert(flawed_at(selected@, n_experts, p as int));
                lemma_first_flaw(selected@, n_experts, p as int);
            }
            let mut message = text::with_number(
                "ReverseHybridPath: selected expert index ",
                idx,
                " >= num_experts (",
            );
            text::push_decimal(&mut message, n_experts);
            message.append(")");
            return Err(HybridError::InvalidConfig(message));
        }
        if seen[idx] {
            proof {
                assert(flawed_at(selected@, n_experts, p as int));
                lemma_first_flaw(selected@, n_experts, p as int);
            }
            return Err(
                HybridError::InvalidConfig(
                    String::from_str(
                        "ReverseHybridPath: selected_experts contains duplicate indices",
                    ),
                ),
            );
        }
        seen.set(idx, true);
        proof {
            let before = selected@.take(p as int);
            let after = selected@.take(p + 1);
            assert(after =~= before.push(idx));
            assert forall|x: int| 0 <= x < n_experts implies #[trigger] seen@[x] == after.contains(
                x as usize,
            ) by {
                if x == idx {
                    assert(after[p as int] == idx);
                } else {
                    if before.contains(x as usize) {
                        let at = choose|at: int| 0 <= at < before.len() && before[at] == x as usize;
                        assert(after[at] == x as usize);
                    }
                    if after.contains(x as usize) {
                        let at = choose|at: int| 0 <= at < after.len() && after[at] == x as usize;
                        assert(before[at] == x as usize);
                    }
                }
            }
        }
        p = p + 1;
    }
    Ok(())
}

/// The weights times one over their sum.
fn renormalize<M: Arithmetic>(weights: &[Scalar], sum: Wide) -> (r: Vec<Scalar>)
    ensures
        renormalized::<M>(weights@, sum, r@),
{
    let scale = M::wide_divide(Wide { bits: scalar::WIDE_ONE_BITS }, sum);
    assert(arithmetic::wide_divides::<M>(scalar::wide(scalar::WIDE_ONE_BITS), sum, scale));
    let mut out: Vec<Scalar> = Vec::new();
    let mut i: usize = 0;
    while i < weights.len()
        invariant
            i <= weights@.len(),
            out@.len() == i,
            forall|k: int| 0 <= k < i ==> rescales::<M>(weights@[k], scale, #[trigger] out@[k]),
        decreases weights@.len() - i,
    {
        let x = M::widen(weights[i]);
        let y = M::wide_multiply(x, scale);
        let w = M::narrow(y);
        assert(arithmetic::wide_multiplies::<M>(x, scale, y));
        out.push(w);
        i = i + 1;
    }
    out
}

/// Checks what a router of `n_experts` experts that selects `top_k` of them
/// returned, and gives the weights rescaled to sum to one. A sum outside the
/// tolerance is an error and never rescaled.
pub fn check_route<M: Arithmetic>(
    n_experts: usize,
    top_k: usize,
    route: &ExpertRouteOutput,
) -> (r: Result<Vec<Scalar>, HybridError>)
    ensures
        accepted::<M>(
            n_experts,
            top_k,
            route.expert_weights@,
            route.selected_experts@,
            projector::numbers_view(r),
        ),
{
    match check_weights(n_experts, top_k, route.expert_weights.as_slice()) {
        Err(e) => {
            return Err(e);
        },
        Ok(()) => {},
    }
    let sum = arithmetic::wide_sum::<M>(route.expert_weights.as_slice());
    assert(arithmetic::wide_sums_to::<M>(route.expert_weights@, sum));
    match check_sum::<M>(sum) {
        Err(e) => {
            assert(sum_check::<M>(sum, Some(e@)));
            return Err(e);
        },
        Ok(()) => {},
    }
    assert(sum_check::<M>(sum, None));
    match check_selection(route.selected_experts.as_slice(), n_experts, top_k) {
        Err(e) => {
            return Err(e);
        },
        Ok(()) => {},
    }
    let out = renormalize::<M>(route.expert_weights.as_slice(), sum);
    assert(summed::<M>(
        n_experts,
        top_k,
        route.expert_weights@,
        route.selected_experts@,
        sum,
        Ok(out@),
    ));
    Ok(out)
}

/// A route that is accepted meets the router contract: one finite weight that
/// is not negative per expert, as many experts selected as asked for, and all
/// of them distinct and existing. The weights that come out are as many.
pub proof fn law_accepted_route<M: Arithmetic>(
    n_experts: usize,
    top_k: usize,
    weights: Seq<Scalar>,
    selected: Seq<usize>,
    out: Seq<Scalar>,
)
    requires
        accepted::<M>(n_experts, top_k, weights, selected, Ok(out)),
    ensures
        1 <= top_k <= n_experts,
        weights.len() == n_experts,
        out.len() == n_experts,
        all_weights(weights),
        exists|sum: Wide|
            #[trigger] arithmetic::wide_sums_to::<M>(weights, sum) && within_tolerance(sum)
                && renormalized::<M>(weights, sum, out),
        selected.len() == top_k,
        selected.no_duplicates(),
        forall|p: int| 0 <= p < selected.len() ==> #[trigger] selected[p] < n_experts,
{
    law_selection_passes(selected, n_experts, top_k);
}

/// A selection passes exactly where it has as many experts as asked for, all
/// of them distinct and existing.
pub proof fn law_selection_passes(selected: Seq<usize>, n_experts: usize, top_k: usize)
    ensures
        selection_error(selected, n_experts, top_k) is None <==> {
            &&& selected.len() == top_k
            &&& selected.no_duplicates()
            &&& forall|p: int| 0 <= p < selected.len() ==> #[trigger] selected[p] < n_experts
        },
{
    if selection_error(selected, n_experts, top_k) is None {
        assert forall|p: int| 0 <= p < selected.len() implies !#[trigger] flawed(
            selected,
            n_experts,
            p,
        ) by {
            lemma_flaw_is_found(selected, n_experts, p);
        }
        assert forall|p: int| 0 <= p < selected.len() implies #[trigger] selected[p]
            < n_experts by {
            assert(!flawed(selected, n_experts, p));
        }
        assert forall|p: int, q: int|
            0 <= p < selected.len() && 0 <= q < selected.len() && p != q implies selected[p]
            != selected[q] by {
            assert(!flawed(selected, n_experts, p));
            assert(!flawed(selected, n_experts, q));
            if p < q {
                assert(selected.take(q)[p] == selected[p]);
            } else {
                assert(selected.take(p)[q] == selected[q]);
            }
        }
    } else if selected.len() == top_k {
        let p = choose|p: int| flawed_at(selected, n_experts, p);
        assert(flawed_at(selected, n_experts, p));
        if selected[p] < n_experts {
            let earlier = selected.take(p);
            let q = choose|q: int| 0 <= q < earlier.len() && earlier[q] == selected[p];
            assert(selected[q] == selected[p]);
        }
    }
}

/// A selection without a first flaw has none.
proof fn lemma_flaw_is_found(selected: Seq<usize>, n_experts: usize, p: int)
    requires
        0 <= p < selected.len(),
        forall|q: int| !flawed_at(selected, n_experts, q),
    ensures
        !flawed(selected, n_experts, p),
    decreases p,
{
    assert forall|q: int| 0 <= q < p implies !#[trigger] flawed(selected, n_experts, q) by {
        lemma_flaw_is_found(selected, n_experts, q);
    }
    assert(!flawed_at(selected, n_experts, p));
}

/// The host divides one by one and multiplies by one exactly, and a finite
/// number survives being widened and narrowed.
pub open spec fn exact_by_one<M: Arithmetic>() -> bool {
    let one = scalar::wide(scalar::WIDE_ONE_BITS);
    &&& forall|r: Wide| #[trigger] arithmetic::wide_divides::<M>(one, one, r) ==> r == one
    &&& forall|w: Scalar, x: Wide, y: Wide, r: Scalar|
        #![trigger
            arithmetic::widens::<M>(w, x),
            arithmetic::wide_multiplies::<M>(x, one, y),
            arithmetic::narrows::<M>(y, r)]
        w.finite() && arithmetic::widens::<M>(w, x) && arithmetic::wide_multiplies::<M>(x, one, y)
            && arithmetic::narrows::<M>(y, r) ==> r == w
}

/// Weights that sum to one come out as they are.
pub proof fn law_unit_sum_is_kept<M: Arithmetic>(weights: Seq<Scalar>, out: Seq<Scalar>)
    requires
        exact_by_one::<M>(),
        all_weights(weights),
        renormalized::<M>(weights, scalar::wide(scalar::WIDE_ONE_BITS), out),
    ensures
        out == weights,
{
    let one = scalar::wide(scalar::WIDE_ONE_BITS);
    let scale = choose|scale: Wide|
        {
            &&& #[trigger] arithmetic::wide_divides::<M>(one, one, scale)
            &&& forall|i: int|
                0 <= i < out.len() ==> rescales::<M>(weights[i], scale, #[trigger] out[i])
        };
    assert forall|i: int| 0 <= i < out.len() implies out[i] == weights[i] by {
        assert(rescales::<M>(weights[i], scale, out[i]));
        assert(weights[i].finite_nonnegative());
    }
    assert(out =~= weights);
}

/// On a deterministic host a route is accepted or not, and an accepted one
/// comes out with one set of weights.
pub proof fn law_acceptance_is_unique<M: Arithmetic>(
    n_experts: usize,
    top_k: usize,
    weights: Seq<Scalar>,
    selected: Seq<usize>,
    a: Result<Seq<Scalar>, error::ErrorView>,
    b: Result<Seq<Scalar>, error::ErrorView>,
)
    requires
        arithmetic::deterministic::<M>(),
        accepted::<M>(n_experts, top_k, weights, selected, a),
        accepted::<M>(n_experts, top_k, weights, selected, b),
    ensures
        a is Ok <==> b is Ok,
        a is Ok ==> a == b,
{
    if weights_error(n_experts, top_k, weights) is None {
        let sa = choose|sum: Wide| #[trigger]
            arithmetic::wide_sums_to::<M>(weights, sum) && summed::<M>(
                n_experts,
                top_k,
                weights,
                selected,
                sum,
                a,
            );
        let sb = choose|sum: Wide| #[trigger]
            arithmetic::wide_sums_to::<M>(weights, sum) && summed::<M>(
                n_experts,
                top_k,
                weights,
                selected,
                sum,
                b,
            );
        arithmetic::law_wide_sum_is_unique::<M>(weights, sa, sb);
        if a is Ok && b is Ok {
            lemma_renormalized_is_unique::<M>(weights, sa, a->Ok_0, b->Ok_0);
        }
    }
}

/// On a deterministic host weights are renormalized in one way.
proof fn lemma_renormalized_is_unique<M: Arithmetic>(
    weights: Seq<Scalar>,
    sum: Wide,
    a: Seq<Scalar>,
    b: Seq<Scalar>,
)
    requires
        arithmetic::deterministic::<M>(),
        renormalized::<M>(weights, sum, a),
        renormalized::<M>(weights, sum, b),
    ensures
        a == b,
{
    let one = scalar::wide(scalar::WIDE_ONE_BITS);
    let scale = choose|scale: Wide|
        {
            &&& #[trigger] arithmetic::wide_divides::<M>(one, sum, scale)
            &&& forall|i: int|
                0 <= i < a.len() ==> rescales::<M>(weights[i], scale, #[trigger] a[i])
        };
    let other = choose|scale: Wide|
        {
            &&& #[trigger] arithmetic::wide_divides::<M>(one, sum, scale)
            &&& forall|i: int|
                0 <= i < b.len() ==> rescales::<M>(weights[i], scale, #[trigger] b[i])
        };
    assert(scale == other);
    assert forall|i: int| 0 <= i < a.len() implies a[i] == b[i] by {
        assert(rescales::<M>(weights[i], scale, a[i]));
        assert(rescales::<M>(weights[i], scale, b[i]));
    }
    assert(a =~= b);
}

/// The neurons of the last step in which any fired.
pub open spec fn last_active(train: Seq<Vec<usize>>) -> Seq<usize>
    decreases train.len(),
{
    if train.len() == 0 {
        Seq::empty()
    } else if train.last()@.len() > 0 {
        train.last()@
    } else {
        last_active(train.drop_last())
    }
}

/// The neurons of the last step in which any fired; none where there is no
/// such step.
pub fn last_fired(spike_train: &[Vec<usize>]) -> (r: Vec<usize>)
    ensures
        r@ == last_active(spike_train@),
{
    let mut t: usize = spike_train.len();
    assert(spike_train@.take(t as int) =~= spike_train@);
    while t > 0
        invariant
            t <= spike_train@.len(),
            last_active(spike_train@) == last_active(spike_train@.take(t as int)),
        decreases t,
    {
        let step = &spike_train[t - 1];
        assert(spike_train@.take(t as int).last() == spike_train@[t - 1]);
        if step.len() > 0 {
            return vstd::slice::slice_to_vec(step.as_slice());
        }
        assert(spike_train@.take(t as int).drop_last() =~= spike_train@.take(t - 1));
        t = t - 1;
    }
    Vec::new()
}

/// A step in which neurons fired is the last active one where no later step
/// has any; without such a step there is no active one.
pub proof fn law_last_active(train: Seq<Vec<usize>>, t: int)
    requires
        -1 <= t < train.len(),
        forall|k: int| t < k < train.len() ==> (#[trigger] train[k])@.len() == 0,
        t >= 0 ==> train[t]@.len() > 0,
    ensures
        last_active(train) == if t >= 0 {
            train[t]@
        } else {
            Seq::empty()
        },
    decreases train.len(),
{
    if train.len() > 0 && t < train.len() - 1 {
        law_last_active(train.drop_last(), t);
    }
}

/// Routing `embedding` by `router` gives `result`.
pub open spec fn route_gives<R: ExpertRouter>(
    router: &mut R,
    embedding: Seq<Scalar>,
    result: Result<ExpertRouteOutput, HybridError>,
) -> bool {
    exists|xs: &[Scalar]|
        xs@ == embedding && #[trigger] call_ensures(R::route, (router, xs), result)
}

/// The router reports `n_experts` experts.
pub open spec fn reports_experts<R: ExpertRouter>(router: &R, n_experts: usize) -> bool {
    call_ensures(R::num_experts, (router,), n_experts)
}

/// The router reports that it selects `top_k` experts.
pub open spec fn reports_top_k<R: ExpertRouter>(router: &R, top_k: usize) -> bool {
    call_ensures(R::top_k, (router,), top_k)
}

/// `outcome` is what the route comes to, by the sizes that the router reports.
pub open spec fn judged<M: Arithmetic, R: ExpertRouter>(
    router: &R,
    route: ExpertRouteOutput,
    outcome: Result<Seq<Scalar>, error::ErrorView>,
) -> bool {
    exists|n_experts: usize, top_k: usize|
        #![trigger reports_experts(router, n_experts), reports_top_k(router, top_k)]
        reports_experts(router, n_experts) && reports_top_k(router, top_k) && accepted::<M>(
            n_experts,
            top_k,
            route.expert_weights@,
            route.selected_experts@,
            outcome,
        )
}

/// A route that is accepted is as the router reports: one weight comes out per
/// expert, and as many distinct experts are selected as it says.
pub proof fn law_judged_route<M: Arithmetic, R: ExpertRouter>(
    router: &R,
    route: ExpertRouteOutput,
    out: Seq<Scalar>,
)
    requires
        judged::<M, R>(router, route, Ok(out)),
    ensures
        exists|n_experts: usize, top_k: usize|
            #![trigger reports_experts(router, n_experts), reports_top_k(router, top_k)]
            {
                &&& reports_experts(router, n_experts)
                &&& reports_top_k(router, top_k)
                &&& out.len() == n_experts
                &&& route.selected_experts@.len() == top_k
                &&& route.selected_experts@.no_duplicates()
                &&& forall|p: int|
                    0 <= p < top_k ==> #[trigger] route.selected_experts@[p] < n_experts
            },
{
    let (n_experts, top_k) = choose|n_experts: usize, top_k: usize|
        #![trigger reports_experts(router, n_experts), reports_top_k(router, top_k)]
        reports_experts(router, n_experts) && reports_top_k(router, top_k) && accepted::<M>(
            n_experts,
            top_k,
            route.expert_weights@,
            route.selected_experts@,
            Ok(out),
        );
    law_accepted_route::<M>(
        n_experts,
        top_k,
        route.expert_weights@,
        route.selected_experts@,
        out,
    );
}

/// Routes an embedding once.
fn route_once<R: ExpertRouter>(router: &mut R, embedding: &[Scalar]) -> (r: Result<
    ExpertRouteOutput,
    HybridError,
>)
    ensures
        exists|routed: &mut R|
            *routed == *old(router) && *final(routed) == *final(router)
                && #[trigger] route_gives(routed, embedding@, r),
{
    let r = router.route(embedding);
    proof {
        let (routed, xs) = choose|routed: &mut R, xs: &[Scalar]|
            *routed == *old(router) && *final(routed) == *router && xs@ == embedding@
                && #[trigger] call_ensures(R::route, (routed, xs), r);
        assert(route_gives(routed, embedding@, r));
    }
    r
}

/// Spike activity, projected to an embedding and routed to experts.
#[derive(Debug)]
pub struct ReverseHybridPath<R: ExpertRouter> {
    mode: ProjectionMode,
    n_neurons: usize,
    embed_dim: usize,
    router: R,
    global_step: u64,
}

impl<R: ExpertRouter> ReverseHybridPath<R> {
    /// How activity is projected.
    pub closed spec fn projection(&self) -> ProjectionMode {
        self.mode
    }

    /// The number of neurons.
    pub closed spec fn neurons(&self) -> usize {
        self.n_neurons
    }

    /// The width of the embedding.
    pub closed spec fn width(&self) -> usize {
        self.embed_dim
    }

    /// The router.
    pub closed spec fn router_part(&self) -> R {
        self.router
    }

    /// The number of steps counted so far.
    pub closed spec fn steps(&self) -> u64 {
        self.global_step
    }

    /// Everything but the router and the step count is that of `other`.
    pub open spec fn configured_as(&self, other: &Self) -> bool {
        &&& self.projection() == other.projection()
        &&& self.neurons() == other.neurons()
        &&& self.width() == other.width()
    }

    /// Neither the neurons nor the embedding are none.
    pub open spec fn well_formed(&self) -> bool {
        self.neurons() > 0 && self.width() > 0
    }

    /// What is wrong with the sizes of a path.
    pub open spec fn size_error(n_neurons: usize, embed_dim: usize) -> Option<error::ErrorView> {
        if n_neurons == 0 {
            Some(error::ErrorView::InvalidConfig("ReverseHybridPath: n_neurons must be > 0"@))
        } else if embed_dim == 0 {
            Some(error::ErrorView::InvalidConfig("ReverseHybridPath: embed_dim must be > 0"@))
        } else {
            None
        }
    }

    /// A path for `n_neurons` neurons and embeddings of `embed_dim` numbers,
    /// neither of them zero.
    pub fn new(mode: ProjectionMode, n_neurons: usize, embed_dim: usize, router: R) -> (r: Result<
        Self,
        HybridError,
    >)
        ensures
            match r {
                Ok(path) => {
                    &&& Self::size_error(n_neurons, embed_dim) is None
                    &&& path.well_formed()
                    &&& path.projection() == mode
                    &&& path.neurons() == n_neurons
                    &&& path.width() == embed_dim
                    &&& path.router_part() == router
                    &&& path.steps() == 0
                },
                Err(e) => Self::size_error(n_neurons, embed_dim) == Some(e@),
            },
    {
        if n_neurons == 0 {
            return Err(
                HybridError::InvalidConfig(
                    String::from_str("ReverseHybridPath: n_neurons must be > 0"),
                ),
            );
        }
        if embed_dim == 0 {
            return Err(
                HybridError::InvalidConfig(
                    String::from_str("ReverseHybridPath: embed_dim must be > 0"),
                ),
            );
        }
        Ok(ReverseHybridPath { mode, n_neurons, embed_dim, router, global_step: 0 })
    }

    /// How activity is projected.
    pub fn mode(&self) -> (r: ProjectionMode)
        ensures
            r == self.projection(),
    {
        self.mode
    }

    /// The number of neurons.
    pub fn n_neurons(&self) -> (r: usize)
        ensures
            r == self.neurons(),
    {
        self.n_neurons
    }

    /// The width of the embedding.
    pub fn embed_dim(&self) -> (r: usize)
        ensures
            r == self.width(),
    {
        self.embed_dim
    }

    /// The router.
    pub fn router(&self) -> (r: &R)
        ensures
            *r == self.router_part(),
    {
        &self.router
    }

    /// The router, for changing.
    pub fn router_mut(&mut self) -> (r: &mut R)
        ensures
            *r == old(self).router_part(),
            final(self).router_part() == *final(r),
            final(self).configured_as(old(self)),
            final(self).steps() == old(self).steps(),
    {
        &mut self.router
    }

    /// The number of steps counted so far.
    pub fn global_step(&self) -> (r: u64)
        ensures
            r == self.steps(),
    {
        self.global_step
    }

    /// Starts counting steps anew.
    pub fn reset(&mut self)
        ensures
            final(self).steps() == 0,
            final(self).router_part() == old(self).router_part(),
            final(self).configured_as(old(self)),
    {
        self.global_step = 0;
    }

    /// Projects an activity, routes the embedding and checks the route. The
    /// step is counted only where all of that succeeds. What was projected,
    /// the last active step and the checked route come back; there are no
    /// stimuli.
    pub fn forward_activity<M: Arithmetic>(&mut self, activity: &SpikeActivity) -> (r: Result<
        HybridOutput,
        HybridError,
    >)
        ensures
            final(self).configured_as(old(self)),
            match r {
                Ok(out) => {
                    &&& projector::projection_error(
                        activity,
                        old(self).neurons(),
                        old(self).width(),
                    ) is None
                    &&& projector::projected::<M>(
                        old(self).projection(),
                        activity,
                        old(self).neurons(),
                        old(self).width(),
                        out.embedding@,
                    )
                    &&& out.expert_weights is Some
                    &&& out.selected_experts is Some
                    &&& exists|router: &mut R, route: ExpertRouteOutput|
                        *router == old(self).router_part()
                            && *final(router) == final(self).router_part()
                            && #[trigger] route_gives(
                            router,
                            out.embedding@,
                            Ok(route),
                        ) && judged::<M, R>(
                            &final(self).router_part(),
                            route,
                            Ok(out.expert_weights->0@),
                        ) && out.selected_experts->0@ == route.selected_experts@
                            && out.routing_entropy == route.routing_entropy
                    &&& out.stimuli@.len() == 0
                    &&& out.fired_neurons@ == last_active(activity.spike_train@)
                    &&& final(self).steps() == hybrid::next_step(old(self).steps())
                    &&& out.global_step == final(self).steps()
                },
                Err(e) => {
                    &&& final(self).steps() == old(self).steps()
                    &&& match projector::projection_error(
                        activity,
                        old(self).neurons(),
                        old(self).width(),
                    ) {
                        Some(found) => {
                            &&& e@ == found
                            &&& final(self).router_part() == old(self).router_part()
                        },
                        None => exists|
                            embedding: Seq<Scalar>,
                            router: &mut R,
                            given: Result<ExpertRouteOutput, HybridError>,
                        |
                            projector::projected::<M>(
                                old(self).projection(),
                                activity,
                                old(self).neurons(),
                                old(self).width(),
                                embedding,
                            ) && *router == old(self).router_part()
                                && *final(router) == final(self).router_part()
                                && #[trigger] route_gives(
                                router,
                                embedding,
                                given,
                            ) && match given {
                                Err(refused) => e == refused,
                                Ok(route) => judged::<M, R>(
                                    &final(self).router_part(),
                                    route,
                                    Err(e@),
                                ),
                            },
                    }
                },
            },
    {
        let embedding = match projector::project_spike_activity::<M>(
            self.mode,
            activity,
            self.n_neurons,
            self.embed_dim,
        ) {
            Err(e) => {
                return Err(e);
            },
            Ok(embedding) => embedding,
        };
        let given = route_once(&mut self.router, embedding.as_slice());
        let ghost routed = choose|routed: &mut R|
            *routed == old(self).router_part() && *final(routed) == self.router_part()
                && #[trigger] route_gives(routed, embedding@, given);
        let route = match given {
            Err(e) => {
                assert(route_gives(routed, embedding@, Err(e)));
                return Err(e);
            },
            Ok(route) => route,
        };
        assert(route_gives(routed, embedding@, Ok(route)));
        let n_experts: usize = self.router.num_experts();
        let top_k: usize = self.router.top_k();
        assert(reports_experts(&self.router, n_experts));
        assert(reports_top_k(&self.router, top_k));
        let expert_weights = match check_route::<M>(n_experts, top_k, &route) {
            Err(e) => {
                assert(judged::<M, R>(&self.router, route, Err(e@)));
                return Err(e);
            },
            Ok(weights) => weights,
        };
        assert(judged::<M, R>(&self.router, route, Ok(expert_weights@)));
        let fired_neurons = last_fired(activity.spike_train.as_slice());
        if self.global_step < u64::MAX {
            self.global_step = self.global_step + 1;
        }
        let out = HybridOutput {
            embedding,
            stimuli: Vec::new(),
            fired_neurons,
            global_step: self.global_step,
            expert_weights: Some(expert_weights),
            selected_experts: Some(route.selected_experts),
            routing_entropy: route.routing_entropy,
        };
        assert(route_gives(routed, out.embedding@, Ok(route)));
        Ok(out)
    }
}

/// The accepted sums are those from `1 - 2^-20` to `1 + 2^-20`, as a range of
/// patterns and by value.
pub proof fn law_tolerance(sum: Wide)
    ensures
        within_tolerance(sum) <==> 0x3fef_fffe_0000_0000 <= sum.bits <= 0x3ff0_0001_0000_0000,
        within_tolerance(sum) <==> sum.finite() && pow2(1074) - pow2(1054) <= sum.value()
            <= pow2(1074) + pow2(1054),
{
    lemma_tolerance_is_a_range(sum);
    scalar::law_named_values();
    vstd::arithmetic::power2::lemma2_to64();
    vstd::arithmetic::power2::lemma2_to64_rest();
    vstd::arithmetic::power2::lemma_pow2_adds(52, 1002);
    vstd::arithmetic::power2::lemma_pow2_strictly_increases(1054, 1074);
    vstd::arithmetic::power2::lemma_pow2_pos(1074);
    vstd::arithmetic::power2::lemma_pow2_pos(1054);
    assert(0x3eb0_0000_0000_0000u64 / 0x10_0000_0000_0000 == 1003);
    assert(0x3eb0_0000_0000_0000u64 % 0x10_0000_0000_0000 == 0);
    assert(scalar::wide_value(WEIGHT_SUM_TOLERANCE) == 0x10_0000_0000_0000 * pow2(1002));
    assert(pow2(1054) == 0x10_0000_0000_0000 * pow2(1002));
}

/// The sizes and the single weights of a route pass exactly where from one to
/// all experts are selected, there is one weight for each of them, and every
/// weight is finite and at least zero.
pub proof fn law_weights_pass(n_experts: usize, top_k: usize, weights: Seq<Scalar>)
    ensures
        weights_error(n_experts, top_k, weights) is None <==> {
            &&& 1 <= top_k <= n_experts
            &&& weights.len() == n_experts
            &&& forall|i: int|
                0 <= i < weights.len() ==> (#[trigger] weights[i]).finite() && weights[i].value()
                    >= 0
        },
        weights_error(n_experts, top_k, weights) is Some ==> weights_error(
            n_experts,
            top_k,
            weights,
        )->0 is InvalidConfig,
        !(1 <= top_k <= n_experts) ==> weights_error(n_experts, top_k, weights) == Some(
            error::ErrorView::InvalidConfig(
                "ReverseHybridPath: router reports invalid num_experts="@ + text::decimal(
                    n_experts as nat,
                ) + " / top_k="@ + text::decimal(top_k as nat),
            ),
        ),
        1 <= top_k <= n_experts && weights.len() != n_experts ==> weights_error(
            n_experts,
            top_k,
            weights,
        ) == Some(
            error::ErrorView::InvalidConfig(
                "ReverseHybridPath: expert_weights.len() ("@ + text::decimal(weights.len())
                    + ") != num_experts ("@ + text::decimal(n_experts as nat) + ")"@,
            ),
        ),
{
    let unit = scalar::wide(0);
    if all_weights(weights) {
        assert forall|i: int| 0 <= i < weights.len() implies (#[trigger] weights[i]).finite()
            && weights[i].value() >= 0 by {
            assert(weights[i].finite_nonnegative());
            scalar::law_bounds_are_numeric(weights[i], unit);
        }
    } else if forall|i: int|
        0 <= i < weights.len() ==> (#[trigger] weights[i]).finite() && weights[i].value() >= 0 {
        assert forall|i: int| 0 <= i < weights.len() implies (
        #[trigger] weights[i]).finite_nonnegative() by {
            scalar::law_bounds_are_numeric(weights[i], unit);
        }
    }
}

/// How renormalized weights come about: one over the sum, each weight held wide,
/// and its product with that.
pub ghost struct Rescaling {
    pub scale: Wide,
    pub widened: Seq<Wide>,
    pub products: Seq<Wide>,
}

/// Renormalizing divides by the sum: each weight is widened, multiplied by the
/// host's quotient of one by the sum, and narrowed.
pub proof fn law_renormalizing_divides<M: Arithmetic>(
    weights: Seq<Scalar>,
    sum: Wide,
    out: Seq<Scalar>,
) -> (r: Rescaling)
    requires
        renormalized::<M>(weights, sum, out),
    ensures
        out.len() == weights.len(),
        call_ensures(M::wide_divide, (Wide { bits: 0x3ff0_0000_0000_0000 }, sum), r.scale),
        forall|i: int|
            0 <= i < out.len() ==> call_ensures(M::widen, (weights[i],), r.widened[i])
                && call_ensures(M::wide_multiply, (r.widened[i], r.scale), r.products[i])
                && call_ensures(M::narrow, (r.products[i],), #[trigger] out[i]),
{
    let one = scalar::wide(scalar::WIDE_ONE_BITS);
    let n = out.len();
    let scale = choose|scale: Wide|
        {
            &&& #[trigger] arithmetic::wide_divides::<M>(one, sum, scale)
            &&& forall|i: int|
                0 <= i < out.len() ==> rescales::<M>(weights[i], scale, #[trigger] out[i])
        };
    let scaled = Seq::new(
        n,
        |i: int|
            choose|p: (Wide, Wide)|
                arithmetic::widens::<M>(weights[i], p.0)
                    && #[trigger] arithmetic::wide_multiplies::<M>(p.0, scale, p.1)
                    && arithmetic::narrows::<M>(p.1, out[i]),
    );
    let widened = Seq::new(n, |i: int| scaled[i].0);
    let products = Seq::new(n, |i: int| scaled[i].1);
    assert forall|i: int| 0 <= i < n implies call_ensures(M::widen, (weights[i],), widened[i])
        && call_ensures(M::wide_multiply, (widened[i], scale), products[i]) && call_ensures(
        M::narrow,
        (products[i],),
        #[trigger] out[i],
    ) by {
        assert(rescales::<M>(weights[i], scale, out[i]));
        let (x, y) = choose|x: Wide, y: Wide|
            arithmetic::widens::<M>(weights[i], x) && #[trigger] arithmetic::wide_multiplies::<M>(
                x,
                scale,
                y,
            ) && arithmetic::narrows::<M>(y, out[i]);
        let p = (x, y);
        assert(arithmetic::wide_multiplies::<M>(p.0, scale, p.1));
        assert(arithmetic::wide_multiplies::<M>(scaled[i].0, scale, scaled[i].1));
        assert(arithmetic::widens::<M>(weights[i], widened[i]));
        assert(arithmetic::narrows::<M>(products[i], out[i]));
    }
    Rescaling { scale, widened, products }
}

/// A route is accepted exactly where it meets the router contract: from one to
/// all experts selected, one weight for each, every weight finite and at least
/// zero, their wide sum within `2^-20` of one, and as many experts selected as
/// promised, all of them distinct and existing. This holds of a deterministic
/// host; its sum is `sum`.
pub proof fn law_acceptance<M: Arithmetic>(
    n_experts: usize,
    top_k: usize,
    weights: Seq<Scalar>,
    selected: Seq<usize>,
    sum: Wide,
    outcome: Result<Seq<Scalar>, error::ErrorView>,
)
    requires
        arithmetic::deterministic::<M>(),
        arithmetic::wide_sums_to::<M>(weights, sum),
        accepted::<M>(n_experts, top_k, weights, selected, outcome),
    ensures
        outcome is Ok <==> {
            &&& 1 <= top_k <= n_experts
            &&& weights.len() == n_experts
            &&& forall|i: int|
                0 <= i < weights.len() ==> (#[trigger] weights[i]).finite() && weights[i].value()
                    >= 0
            &&& 0x3fef_fffe_0000_0000 <= sum.bits <= 0x3ff0_0001_0000_0000
            &&& selected.len() == top_k
            &&& selected.no_duplicates()
            &&& forall|p: int| 0 <= p < selected.len() ==> #[trigger] selected[p] < n_experts
        },
        outcome is Ok ==> renormalized::<M>(weights, sum, outcome->Ok_0),
        outcome is Err ==> outcome->Err_0 is InvalidConfig,
{
    law_weights_pass(n_experts, top_k, weights);
    law_selection_passes(selected, n_experts, top_k);
    law_tolerance(sum);
    if weights_error(n_experts, top_k, weights) is None {
        let s = choose|s: Wide| #[trigger]
            arithmetic::wide_sums_to::<M>(weights, s) && summed::<M>(
                n_experts,
                top_k,
                weights,
                selected,
                s,
                outcome,
            );
        arithmetic::law_wide_sum_is_unique::<M>(weights, sum, s);
        let found = choose|found: Option<error::ErrorView>| #[trigger]
            sum_check::<M>(sum, found) && match found {
                Some(e) => outcome == Err::<Seq<Scalar>, error::ErrorView>(e),
                None => match selection_error(selected, n_experts, top_k) {
                    Some(e) => outcome == Err::<Seq<Scalar>, error::ErrorView>(e),
                    None => outcome matches Ok(out) && renormalized::<M>(weights, sum, out),
                },
            };
        assert(sum_check::<M>(sum, found));
    }
}

/// The weights of a route are examined before its selection, and of the weights
/// first the sizes, then each of them, then a sum of zero, then the tolerance.
pub proof fn law_order_of_checks<M: Arithmetic>(
    n_experts: usize,
    top_k: usize,
    weights: Seq<Scalar>,
    selected: Seq<usize>,
    sum: Wide,
    outcome: Result<Seq<Scalar>, error::ErrorView>,
)
    requires
        arithmetic::deterministic::<M>(),
        arithmetic::wide_sums_to::<M>(weights, sum),
        accepted::<M>(n_experts, top_k, weights, selected, outcome),
        1 <= top_k <= n_experts,
        weights.len() == n_experts,
    ensures
        (exists|i: int|
            0 <= i < weights.len() && (!(#[trigger] weights[i]).finite() || weights[i].value() < 0))
            ==> outcome == Err::<Seq<Scalar>, error::ErrorView>(
            error::ErrorView::InvalidConfig(
                "ReverseHybridPath: expert_weights contain non-finite or negative values"@,
            ),
        ),
        (forall|i: int|
            0 <= i < weights.len() ==> (#[trigger] weights[i]).finite() && weights[i].value() >= 0)
            && sum.bits % 0x8000_0000_0000_0000 == 0 ==> outcome == Err::<
            Seq<Scalar>,
            error::ErrorView,
        >(error::ErrorView::InvalidConfig("ReverseHybridPath: expert_weights are all zero"@)),
        0x3fef_fffe_0000_0000 <= sum.bits <= 0x3ff0_0001_0000_0000 && (forall|i: int|
            0 <= i < weights.len() ==> (#[trigger] weights[i]).finite() && weights[i].value() >= 0)
            && selected.len() != top_k ==> outcome == Err::<Seq<Scalar>, error::ErrorView>(
            error::ErrorView::InvalidConfig(
                "ReverseHybridPath: selected_experts.len() ("@ + text::decimal(selected.len())
                    + ") != top_k ("@ + text::decimal(top_k as nat) + ")"@,
            ),
        ),
{
    law_weights_pass(n_experts, top_k, weights);
    law_tolerance(sum);
    scalar::law_wide_fields(sum);
    if weights_error(n_experts, top_k, weights) is None {
        let s = choose|s: Wide| #[trigger]
            arithmetic::wide_sums_to::<M>(weights, s) && summed::<M>(
                n_experts,
                top_k,
                weights,
                selected,
                s,
                outcome,
            );
        arithmetic::law_wide_sum_is_unique::<M>(weights, sum, s);
        let found = choose|found: Option<error::ErrorView>| #[trigger]
            sum_check::<M>(sum, found) && match found {
                Some(e) => outcome == Err::<Seq<Scalar>, error::ErrorView>(e),
                None => match selection_error(selected, n_experts, top_k) {
                    Some(e) => outcome == Err::<Seq<Scalar>, error::ErrorView>(e),
                    None => outcome matches Ok(out) && renormalized::<M>(weights, sum, out),
                },
            };
        assert(sum_check::<M>(sum, found));
    }
}

/// Of a selection of the right size the first flaw is reported: an expert that
/// does not exist with its index, or that one was selected before.
pub proof fn law_first_flaw(selected: Seq<usize>, n_experts: usize, top_k: usize, p: int)
    requires
        selected.len() == top_k,
        0 <= p < selected.len(),
        selected.take(p).no_duplicates(),
        forall|q: int| 0 <= q < p ==> #[trigger] selected[q] < n_experts,
    ensures
        selected[p] >= n_experts ==> selection_error(selected, n_experts, top_k) == Some(
            error::ErrorView::InvalidConfig(
                "ReverseHybridPath: selected expert index "@ + text::decimal(selected[p] as nat)
                    + " >= num_experts ("@ + text::decimal(n_experts as nat) + ")"@,
            ),
        ),
        selected[p] < n_experts && (exists|q: int|
            0 <= q < p && #[trigger] selected[q] == selected[p]) ==> selection_error(
            selected,
            n_experts,
            top_k,
        ) == Some(
            error::ErrorView::InvalidConfig(
                "ReverseHybridPath: selected_experts contains duplicate indices"@,
            ),
        ),
{
    let earlier = selected.take(p);
    assert forall|q: int| 0 <= q < p implies !#[trigger] flawed(selected, n_experts, q) by {
        assert(selected[q] < n_experts);
        if selected.take(q).contains(selected[q]) {
            let o = choose|o: int| 0 <= o < q && selected.take(q)[o] == selected[q];
            assert(earlier[o] == earlier[q]);
        }
    }
    if exists|q: int| 0 <= q < p && #[trigger] selected[q] == selected[p] {
        let q = choose|q: int| 0 <= q < p && #[trigger] selected[q] == selected[p];
        assert(earlier[q] == selected[p]);
    }
    if flawed(selected, n_experts, p) {
        assert(flawed_at(selected, n_experts, p));
        lemma_first_flaw(selected, n_experts, p);
    }
}

/// What a route comes to is what it comes to by the sizes that the router
/// reports, which come back.
pub proof fn law_judged_by_report<M: Arithmetic, R: ExpertRouter>(
    router: &R,
    route: ExpertRouteOutput,
    outcome: Result<Seq<Scalar>, error::ErrorView>,
) -> (r: (usize, usize))
    requires
        judged::<M, R>(router, route, outcome),
    ensures
        call_ensures(R::num_experts, (router,), r.0),
        call_ensures(R::top_k, (router,), r.1),
        accepted::<M>(r.0, r.1, route.expert_weights@, route.selected_experts@, outcome),
{
    let (n_experts, top_k) = choose|n_experts: usize, top_k: usize|
        #![trigger reports_experts(router, n_experts), reports_top_k(router, top_k)]
        reports_experts(router, n_experts) && reports_top_k(router, top_k) && accepted::<M>(
            n_experts,
            top_k,
            route.expert_weights@,
            route.selected_experts@,
            outcome,
        );
    assert(reports_experts(router, n_experts) && reports_top_k(router, top_k));
    (n_experts, top_k)
}

/// A path is built exactly where there are neurons and the embedding has numbers.
pub proof fn law_path_sizes<R: ExpertRouter>(n_neurons: usize, embed_dim: usize)
    ensures
        ReverseHybridPath::<R>::size_error(n_neurons, embed_dim) is None <==> 0 < n_neurons && 0
            < embed_dim,
        n_neurons == 0 ==> ReverseHybridPath::<R>::size_error(n_neurons, embed_dim) == Some(
            error::ErrorView::InvalidConfig("ReverseHybridPath: n_neurons must be > 0"@),
        ),
        0 < n_neurons && embed_dim == 0 ==> ReverseHybridPath::<R>::size_error(n_neurons, embed_dim)
            == Some(error::ErrorView::InvalidConfig("ReverseHybridPath: embed_dim must be > 0"@)),
{
}

/// Paths that are configured alike project in the same mode, for as many neurons
/// and to as many numbers.
pub proof fn law_configuration<R: ExpertRouter>(
    a: &ReverseHybridPath<R>,
    b: &ReverseHybridPath<R>,
)
    ensures
        a.configured_as(b) <==> a.projection() == b.projection() && a.neurons() == b.neurons()
            && a.width() == b.width(),
        a.well_formed() <==> a.neurons() > 0 && a.width() > 0,
{
}

/// The router is given the embedding as it is.
pub proof fn law_route_is_of_embedding<R: ExpertRouter>(
    router: &mut R,
    embedding: Seq<Scalar>,
    result: Result<ExpertRouteOutput, HybridError>,
)
    requires
        route_gives(router, embedding, result),
    ensures
        exists|xs: &[Scalar]|
            xs@ == embedding && #[trigger] call_ensures(R::route, (router, xs), result),
{
}

} // verus!
