//! Rounded arithmetic, as the host supplies it.
//!
//! The library orders, selects, validates and lays out numbers on its own, and
//! asks an [`Arithmetic`] for every rounded result. Nothing is assumed of the
//! answers: contracts say which operation was applied to which operands, by
//! relations such as [`adds`], and hold for any host.

use crate::scalar;
use crate::scalar::{Scalar, Wide};
use vstd::prelude::*;

verus! {

/// Rounded binary32 and binary64 operations on bit patterns.
pub trait Arithmetic {
    /// `a + b`.
    fn add(a: Scalar, b: Scalar) -> Scalar;

    /// `a - b`.
    fn subtract(a: Scalar, b: Scalar) -> Scalar;

    /// `a * b`.
    fn multiply(a: Scalar, b: Scalar) -> Scalar;

    /// `a / b`.
    fn divide(a: Scalar, b: Scalar) -> Scalar;

    /// The nearest binary32 number to `n`.
    fn count(n: usize) -> Scalar;

    /// The hyperbolic tangent.
    fn tanh(a: Scalar) -> Scalar;

    /// The exponential.
    fn exp(a: Scalar) -> Scalar;

    /// The natural logarithm.
    fn ln(a: Scalar) -> Scalar;

    /// The same number, held wide.
    fn widen(a: Scalar) -> Wide;

    /// The nearest binary32 number to a wide one.
    fn narrow(a: Wide) -> Scalar;

    /// `a + b`, wide.
    fn wide_add(a: Wide, b: Wide) -> Wide;

    /// `a * b`, wide.
    fn wide_multiply(a: Wide, b: Wide) -> Wide;

    /// `a / b`, wide.
    fn wide_divide(a: Wide, b: Wide) -> Wide;

    /// The decimal rendering of a wide number, for messages.
    fn wide_text(a: Wide) -> String;
}

/// `r` is what the host gives for `a + b`.
pub open spec fn adds<M: Arithmetic>(a: Scalar, b: Scalar, r: Scalar) -> bool {
    call_ensures(M::add, (a, b), r)
}

/// `r` is what the host gives for `a - b`.
pub open spec fn subtracts<M: Arithmetic>(a: Scalar, b: Scalar, r: Scalar) -> bool {
    call_ensures(M::subtract, (a, b), r)
}

/// `r` is what the host gives for `a * b`.
pub open spec fn multiplies<M: Arithmetic>(a: Scalar, b: Scalar, r: Scalar) -> bool {
    call_ensures(M::multiply, (a, b), r)
}

/// `r` is what the host gives for `a / b`.
pub open spec fn divides<M: Arithmetic>(a: Scalar, b: Scalar, r: Scalar) -> bool {
    call_ensures(M::divide, (a, b), r)
}

/// `r` is the host's number for the count `n`.
pub open spec fn counts<M: Arithmetic>(n: usize, r: Scalar) -> bool {
    call_ensures(M::count, (n,), r)
}

/// `r` is what the host gives for the hyperbolic tangent of `a`.
pub open spec fn squashes<M: Arithmetic>(a: Scalar, r: Scalar) -> bool {
    call_ensures(M::tanh, (a,), r)
}

/// `r` is what the host gives for the exponential of `a`.
pub open spec fn exponentiates<M: Arithmetic>(a: Scalar, r: Scalar) -> bool {
    call_ensures(M::exp, (a,), r)
}

/// `r` is what the host gives for the logarithm of `a`.
pub open spec fn takes_log<M: Arithmetic>(a: Scalar, r: Scalar) -> bool {
    call_ensures(M::ln, (a,), r)
}

/// `r` is the host's wide form of `a`.
pub open spec fn widens<M: Arithmetic>(a: Scalar, r: Wide) -> bool {
    call_ensures(M::widen, (a,), r)
}

/// `r` is the host's narrow form of `a`.
pub open spec fn narrows<M: Arithmetic>(a: Wide, r: Scalar) -> bool {
    call_ensures(M::narrow, (a,), r)
}

/// `r` is what the host gives for `a + b`, wide.
pub open spec fn wide_adds<M: Arithmetic>(a: Wide, b: Wide, r: Wide) -> bool {
    call_ensures(M::wide_add, (a, b), r)
}

/// `r` is what the host gives for `a * b`, wide.
pub open spec fn wide_multiplies<M: Arithmetic>(a: Wide, b: Wide, r: Wide) -> bool {
    call_ensures(M::wide_multiply, (a, b), r)
}

/// `r` is what the host gives for `a / b`, wide.
pub open spec fn wide_divides<M: Arithmetic>(a: Wide, b: Wide, r: Wide) -> bool {
    call_ensures(M::wide_divide, (a, b), r)
}

/// `total` is the sum of `xs`, added up from zero in order.
pub open spec fn sums_to<M: Arithmetic>(xs: Seq<Scalar>, total: Scalar) -> bool
    decreases xs.len(),
{
    if xs.len() == 0 {
        total == scalar::scalar(0)
    } else {
        exists|before: Scalar|
            sums_to::<M>(xs.drop_last(), before) && #[trigger] adds::<M>(before, xs.last(), total)
    }
}

/// `total` is zero with one added `n` times.
pub open spec fn tallies<M: Arithmetic>(n: nat, total: Scalar) -> bool {
    sums_to::<M>(Seq::new(n, |i: int| scalar::scalar(scalar::ONE_BITS)), total)
}

/// `total` is the sum of `xs`, widened one by one and added up from zero in
/// order.
pub open spec fn wide_sums_to<M: Arithmetic>(xs: Seq<Scalar>, total: Wide) -> bool
    decreases xs.len(),
{
    if xs.len() == 0 {
        total == scalar::wide(0)
    } else {
        exists|before: Wide, last: Wide|
            wide_sums_to::<M>(xs.drop_last(), before) && widens::<M>(xs.last(), last)
                && #[trigger] wide_adds::<M>(before, last, total)
    }
}

/// `inverse` is what the host gives for one over the count `n`.
pub open spec fn inverts<M: Arithmetic>(n: usize, inverse: Scalar) -> bool {
    exists|c: Scalar|
        counts::<M>(n, c) && #[trigger] divides::<M>(
            scalar::scalar(scalar::ONE_BITS),
            c,
            inverse,
        )
}

/// Adding one more number extends a sum.
pub proof fn lemma_sum_push<M: Arithmetic>(xs: Seq<Scalar>, before: Scalar, x: Scalar, total: Scalar)
    requires
        sums_to::<M>(xs, before),
        adds::<M>(before, x, total),
    ensures
        sums_to::<M>(xs.push(x), total),
{
    assert(xs.push(x).drop_last() =~= xs);
    assert(xs.push(x).last() == x);
}

/// Counting one more extends a tally.
pub proof fn lemma_tally_next<M: Arithmetic>(n: nat, before: Scalar, total: Scalar)
    requires
        tallies::<M>(n, before),
        adds::<M>(before, scalar::scalar(scalar::ONE_BITS), total),
    ensures
        tallies::<M>(n + 1, total),
{
    let one = scalar::scalar(scalar::ONE_BITS);
    let ones = Seq::new(n, |i: int| one);
    lemma_sum_push::<M>(ones, before, one, total);
    assert(ones.push(one) =~= Seq::new(n + 1, |i: int| one));
}

/// Adding one more number extends a wide sum.
pub proof fn lemma_wide_sum_push<M: Arithmetic>(
    xs: Seq<Scalar>,
    before: Wide,
    x: Scalar,
    x_wide: Wide,
    total: Wide,
)
    requires
        wide_sums_to::<M>(xs, before),
        widens::<M>(x, x_wide),
        wide_adds::<M>(before, x_wide, total),
    ensures
        wide_sums_to::<M>(xs.push(x), total),
{
    assert(xs.push(x).drop_last() =~= xs);
    assert(xs.push(x).last() == x);
}

/// The sum of the numbers from `start` up to `end`.
pub fn sum_range<M: Arithmetic>(xs: &[Scalar], start: usize, end: usize) -> (total: Scalar)
    requires
        start <= end <= xs@.len(),
    ensures
        sums_to::<M>(xs@.subrange(start as int, end as int), total),
{
    let mut acc = Scalar { bits: 0 };
    let mut i: usize = start;
    while i < end
        invariant
            start <= i <= end <= xs@.len(),
            sums_to::<M>(xs@.subrange(start as int, i as int), acc),
        decreases end - i,
    {
        let next = M::add(acc, xs[i]);
        proof {
            lemma_sum_push::<M>(xs@.subrange(start as int, i as int), acc, xs@[i as int], next);
            assert(xs@.subrange(start as int, i as int).push(xs@[i as int]) =~= xs@.subrange(
                start as int,
                i + 1,
            ));
        }
        acc = next;
        i = i + 1;
    }
    acc
}

/// The sum of the numbers, accumulated wide.
pub fn wide_sum<M: Arithmetic>(xs: &[Scalar]) -> (total: Wide)
    ensures
        wide_sums_to::<M>(xs@, total),
{
    let mut acc = Wide { bits: 0 };
    let mut i: usize = 0;
    while i < xs.len()
        invariant
            i <= xs@.len(),
            wide_sums_to::<M>(xs@.take(i as int), acc),
        decreases xs@.len() - i,
    {
        let x = M::widen(xs[i]);
        let next = M::wide_add(acc, x);
        proof {
            lemma_wide_sum_push::<M>(xs@.take(i as int), acc, xs@[i as int], x, next);
            assert(xs@.take(i as int).push(xs@[i as int]) =~= xs@.take(i + 1));
        }
        acc = next;
        i = i + 1;
    }
    assert(xs@.take(xs@.len() as int) =~= xs@);
    acc
}

/// One over the count `n`.
pub fn inverse<M: Arithmetic>(n: usize) -> (r: Scalar)
    ensures
        inverts::<M>(n, r),
{
    let c = M::count(n);
    let r = M::divide(Scalar { bits: scalar::ONE_BITS }, c);
    assert(divides::<M>(scalar::scalar(scalar::ONE_BITS), c, r));
    r
}

/// The host gives one answer for each question.
pub open spec fn deterministic<M: Arithmetic>() -> bool {
    &&& forall|a: Scalar, b: Scalar, r: Scalar, s: Scalar|
        #![trigger adds::<M>(a, b, r), adds::<M>(a, b, s)]
        adds::<M>(a, b, r) && adds::<M>(a, b, s) ==> r == s
    &&& forall|a: Scalar, b: Scalar, r: Scalar, s: Scalar|
        #![trigger subtracts::<M>(a, b, r), subtracts::<M>(a, b, s)]
        subtracts::<M>(a, b, r) && subtracts::<M>(a, b, s) ==> r == s
    &&& forall|a: Scalar, b: Scalar, r: Scalar, s: Scalar|
        #![trigger multiplies::<M>(a, b, r), multiplies::<M>(a, b, s)]
        multiplies::<M>(a, b, r) && multiplies::<M>(a, b, s) ==> r == s
    &&& forall|a: Scalar, b: Scalar, r: Scalar, s: Scalar|
        #![trigger divides::<M>(a, b, r), divides::<M>(a, b, s)]
        divides::<M>(a, b, r) && divides::<M>(a, b, s) ==> r == s
    &&& forall|n: usize, r: Scalar, s: Scalar|
        #![trigger counts::<M>(n, r), counts::<M>(n, s)]
        counts::<M>(n, r) && counts::<M>(n, s) ==> r == s
    &&& forall|a: Scalar, r: Scalar, s: Scalar|
        #![trigger squashes::<M>(a, r), squashes::<M>(a, s)]
        squashes::<M>(a, r) && squashes::<M>(a, s) ==> r == s
    &&& forall|a: Scalar, r: Scalar, s: Scalar|
        #![trigger exponentiates::<M>(a, r), exponentiates::<M>(a, s)]
        exponentiates::<M>(a, r) && exponentiates::<M>(a, s) ==> r == s
    &&& forall|a: Scalar, r: Scalar, s: Scalar|
        #![trigger takes_log::<M>(a, r), takes_log::<M>(a, s)]
        takes_log::<M>(a, r) && takes_log::<M>(a, s) ==> r == s
    &&& forall|a: Scalar, r: Wide, s: Wide|
        #![trigger widens::<M>(a, r), widens::<M>(a, s)]
        widens::<M>(a, r) && widens::<M>(a, s) ==> r == s
    &&& forall|a: Wide, r: Scalar, s: Scalar|
        #![trigger narrows::<M>(a, r), narrows::<M>(a, s)]
        narrows::<M>(a, r) && narrows::<M>(a, s) ==> r == s
    &&& forall|a: Wide, b: Wide, r: Wide, s: Wide|
        #![trigger wide_adds::<M>(a, b, r), wide_adds::<M>(a, b, s)]
        wide_adds::<M>(a, b, r) && wide_adds::<M>(a, b, s) ==> r == s
    &&& forall|a: Wide, b: Wide, r: Wide, s: Wide|
        #![trigger wide_multiplies::<M>(a, b, r), wide_multiplies::<M>(a, b, s)]
        wide_multiplies::<M>(a, b, r) && wide_multiplies::<M>(a, b, s) ==> r == s
    &&& forall|a: Wide, b: Wide, r: Wide, s: Wide|
        #![trigger wide_divides::<M>(a, b, r), wide_divides::<M>(a, b, s)]
        wide_divides::<M>(a, b, r) && wide_divides::<M>(a, b, s) ==> r == s
}

/// The host keeps numbers that are not negative so: sums of them, counts of at
/// least one, which it holds at one or above, and quotients by a finite number
/// from one on, which do not overflow.
pub open spec fn keeps_nonnegative<M: Arithmetic>() -> bool {
    &&& forall|a: Scalar, b: Scalar, r: Scalar| #[trigger]
        adds::<M>(a, b, r) && a.nonnegative() && b.nonnegative() ==> r.nonnegative()
    &&& forall|n: usize, r: Scalar| #[trigger] counts::<M>(n, r) && n > 0 ==> r.finite_from_one()
    &&& forall|a: Scalar, b: Scalar, r: Scalar| #[trigger]
        divides::<M>(a, b, r) && a.nonnegative() && b.finite_from_one() ==> r.nonnegative() && (
        a.finite() ==> r.finite())
}

/// On such a host a sum of numbers that are not negative is none either.
pub proof fn law_sum_is_nonnegative<M: Arithmetic>(xs: Seq<Scalar>, total: Scalar)
    requires
        keeps_nonnegative::<M>(),
        sums_to::<M>(xs, total),
        forall|i: int| 0 <= i < xs.len() ==> (#[trigger] xs[i]).nonnegative(),
    ensures
        total.nonnegative(),
    decreases xs.len(),
{
    if xs.len() > 0 {
        let before = choose|before: Scalar|
            sums_to::<M>(xs.drop_last(), before) && #[trigger] adds::<M>(before, xs.last(), total);
        assert forall|i: int| 0 <= i < xs.drop_last().len() implies (
        #[trigger] xs.drop_last()[i]).nonnegative() by {
            assert(xs[i].nonnegative());
        }
        law_sum_is_nonnegative::<M>(xs.drop_last(), before);
        assert(xs[xs.len() - 1].nonnegative());
    }
}

/// On a deterministic host a sequence has one sum.
pub proof fn law_sum_is_unique<M: Arithmetic>(xs: Seq<Scalar>, a: Scalar, b: Scalar)
    requires
        deterministic::<M>(),
        sums_to::<M>(xs, a),
        sums_to::<M>(xs, b),
    ensures
        a == b,
    decreases xs.len(),
{
    if xs.len() > 0 {
        let pa = choose|before: Scalar|
            sums_to::<M>(xs.drop_last(), before) && #[trigger] adds::<M>(before, xs.last(), a);
        let pb = choose|before: Scalar|
            sums_to::<M>(xs.drop_last(), before) && #[trigger] adds::<M>(before, xs.last(), b);
        law_sum_is_unique::<M>(xs.drop_last(), pa, pb);
    }
}

/// On a deterministic host a sequence has one wide sum.
pub proof fn law_wide_sum_is_unique<M: Arithmetic>(xs: Seq<Scalar>, a: Wide, b: Wide)
    requires
        deterministic::<M>(),
        wide_sums_to::<M>(xs, a),
        wide_sums_to::<M>(xs, b),
    ensures
        a == b,
    decreases xs.len(),
{
    if xs.len() > 0 {
        let (pa, la) = choose|before: Wide, last: Wide|
            wide_sums_to::<M>(xs.drop_last(), before) && widens::<M>(xs.last(), last)
                && #[trigger] wide_adds::<M>(before, last, a);
        let (pb, lb) = choose|before: Wide, last: Wide|
            wide_sums_to::<M>(xs.drop_last(), before) && widens::<M>(xs.last(), last)
                && #[trigger] wide_adds::<M>(before, last, b);
        law_wide_sum_is_unique::<M>(xs.drop_last(), pa, pb);
    }
}

/// A sum is reached by running totals: the first is zero, each next one is the
/// host's sum of the last and the number at its place, and the final one is the
/// sum. Every number is added once, in order.
pub proof fn law_sum_runs<M: Arithmetic>(xs: Seq<Scalar>, total: Scalar) -> (running: Seq<Scalar>)
    requires
        sums_to::<M>(xs, total),
    ensures
        running.len() == xs.len() + 1,
        running[0].bits == 0,
        running[xs.len() as int] == total,
        forall|i: int|
            0 <= i < xs.len() ==> call_ensures(
                M::add,
                (running[i], #[trigger] xs[i]),
                running[i + 1],
            ),
    decreases xs.len(),
{
    if xs.len() == 0 {
        seq![total]
    } else {
        let before = choose|before: Scalar|
            sums_to::<M>(xs.drop_last(), before) && #[trigger] adds::<M>(before, xs.last(), total);
        let front = law_sum_runs::<M>(xs.drop_last(), before);
        let running = front.push(total);
        assert forall|i: int| 0 <= i < xs.len() implies call_ensures(
            M::add,
            (running[i], #[trigger] xs[i]),
            running[i + 1],
        ) by {
            if i < xs.len() - 1 {
                assert(xs.drop_last()[i] == xs[i]);
            } else {
                assert(adds::<M>(before, xs.last(), total));
            }
        }
        running
    }
}

/// A tally is reached by running totals too: `n` times one is added.
pub proof fn law_tally_runs<M: Arithmetic>(n: nat, total: Scalar) -> (running: Seq<Scalar>)
    requires
        tallies::<M>(n, total),
    ensures
        running.len() == n + 1,
        running[0].bits == 0,
        running[n as int] == total,
        forall|i: int|
            0 <= i < n ==> #[trigger] call_ensures(
                M::add,
                (running[i], Scalar { bits: 0x3f80_0000 }),
                running[i + 1],
            ),
{
    let ones = Seq::new(n, |i: int| scalar::scalar(scalar::ONE_BITS));
    let running = law_sum_runs::<M>(ones, total);
    assert forall|i: int| 0 <= i < n implies #[trigger] call_ensures(
        M::add,
        (running[i], Scalar { bits: 0x3f80_0000 }),
        running[i + 1],
    ) by {
        assert(ones[i].bits == 0x3f80_0000);
    }
    running
}

/// A wide sum is reached by wide running totals, `r.0`, to which the numbers are
/// added one by one, each widened, `r.1`.
pub proof fn law_wide_sum_runs<M: Arithmetic>(xs: Seq<Scalar>, total: Wide) -> (r: (
    Seq<Wide>,
    Seq<Wide>,
))
    requires
        wide_sums_to::<M>(xs, total),
    ensures
        r.0.len() == xs.len() + 1,
        r.1.len() == xs.len(),
        r.0[0].bits == 0,
        r.0[xs.len() as int] == total,
        forall|i: int|
            0 <= i < xs.len() ==> call_ensures(M::widen, (xs[i],), #[trigger] r.1[i])
                && call_ensures(M::wide_add, (r.0[i], r.1[i]), r.0[i + 1]),
    decreases xs.len(),
{
    if xs.len() == 0 {
        (seq![total], Seq::empty())
    } else {
        let (before, last) = choose|before: Wide, last: Wide|
            wide_sums_to::<M>(xs.drop_last(), before) && widens::<M>(xs.last(), last)
                && #[trigger] wide_adds::<M>(before, last, total);
        let front = law_wide_sum_runs::<M>(xs.drop_last(), before);
        let running = front.0.push(total);
        let widened = front.1.push(last);
        assert forall|i: int| 0 <= i < xs.len() implies call_ensures(
            M::widen,
            (xs[i],),
            #[trigger] widened[i],
        ) && call_ensures(M::wide_add, (running[i], widened[i]), running[i + 1]) by {
            if i < xs.len() - 1 {
                assert(widened[i] == front.1[i]);
            } else {
                assert(wide_adds::<M>(before, last, total));
            }
        }
        (running, widened)
    }
}

/// The sum of the values of the numbers.
pub open spec fn total_value(xs: Seq<Scalar>) -> int {
    xs.fold_left(0, |sum: int, x: Scalar| sum + x.value())
}

/// The host adds exactly wherever the exact sum is a finite binary32 number.
pub open spec fn adds_exactly<M: Arithmetic>() -> bool {
    forall|a: Scalar, b: Scalar, r: Scalar, s: Scalar|
        #![trigger adds::<M>(a, b, r), s.value()]
        adds::<M>(a, b, r) && a.finite() && b.finite() && s.finite() && s.value() == a.value()
            + b.value() ==> r.finite() && r.value() == s.value()
}

/// On a host that adds exactly where it can, a sum whose parts from the start on
/// can all be held is the sum of the values.
pub proof fn law_sum_is_exact<M: Arithmetic>(xs: Seq<Scalar>, total: Scalar)
    requires
        adds_exactly::<M>(),
        sums_to::<M>(xs, total),
        forall|i: int| 0 <= i < xs.len() ==> (#[trigger] xs[i]).finite(),
        forall|i: int|
            0 <= i <= xs.len() ==> exists|s: Scalar|
                s.finite() && #[trigger] s.value() == total_value(#[trigger] xs.take(i)),
    ensures
        total.finite(),
        total.value() == total_value(xs),
    decreases xs.len(),
{
    reveal(Seq::fold_left);
    scalar::law_named_values();
    if xs.len() > 0 {
        let front = xs.drop_last();
        let n = xs.len() as int;
        let before = choose|before: Scalar|
            sums_to::<M>(front, before) && #[trigger] adds::<M>(before, xs.last(), total);
        assert forall|i: int| 0 <= i < front.len() implies (#[trigger] front[i]).finite() by {
            assert(xs[i].finite());
        }
        assert forall|i: int| 0 <= i <= front.len() implies exists|s: Scalar|
            s.finite() && #[trigger] s.value() == total_value(#[trigger] front.take(i)) by {
            assert(front.take(i) =~= xs.take(i));
        }
        law_sum_is_exact::<M>(front, before);
        assert(xs.take(n) =~= xs);
        let s = choose|s: Scalar| s.finite() && #[trigger] s.value() == total_value(xs.take(n));
        assert(total_value(xs) == total_value(front) + xs.last().value());
        assert(xs[n - 1].finite());
        assert(adds::<M>(before, xs.last(), total));
        assert(s.value() == before.value() + xs.last().value());
    }
}

/// The inverse of a count is the host's quotient of one by its number for the
/// count.
pub proof fn law_inverse<M: Arithmetic>(n: usize, inverse: Scalar)
    requires
        inverts::<M>(n, inverse),
    ensures
        exists|c: Scalar|
            call_ensures(M::count, (n,), c) && #[trigger] call_ensures(
                M::divide,
                (Scalar { bits: 0x3f80_0000 }, c),
                inverse,
            ),
{
    let c = choose|c: Scalar|
        counts::<M>(n, c) && #[trigger] divides::<M>(scalar::scalar(scalar::ONE_BITS), c, inverse);
    assert(call_ensures(M::divide, (Scalar { bits: 0x3f80_0000 }, c), inverse));
}

} // verus!
