//! Sums over sequences of integers, and the little algebra the book's
//! accounting invariants need: how a sum moves under push, update and
//! removal, and how sums of floored fractions compare to the fraction of
//! the sum.

use vstd::prelude::*;
use vstd::arithmetic::div_mod::{lemma_fundamental_div_mod, lemma_div_is_ordered};

verus! {

/// Sum of all elements.
pub open spec fn sum_int(s: Seq<int>) -> int
    decreases s.len(),
{
    if s.len() == 0 {
        0
    } else {
        sum_int(s.drop_last()) + s.last()
    }
}

pub proof fn lemma_sum_push(s: Seq<int>, x: int)
    ensures
        sum_int(s.push(x)) == sum_int(s) + x,
    decreases s.len(),
{
    assert(s.push(x).drop_last() =~= s);
    assert(s.push(x).last() == x);
}

pub proof fn lemma_sum_update(s: Seq<int>, i: int, x: int)
    requires
        0 <= i < s.len(),
    ensures
        sum_int(s.update(i, x)) == sum_int(s) - s[i] + x,
    decreases s.len(),
{
    if i == s.len() - 1 {
        assert(s.update(i, x).drop_last() =~= s.drop_last());
        assert(s.update(i, x).last() == x);
    } else {
        assert(s.update(i, x).drop_last() =~= s.drop_last().update(i, x));
        assert(s.update(i, x).last() == s.last());
        lemma_sum_update(s.drop_last(), i, x);
    }
}

pub proof fn lemma_sum_remove(s: Seq<int>, i: int)
    requires
        0 <= i < s.len(),
    ensures
        sum_int(s.remove(i)) == sum_int(s) - s[i],
    decreases s.len(),
{
    if i == s.len() - 1 {
        assert(s.remove(i) =~= s.drop_last());
    } else {
        assert(s.remove(i).drop_last() =~= s.drop_last().remove(i));
        assert(s.remove(i).last() == s.last());
        lemma_sum_remove(s.drop_last(), i);
    }
}

pub proof fn lemma_sum_insert(s: Seq<int>, i: int, x: int)
    requires
        0 <= i <= s.len(),
    ensures
        sum_int(s.insert(i, x)) == sum_int(s) + x,
{
    let t = s.insert(i, x);
    s.insert_ensures(i, x);
    lemma_sum_remove(t, i);
    assert(t.remove(i) =~= s);
}

/// Sums of a mapped sequence, under insertion of one element.
pub proof fn lemma_map_sum_insert<A>(s: Seq<A>, i: int, a: A, f: spec_fn(A) -> int)
    requires
        0 <= i <= s.len(),
    ensures
        sum_int(s.insert(i, a).map_values(f)) == sum_int(s.map_values(f)) + f(a),
{
    s.insert_ensures(i, a);
    assert(s.insert(i, a).map_values(f) =~= s.map_values(f).insert(i, f(a)));
    lemma_sum_insert(s.map_values(f), i, f(a));
}

/// Sums of a mapped sequence, under appending of one element.
pub proof fn lemma_map_sum_push<A>(s: Seq<A>, a: A, f: spec_fn(A) -> int)
    ensures
        sum_int(s.push(a).map_values(f)) == sum_int(s.map_values(f)) + f(a),
{
    assert(s.push(a).map_values(f) =~= s.map_values(f).push(f(a)));
    lemma_sum_push(s.map_values(f), f(a));
}

/// Sums of a mapped sequence, under replacement of one element.
pub proof fn lemma_map_sum_update<A>(s: Seq<A>, i: int, a: A, f: spec_fn(A) -> int)
    requires
        0 <= i < s.len(),
    ensures
        sum_int(s.update(i, a).map_values(f)) == sum_int(s.map_values(f)) - f(s[i]) + f(a),
{
    assert(s.update(i, a).map_values(f) =~= s.map_values(f).update(i, f(a)));
    lemma_sum_update(s.map_values(f), i, f(a));
}

/// Sums of a mapped sequence, under removal of one element.
pub proof fn lemma_map_sum_remove<A>(s: Seq<A>, i: int, f: spec_fn(A) -> int)
    requires
        0 <= i < s.len(),
    ensures
        sum_int(s.remove(i).map_values(f)) == sum_int(s.map_values(f)) - f(s[i]),
{
    s.remove_ensures(i);
    assert(s.remove(i).map_values(f) =~= s.map_values(f).remove(i));
    lemma_sum_remove(s.map_values(f), i);
}

/// A mapped sum of nonnegative contributions is nonnegative and bounds
/// each contribution.
pub proof fn lemma_map_sum_bounds<A>(s: Seq<A>, f: spec_fn(A) -> int)
    requires
        forall|i: int| 0 <= i < s.len() ==> f(#[trigger] s[i]) >= 0,
    ensures
        sum_int(s.map_values(f)) >= 0,
        forall|i: int| 0 <= i < s.len() ==> f(#[trigger] s[i]) <= sum_int(s.map_values(f)),
{
    assert(forall|i: int| 0 <= i < s.map_values(f).len() ==> s.map_values(f)[i] >= 0);
    lemma_sum_nonneg_bounds(s.map_values(f));
    assert forall|i: int| 0 <= i < s.len() implies f(#[trigger] s[i]) <= sum_int(
        s.map_values(f),
    ) by {
        assert(s.map_values(f)[i] == f(s[i]));
    }
}

/// A pointwise sum of two contributions sums to the sum of the sums.
pub proof fn lemma_map_sum_add_pointwise<A>(
    s: Seq<A>,
    f: spec_fn(A) -> int,
    g: spec_fn(A) -> int,
    h: spec_fn(A) -> int,
)
    requires
        forall|j: int| 0 <= j < s.len() ==> h(#[trigger] s[j]) == f(s[j]) + g(s[j]),
    ensures
        sum_int(s.map_values(h)) == sum_int(s.map_values(f)) + sum_int(s.map_values(g)),
    decreases s.len(),
{
    if s.len() > 0 {
        assert(s.map_values(h).drop_last() =~= s.drop_last().map_values(h));
        assert(s.map_values(f).drop_last() =~= s.drop_last().map_values(f));
        assert(s.map_values(g).drop_last() =~= s.drop_last().map_values(g));
        assert(s.map_values(h).last() == h(s.last()));
        assert(s.map_values(f).last() == f(s.last()));
        assert(s.map_values(g).last() == g(s.last()));
        lemma_map_sum_add_pointwise(s.drop_last(), f, g, h);
    } else {
        assert(s.map_values(h) =~= Seq::<int>::empty());
        assert(s.map_values(f) =~= Seq::<int>::empty());
        assert(s.map_values(g) =~= Seq::<int>::empty());
    }
}

/// A map that contributes nothing anywhere sums to nothing.
pub proof fn lemma_map_sum_zero<A>(s: Seq<A>, f: spec_fn(A) -> int)
    requires
        forall|j: int| 0 <= j < s.len() ==> f(#[trigger] s[j]) == 0,
    ensures
        sum_int(s.map_values(f)) == 0,
    decreases s.len(),
{
    if s.len() > 0 {
        assert(s.map_values(f).drop_last() =~= s.drop_last().map_values(f));
        assert(s.map_values(f).last() == f(s.last()));
        lemma_map_sum_zero(s.drop_last(), f);
    } else {
        assert(s.map_values(f) =~= Seq::<int>::empty());
    }
}

/// A prefix of a nonnegatively-mapped sequence sums to no more than the
/// whole.
pub proof fn lemma_map_sum_prefix_le<A>(s: Seq<A>, i: int, f: spec_fn(A) -> int)
    requires
        0 <= i <= s.len(),
        forall|j: int| 0 <= j < s.len() ==> f(#[trigger] s[j]) >= 0,
    ensures
        sum_int(s.take(i).map_values(f)) <= sum_int(s.map_values(f)),
        sum_int(s.take(i).map_values(f)) >= 0,
    decreases s.len() - i,
{
    lemma_map_sum_bounds(s.take(i), f);
    if i == s.len() {
        assert(s.take(i) =~= s);
    } else {
        assert(s.take(i + 1) =~= s.take(i).push(s[i]));
        lemma_map_sum_push(s.take(i), s[i], f);
        lemma_map_sum_prefix_le(s, i + 1, f);
    }
}

/// Pointwise-dominated contributions give a dominated sum.
pub proof fn lemma_map_sum_mono<A>(s: Seq<A>, f: spec_fn(A) -> int, g: spec_fn(A) -> int)
    requires
        forall|j: int| 0 <= j < s.len() ==> f(#[trigger] s[j]) <= g(#[trigger] s[j]),
    ensures
        sum_int(s.map_values(f)) <= sum_int(s.map_values(g)),
{
    assert(forall|j: int|
        0 <= j < s.map_values(f).len() ==> s.map_values(f)[j] <= #[trigger] s.map_values(g)[j]);
    lemma_sum_le(s.map_values(f), s.map_values(g));
}

/// A sum of nonnegative elements is nonnegative and bounds each element.
pub proof fn lemma_sum_nonneg_bounds(s: Seq<int>)
    requires
        forall|i: int| 0 <= i < s.len() ==> s[i] >= 0,
    ensures
        sum_int(s) >= 0,
        forall|i: int| 0 <= i < s.len() ==> s[i] <= sum_int(s),
    decreases s.len(),
{
    if s.len() > 0 {
        lemma_sum_nonneg_bounds(s.drop_last());
        assert forall|i: int| 0 <= i < s.len() implies s[i] <= sum_int(s) by {
            if i < s.len() - 1 {
                assert(s.drop_last()[i] == s[i]);
            }
        }
    }
}

/// Sums respect element-wise ordering.
pub proof fn lemma_sum_le(s: Seq<int>, t: Seq<int>)
    requires
        s.len() == t.len(),
        forall|i: int| 0 <= i < s.len() ==> s[i] <= t[i],
    ensures
        sum_int(s) <= sum_int(t),
    decreases s.len(),
{
    if s.len() > 0 {
        assert(forall|i: int|
            0 <= i < s.drop_last().len() ==> s.drop_last()[i] <= #[trigger] t.drop_last()[i]);
        lemma_sum_le(s.drop_last(), t.drop_last());
    }
}

/// Floored division distributes super-additively over a sum: settling
/// each share with its own floor never pays out more than the floored
/// share of the whole.
pub proof fn lemma_div_add_le(a: int, b: int, d: int)
    requires
        a >= 0,
        b >= 0,
        d >= 1,
    ensures
        a / d + b / d <= (a + b) / d,
{
    lemma_fundamental_div_mod(a, d);
    lemma_fundamental_div_mod(b, d);
    vstd::arithmetic::div_mod::lemma_mod_division_less_than_divisor(a, d);
    vstd::arithmetic::div_mod::lemma_mod_division_less_than_divisor(b, d);
    assert((a / d + b / d) * d <= a + b) by (nonlinear_arith)
        requires
            d >= 1,
            a == d * (a / d) + a % d,
            b == d * (b / d) + b % d,
            a % d >= 0,
            b % d >= 0,
    ;
    assert(((a / d + b / d) * d) / d == a / d + b / d) by (nonlinear_arith)
        requires
            d >= 1,
    ;
    lemma_div_is_ordered((a / d + b / d) * d, a + b, d);
}

/// Summing each element's floored `num/den` fraction never exceeds the
/// floored fraction of the summed elements.
pub proof fn lemma_sum_of_fractions_le(s: Seq<int>, num: int, den: int)
    requires
        forall|i: int| 0 <= i < s.len() ==> s[i] >= 0,
        num >= 0,
        den >= 1,
    ensures
        sum_int(s.map_values(|x: int| (x * num) / den)) <= (sum_int(s) * num) / den,
    decreases s.len(),
{
    let f = |x: int| (x * num) / den;
    if s.len() == 0 {
        assert(s.map_values(f) =~= Seq::<int>::empty());
    } else {
        let rest = s.drop_last();
        let x = s.last();
        assert(s.map_values(f).drop_last() =~= rest.map_values(f));
        assert(s.map_values(f).last() == f(x));
        lemma_sum_of_fractions_le(rest, num, den);
        assert(forall|i: int| 0 <= i < rest.len() ==> rest[i] >= 0);
        lemma_sum_nonneg_bounds(rest);
        vstd::arithmetic::mul::lemma_mul_nonnegative(x, num);
        vstd::arithmetic::mul::lemma_mul_nonnegative(sum_int(rest), num);
        lemma_div_add_le(sum_int(rest) * num, x * num, den);
        assert((sum_int(rest) + x) * num == sum_int(rest) * num + x * num)
            by (nonlinear_arith);
        assert(sum_int(s.map_values(f)) == sum_int(rest.map_values(f)) + f(x));
    }
}

} // verus!
