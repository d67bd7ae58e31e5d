//! Facts about whole numbers and sequences that the geometry rests on, and an
//! exact square root.

use vstd::arithmetic::div_mod::{lemma_fundamental_div_mod, lemma_mod_bound};
use vstd::prelude::*;

verus! {

/// The larger of two numbers.
pub open spec fn larger(a: int, b: int) -> int {
    if a >= b {
        a
    } else {
        b
    }
}

/// A number that bounds a sequence from below and occurs in it is its
/// minimum.
pub proof fn lemma_min_unique(s: Seq<int>, m: int, at: int)
    requires
        0 <= at < s.len(),
        s[at] == m,
        forall|k: int| 0 <= k < s.len() ==> m <= s[k],
    ensures
        s.min() == m,
{
    s.min_ensures();
    let j = choose|j: int| 0 <= j < s.len() && s[j] == s.min();
    assert(m <= s[j]);
    assert(s.min() <= s[at]);
}

/// A number that bounds a sequence from above and occurs in it is its
/// maximum.
pub proof fn lemma_max_unique(s: Seq<int>, m: int, at: int)
    requires
        0 <= at < s.len(),
        s[at] == m,
        forall|k: int| 0 <= k < s.len() ==> s[k] <= m,
    ensures
        s.max() == m,
{
    s.max_ensures();
    let j = choose|j: int| 0 <= j < s.len() && s[j] == s.max();
    assert(s[j] <= m);
    assert(s[at] <= s.max());
}

/// A filter that every element passes changes nothing.
pub proof fn lemma_filter_keeps_all<A>(s: Seq<A>, pred: spec_fn(A) -> bool)
    requires
        forall|i: int| 0 <= i < s.len() ==> pred(#[trigger] s[i]),
    ensures
        s.filter(pred) == s,
    decreases s.len(),
{
    reveal(Seq::filter);
    if s.len() > 0 {
        lemma_filter_keeps_all(s.drop_last(), pred);
        assert(s.drop_last().push(s.last()) =~= s);
    }
}

/// A filter that keeps as many elements as there are changes nothing.
pub proof fn lemma_filter_full_length<A>(s: Seq<A>, pred: spec_fn(A) -> bool)
    requires
        s.filter(pred).len() == s.len(),
    ensures
        s.filter(pred) == s,
    decreases s.len(),
{
    reveal(Seq::filter);
    if s.len() > 0 {
        s.drop_last().lemma_filter_len(pred);
        lemma_filter_full_length(s.drop_last(), pred);
        assert(s.drop_last().push(s.last()) =~= s);
    }
}

/// A product of two bounded factors is bounded by the product of the bounds.
pub proof fn lemma_product_bound(x: int, y: int, x_bound: int, y_bound: int)
    by (nonlinear_arith)
    requires
        0 <= x <= x_bound,
        0 <= y <= y_bound,
    ensures
        0 <= x * y <= x_bound * y_bound,
{
}

/// Of two numbers that are not negative, the larger has the larger square.
pub proof fn lemma_square_order(small: int, large: int)
    by (nonlinear_arith)
    requires
        0 <= small,
    ensures
        small <= large ==> small * small <= large * large,
        small < large ==> small * small < large * large,
{
}

/// The square of a sum of two numbers that are not negative is at least the
/// sum of their squares.
pub proof fn lemma_square_of_sum(a: int, b: int)
    by (nonlinear_arith)
    requires
        0 <= a,
        0 <= b,
    ensures
        (a + b) * (a + b) >= a * a + b * b,
{
}

/// Comparing a sum of two squares with a third square is not changed by a
/// common positive factor.
pub proof fn lemma_scaled_squares(a: int, b: int, k: int, factor: int)
    by (nonlinear_arith)
    requires
        factor >= 1,
    ensures
        ((factor * a) * (factor * a) + (factor * b) * (factor * b) <= (factor * k) * (factor * k))
            <==> (a * a + b * b <= k * k),
{
    assert((factor * a) * (factor * a) == (factor * factor) * (a * a));
    assert((factor * b) * (factor * b) == (factor * factor) * (b * b));
    assert((factor * k) * (factor * k) == (factor * factor) * (k * k));
    assert((factor * factor) * (a * a) + (factor * factor) * (b * b) == (factor * factor) * (a * a
        + b * b));
    assert(factor * factor >= 1);
}

/// Rounding a quotient up gives the least multiple of the divisor that
/// reaches the dividend.
pub proof fn lemma_ceil_div(x: int, d: int)
    requires
        0 <= x,
        1 <= d,
    ensures
        ((x + (d - 1)) / d) * d >= x,
        ((x + (d - 1)) / d - 1) * d < x,
        (x + (d - 1)) / d >= 0,
        x == 0 <==> (x + (d - 1)) / d == 0,
{
    let q = (x + (d - 1)) / d;
    lemma_fundamental_div_mod(x + (d - 1), d);
    lemma_mod_bound(x + (d - 1), d);
    assert(d * q == q * d) by (nonlinear_arith);
    assert((q - 1) * d == q * d - d) by (nonlinear_arith);
    if q <= 0 {
        assert(q * d <= 0) by (nonlinear_arith)
            requires
                q <= 0,
                d >= 1,
        ;
    }
    if x == 0 && q >= 1 {
        assert(q * d >= d) by (nonlinear_arith)
            requires
                q >= 1,
                d >= 1,
        ;
    }
}

/// The least whole number whose square is at least `value`.
pub fn ceil_sqrt(value: u128) -> (root: u128)
    ensures
        root * root >= value,
        root > 0 ==> (root - 1) * (root - 1) < value,
        root <= 0x1_0000_0000_0000_0000,
{
    let mut low: u128 = 0;
    let mut high: u128 = 0x1_0000_0000_0000_0000;
    assert(high * high >= value) by (nonlinear_arith)
        requires
            high == 0x1_0000_0000_0000_0000,
            value <= u128::MAX,
    ;
    while low < high
        invariant
            low <= high <= 0x1_0000_0000_0000_0000,
            high * high >= value,
            low > 0 ==> (low - 1) * (low - 1) < value,
        decreases high - low,
    {
        let middle = low + (high - low) / 2;
        proof {
            lemma_square_order(middle as int, 0xffff_ffff_ffff_ffff);
        }
        if middle * middle >= value {
            high = middle;
        } else {
            low = middle + 1;
        }
    }
    low
}

} // verus!
