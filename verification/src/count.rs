use vstd::prelude::*;

verus! {

/// Number of integers `t` in `0..m` that satisfy `p`.
pub open spec fn count_below(m: int, p: spec_fn(int) -> bool) -> nat
    decreases m,
{
    if m <= 0 {
        0
    } else {
        count_below(m - 1, p) + if p(m - 1) {
            1nat
        } else {
            0nat
        }
    }
}

/// At most `m` of `m` ids satisfy anything.
pub proof fn lemma_count_at_most(m: int, p: spec_fn(int) -> bool)
    requires
        0 <= m,
    ensures
        count_below(m, p) <= m,
    decreases m,
{
    if m > 0 {
        lemma_count_at_most(m - 1, p);
    }
}

/// A weaker property holds of at least as many ids.
pub proof fn lemma_count_mono(m: int, p: spec_fn(int) -> bool, q: spec_fn(int) -> bool)
    requires
        forall|t: int| 0 <= t < m && #[trigger] p(t) ==> q(t),
    ensures
        count_below(m, p) <= count_below(m, q),
    decreases m,
{
    if m > 0 {
        lemma_count_mono(m - 1, p, q);
    }
}

/// If `q` holds of `a` and `p` does not, and `p` implies `q`, then `p` holds
/// of fewer ids than `q`.
pub proof fn lemma_count_strict(m: int, p: spec_fn(int) -> bool, q: spec_fn(int) -> bool, a: int)
    requires
        0 <= a < m,
        q(a),
        !p(a),
        forall|t: int| 0 <= t < m && #[trigger] p(t) ==> q(t),
    ensures
        count_below(m, p) + 1 <= count_below(m, q),
    decreases m,
{
    if a < m - 1 {
        lemma_count_strict(m - 1, p, q, a);
    } else {
        lemma_count_mono(m - 1, p, q);
    }
}

/// A property that only `a` may have holds of at most one id.
pub proof fn lemma_count_single(m: int, p: spec_fn(int) -> bool, a: int)
    requires
        forall|t: int| 0 <= t < m && #[trigger] p(t) ==> t == a,
    ensures
        count_below(m, p) <= 1,
    decreases m,
{
    if m > 0 {
        if p(m - 1) {
            assert forall|t: int| 0 <= t < m - 1 implies !#[trigger] p(t) by {}
            lemma_count_none(m - 1, p);
        } else {
            lemma_count_single(m - 1, p, a);
        }
    }
}

/// A property that no id has holds of none.
pub proof fn lemma_count_none(m: int, p: spec_fn(int) -> bool)
    requires
        forall|t: int| 0 <= t < m ==> !#[trigger] p(t),
    ensures
        count_below(m, p) == 0,
    decreases m,
{
    if m > 0 {
        lemma_count_none(m - 1, p);
    }
}

/// Two distinct ids that satisfy `p` count twice.
pub proof fn lemma_count_two(m: int, p: spec_fn(int) -> bool, a: int, b: int)
    requires
        0 <= a < b < m,
        p(a),
        p(b),
    ensures
        count_below(m, p) >= 2,
    decreases m,
{
    if b < m - 1 {
        lemma_count_two(m - 1, p, a, b);
    } else {
        lemma_count_one(m - 1, p, a);
    }
}

/// An id that satisfies `p` counts.
pub proof fn lemma_count_one(m: int, p: spec_fn(int) -> bool, a: int)
    requires
        0 <= a < m,
        p(a),
    ensures
        count_below(m, p) >= 1,
    decreases m,
{
    if a < m - 1 {
        lemma_count_one(m - 1, p, a);
    }
}


/// The sum of `f(t)` over the integers `t` in `0..m`.
pub open spec fn sum_below(m: int, f: spec_fn(int) -> int) -> int
    decreases m,
{
    if m <= 0 {
        0
    } else {
        sum_below(m - 1, f) + f(m - 1)
    }
}

/// A sum of terms that are not negative is not negative.
pub proof fn lemma_sum_nonneg(m: int, f: spec_fn(int) -> int)
    requires
        forall|t: int| 0 <= t < m ==> #[trigger] f(t) >= 0,
    ensures
        sum_below(m, f) >= 0,
    decreases m,
{
    if m > 0 {
        lemma_sum_nonneg(m - 1, f);
    }
}

/// When `g` exceeds `f` by at most `d` at every `t` but `a`, the sum of `g`
/// exceeds that of `f` by at most `g(a) - f(a)` plus `d` for every other
/// term.
pub proof fn lemma_sum_bound(m: int, f: spec_fn(int) -> int, g: spec_fn(int) -> int, a: int, d: int)
    requires
        0 <= a < m,
        0 <= d,
        forall|t: int| 0 <= t < m && t != a ==> #[trigger] g(t) <= f(t) + d,
    ensures
        sum_below(m, g) <= sum_below(m, f) + g(a) - f(a) + d * (m - 1),
    decreases m,
{
    if m - 1 == a {
        lemma_sum_bound_all(m - 1, f, g, d);
    } else {
        lemma_sum_bound(m - 1, f, g, a, d);
        assert(d * (m - 1) == d * (m - 2) + d) by (nonlinear_arith);
    }
}

/// When `g` exceeds `f` by at most `d` everywhere, the sum of `g` exceeds
/// that of `f` by at most `d` for every term.
pub proof fn lemma_sum_bound_all(m: int, f: spec_fn(int) -> int, g: spec_fn(int) -> int, d: int)
    requires
        0 <= m,
        forall|t: int| 0 <= t < m ==> #[trigger] g(t) <= f(t) + d,
    ensures
        sum_below(m, g) <= sum_below(m, f) + d * m,
    decreases m,
{
    if m > 0 {
        lemma_sum_bound_all(m - 1, f, g, d);
        assert(d * m == d * (m - 1) + d) by (nonlinear_arith);
    } else {
        assert(d * m == 0) by (nonlinear_arith)
            requires
                m == 0,
        ;
    }
}


/// A sum of zeros is zero.
pub proof fn lemma_sum_zero(m: int, f: spec_fn(int) -> int)
    requires
        forall|t: int| 0 <= t < m ==> #[trigger] f(t) == 0,
    ensures
        sum_below(m, f) == 0,
    decreases m,
{
    if m > 0 {
        lemma_sum_zero(m - 1, f);
    }
}

} // verus!
