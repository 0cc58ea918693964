//! Polynomials and their interpolation modulo a number.
use crate::modular::{
    congruent, lemma_congruent_add, lemma_congruent_difference, lemma_congruent_mul,
    lemma_congruent_sub,
};
use vstd::prelude::*;

verus! {

/// The value at `x` of the polynomial with the given coefficients, the constant term first.
pub open spec fn eval(coefs: Seq<int>, x: int) -> int
    decreases coefs.len(),
{
    if coefs.len() == 0 {
        0
    } else {
        coefs[0] + x * eval(coefs.skip(1), x)
    }
}

/// Whether an integer has an inverse modulo `q`.
pub open spec fn unit(a: int, q: nat) -> bool {
    exists|b: int| #[trigger] congruent(a * b, 1, q)
}

/// Whether any two of the numbers differ by a unit modulo `q`.
pub open spec fn apart(xs: Seq<int>, q: nat) -> bool {
    forall|i: int, j: int|
        0 <= i < xs.len() && 0 <= j < xs.len() && i != j ==> #[trigger] unit(xs[i] - xs[j], q)
}

/// The product of `x - xs[m]` over all `m` but `j`.
pub open spec fn product_without(xs: Seq<int>, j: int, x: int) -> int
    decreases xs.len(),
{
    if xs.len() == 0 {
        1
    } else if j == xs.len() - 1 {
        product_without(xs.drop_last(), j, x)
    } else {
        product_without(xs.drop_last(), j, x) * (x - xs.last())
    }
}

/// The sum of the products of corresponding elements.
pub open spec fn dot(a: Seq<int>, b: Seq<int>) -> int
    decreases a.len(),
{
    if a.len() == 0 || b.len() != a.len() {
        0
    } else {
        dot(a.drop_last(), b.drop_last()) + a.last() * b.last()
    }
}

/// Whether `lambdas` are the Lagrange coefficients that carry values at `xs` to the value at
/// `x`, modulo `q`.
pub open spec fn are_lagrange(lambdas: Seq<int>, xs: Seq<int>, x: int, q: nat) -> bool {
    &&& lambdas.len() == xs.len()
    &&& forall|j: int|
        0 <= j < xs.len() ==> congruent(
            #[trigger] lambdas[j] * product_without(xs, j, xs[j]),
            product_without(xs, j, x),
            q,
        )
}

/// The coefficients of the sum of two polynomials with equally many coefficients.
pub open spec fn poly_add(c: Seq<int>, d: Seq<int>) -> Seq<int> {
    Seq::new(c.len(), |k: int| c[k] + d[k])
}

/// The coefficients of a multiple of a polynomial.
pub open spec fn poly_scale(c: Seq<int>, s: int) -> Seq<int> {
    Seq::new(c.len(), |k: int| s * c[k])
}

/// The value of a sum of polynomials is the sum of the values.
pub proof fn lemma_eval_add(c: Seq<int>, d: Seq<int>, x: int)
    requires
        c.len() == d.len(),
    ensures
        eval(poly_add(c, d), x) == eval(c, x) + eval(d, x),
    decreases c.len(),
{
    if c.len() > 0 {
        lemma_eval_add(c.skip(1), d.skip(1), x);
        assert(poly_add(c, d).skip(1) =~= poly_add(c.skip(1), d.skip(1)));
        let a = eval(c.skip(1), x);
        let b = eval(d.skip(1), x);
        assert(x * (a + b) == x * a + x * b) by (nonlinear_arith);
    }
}

/// The value of a multiple of a polynomial is the multiple of the value.
pub proof fn lemma_eval_scale(c: Seq<int>, s: int, x: int)
    ensures
        eval(poly_scale(c, s), x) == s * eval(c, x),
    decreases c.len(),
{
    if c.len() > 0 {
        lemma_eval_scale(c.skip(1), s, x);
        assert(poly_scale(c, s).skip(1) =~= poly_scale(c.skip(1), s));
        let a = eval(c.skip(1), x);
        let b = c[0];
        assert(s * b + x * (s * a) == s * (b + x * a)) by (nonlinear_arith);
    } else {
        assert(s * 0 == 0) by (nonlinear_arith);
    }
}

/// A polynomial takes its constant term at zero.
pub proof fn lemma_eval_at_zero(c: Seq<int>)
    requires
        c.len() > 0,
    ensures
        eval(c, 0) == c[0],
{
    assert(0 * eval(c.skip(1), 0) == 0) by (nonlinear_arith);
}

/// A polynomial with a zero added as highest coefficient takes the same values.
pub proof fn lemma_eval_push_zero(c: Seq<int>, x: int)
    ensures
        eval(c.push(0), x) == eval(c, x),
    decreases c.len(),
{
    if c.len() == 0 {
        assert(c.push(0).skip(1) =~= Seq::<int>::empty());
        assert(eval(c.push(0).skip(1), x) == 0);
        assert(x * 0 == 0) by (nonlinear_arith);
    } else {
        assert(c.push(0).skip(1) =~= c.skip(1).push(0));
        lemma_eval_push_zero(c.skip(1), x);
    }
}

/// The quotient of a polynomial by `x - r`.
spec fn quotient(c: Seq<int>, r: int) -> Seq<int>
    decreases c.len(),
{
    if c.len() <= 1 {
        Seq::empty()
    } else {
        seq![eval(c.skip(1), r)] + quotient(c.skip(1), r)
    }
}

proof fn lemma_quotient_len(c: Seq<int>, r: int)
    requires
        c.len() > 0,
    ensures
        quotient(c, r).len() == c.len() - 1,
    decreases c.len(),
{
    if c.len() > 1 {
        lemma_quotient_len(c.skip(1), r);
    }
}

/// Division by `x - r` leaves the value at `r`.
proof fn lemma_quotient(c: Seq<int>, r: int, x: int)
    ensures
        eval(c, x) == (x - r) * eval(quotient(c, r), x) + eval(c, r),
    decreases c.len(),
{
    let d = c.skip(1);
    if c.len() <= 1 {
        let none = quotient(c, r);
        assert(none =~= Seq::<int>::empty());
        assert(eval(none, x) == 0);
        if c.len() == 1 {
            assert(d =~= Seq::<int>::empty());
            assert(eval(d, x) == 0 && eval(d, r) == 0);
            assert(x * 0 == 0 && r * 0 == 0) by (nonlinear_arith);
            assert(eval(c, x) == c[0] + x * eval(d, x));
            assert(eval(c, r) == c[0] + r * eval(d, r));
        } else {
            assert(eval(c, x) == 0 && eval(c, r) == 0);
        }
        assert((x - r) * 0 == 0) by (nonlinear_arith);
    } else {
        lemma_quotient(d, r, x);
        let qd = eval(quotient(d, r), x);
        let dr = eval(d, r);
        let whole = quotient(c, r);
        assert(whole.skip(1) =~= quotient(d, r));
        assert(whole.len() > 0);
        assert(whole[0] == dr);
        assert(eval(whole, x) == dr + x * qd);
        let c0 = c[0];
        assert(eval(c, x) == c0 + x * ((x - r) * qd + dr));
        assert(eval(c, r) == c0 + r * dr);
        assert(c0 + x * ((x - r) * qd + dr) == (x - r) * (dr + x * qd) + (c0 + r * dr))
            by (nonlinear_arith);
    }
}

/// A unit can be cancelled.
pub proof fn lemma_unit_cancels(a: int, b: int, q: nat)
    requires
        q > 0,
        unit(a, q),
        congruent(a * b, 0, q),
    ensures
        congruent(b, 0, q),
{
    let i = choose|i: int| #[trigger] congruent(a * i, 1, q);
    lemma_congruent_mul(a * i, 1, b, b, q);
    lemma_congruent_mul(a * b, 0, i, i, q);
    assert((a * i) * b == (a * b) * i) by (nonlinear_arith);
    assert(0 * i == 0) by (nonlinear_arith);
}

/// The factors of a unit are units.
pub proof fn lemma_unit_factors(a: int, b: int, q: nat)
    requires
        unit(a * b, q),
    ensures
        unit(a, q),
        unit(b, q),
{
    let i = choose|i: int| #[trigger] congruent((a * b) * i, 1, q);
    assert((a * b) * i == a * (b * i)) by (nonlinear_arith);
    assert((a * b) * i == b * (a * i)) by (nonlinear_arith);
    assert(congruent(a * (b * i), 1, q));
    assert(congruent(b * (a * i), 1, q));
}

/// A polynomial with at least as many roots as coefficients, no two of them too close, takes
/// the value zero everywhere, modulo `q`.
pub proof fn lemma_many_roots(c: Seq<int>, roots: Seq<int>, x: int, q: nat)
    requires
        q > 0,
        c.len() <= roots.len(),
        apart(roots, q),
        forall|i: int| 0 <= i < roots.len() ==> congruent(#[trigger] eval(c, roots[i]), 0, q),
    ensures
        congruent(eval(c, x), 0, q),
    decreases c.len(),
{
    if c.len() > 0 {
        let r = roots.last();
        let rest = roots.drop_last();
        let d = quotient(c, r);
        lemma_quotient_len(c, r);
        assert(congruent(eval(c, roots[roots.len() - 1]), 0, q));
        assert forall|i: int| 0 <= i < rest.len() implies congruent(
            #[trigger] eval(d, rest[i]),
            0,
            q,
        ) by {
            let s = rest[i];
            assert(s == roots[i]);
            lemma_quotient(c, r, s);
            assert(congruent(eval(c, roots[i]), 0, q));
            lemma_congruent_sub(eval(c, s), 0, eval(c, r), 0, q);
            assert(unit(roots[i] - roots[roots.len() - 1], q));
            lemma_unit_cancels(s - r, eval(d, s), q);
        }
        assert forall|i: int, j: int|
            0 <= i < rest.len() && 0 <= j < rest.len() && i != j implies #[trigger] unit(
            rest[i] - rest[j],
            q,
        ) by {
            assert(unit(roots[i] - roots[j], q));
        }
        lemma_many_roots(d, rest, x, q);
        lemma_quotient(c, r, x);
        lemma_congruent_mul(x - r, x - r, eval(d, x), 0, q);
        assert((x - r) * 0 == 0) by (nonlinear_arith);
        lemma_congruent_add((x - r) * eval(d, x), 0, eval(c, r), 0, q);
    }
}

/// The coefficients of `product_without` as a polynomial in `x`.
spec fn coefs_without(xs: Seq<int>, j: int) -> Seq<int>
    decreases xs.len(),
{
    if xs.len() == 0 {
        seq![1]
    } else if j == xs.len() - 1 {
        coefs_without(xs.drop_last(), j)
    } else {
        times_linear(coefs_without(xs.drop_last(), j), xs.last())
    }
}

/// The coefficients of a polynomial multiplied by `x - r`.
spec fn times_linear(c: Seq<int>, r: int) -> Seq<int> {
    poly_add(seq![0int] + c, poly_scale(c, -r).push(0))
}

proof fn lemma_times_linear(c: Seq<int>, r: int, x: int)
    ensures
        times_linear(c, r).len() == c.len() + 1,
        eval(times_linear(c, r), x) == eval(c, x) * (x - r),
{
    let shifted = seq![0int] + c;
    assert(shifted.skip(1) =~= c);
    lemma_eval_add(shifted, poly_scale(c, -r).push(0), x);
    lemma_eval_push_zero(poly_scale(c, -r), x);
    lemma_eval_scale(c, -r, x);
    let v = eval(c, x);
    assert(x * v + (-r) * v == v * (x - r)) by (nonlinear_arith);
}

proof fn lemma_coefs_without(xs: Seq<int>, j: int, x: int)
    ensures
        eval(coefs_without(xs, j), x) == product_without(xs, j, x),
        0 <= j < xs.len() ==> coefs_without(xs, j).len() == xs.len(),
        !(0 <= j < xs.len()) ==> coefs_without(xs, j).len() == xs.len() + 1,
    decreases xs.len(),
{
    if xs.len() == 0 {
        assert(coefs_without(xs, j).skip(1) =~= Seq::<int>::empty());
        assert(eval(coefs_without(xs, j).skip(1), x) == 0);
        assert(x * 0 == 0) by (nonlinear_arith);
    } else {
        lemma_coefs_without(xs.drop_last(), j, x);
        if j != xs.len() - 1 {
            lemma_times_linear(coefs_without(xs.drop_last(), j), xs.last(), x);
        }
    }
}

/// The product vanishes at every one of its roots.
proof fn lemma_product_vanishes(xs: Seq<int>, j: int, i: int)
    requires
        0 <= i < xs.len(),
        i != j,
    ensures
        product_without(xs, j, xs[i]) == 0,
    decreases xs.len(),
{
    let p = product_without(xs.drop_last(), j, xs[i]);
    if i == xs.len() - 1 {
        assert(p * 0 == 0) by (nonlinear_arith);
    } else {
        lemma_product_vanishes(xs.drop_last(), j, i);
        let f = xs[i] - xs.last();
        assert(0 * f == 0) by (nonlinear_arith);
    }
}

/// If the product of all differences from `x` is a unit, every difference is one.
pub proof fn lemma_product_unit(xs: Seq<int>, j: int, x: int, i: int, q: nat)
    requires
        0 <= i < xs.len(),
        i != j,
        unit(product_without(xs, j, x), q),
    ensures
        unit(x - xs[i], q),
    decreases xs.len(),
{
    let p = product_without(xs.drop_last(), j, x);
    if j == xs.len() - 1 {
        lemma_product_unit(xs.drop_last(), j, x, i, q);
    } else {
        lemma_unit_factors(p, x - xs.last(), q);
        if i < xs.len() - 1 {
            lemma_product_unit(xs.drop_last(), j, x, i, q);
        }
    }
}

/// The first `n` terms of the interpolation polynomial through `ys` at `xs`, with `inverses`
/// undoing the denominators.
spec fn interpolant(xs: Seq<int>, ys: Seq<int>, inverses: Seq<int>, n: nat) -> Seq<int>
    decreases n,
{
    if n == 0 {
        Seq::new(xs.len(), |k: int| 0)
    } else {
        poly_add(
            interpolant(xs, ys, inverses, (n - 1) as nat),
            poly_scale(coefs_without(xs, n - 1), ys[n - 1] * inverses[n - 1]),
        )
    }
}

proof fn lemma_eval_zeros(c: Seq<int>, x: int)
    requires
        forall|k: int| 0 <= k < c.len() ==> c[k] == 0,
    ensures
        eval(c, x) == 0,
    decreases c.len(),
{
    if c.len() > 0 {
        lemma_eval_zeros(c.skip(1), x);
        assert(x * 0 == 0) by (nonlinear_arith);
    }
}

proof fn lemma_interpolant_step(
    xs: Seq<int>,
    ys: Seq<int>,
    inverses: Seq<int>,
    n: nat,
    x: int,
)
    requires
        n <= xs.len(),
    ensures
        interpolant(xs, ys, inverses, n).len() == xs.len(),
        n == 0 ==> eval(interpolant(xs, ys, inverses, n), x) == 0,
        n > 0 ==> eval(interpolant(xs, ys, inverses, n), x) == eval(
            interpolant(xs, ys, inverses, (n - 1) as nat),
            x,
        ) + (ys[n - 1] * inverses[n - 1]) * product_without(xs, n - 1, x),
    decreases n,
{
    if n == 0 {
        lemma_eval_zeros(interpolant(xs, ys, inverses, n), x);
    } else {
        lemma_interpolant_step(xs, ys, inverses, (n - 1) as nat, x);
        let s = ys[n - 1] * inverses[n - 1];
        let c = coefs_without(xs, n - 1);
        lemma_coefs_without(xs, n - 1, x);
        lemma_eval_scale(c, s, x);
        lemma_eval_add(
            interpolant(xs, ys, inverses, (n - 1) as nat),
            poly_scale(c, s),
            x,
        );
    }
}

/// At a node the terms add up to the value there, once its own term is among them.
proof fn lemma_interpolant_at_node(
    xs: Seq<int>,
    ys: Seq<int>,
    inverses: Seq<int>,
    n: nat,
    i: int,
    q: nat,
)
    requires
        q > 0,
        n <= xs.len(),
        ys.len() == xs.len(),
        inverses.len() == xs.len(),
        0 <= i < xs.len(),
        congruent(product_without(xs, i, xs[i]) * inverses[i], 1, q),
    ensures
        congruent(
            eval(interpolant(xs, ys, inverses, n), xs[i]),
            if i < n {
                ys[i]
            } else {
                0
            },
            q,
        ),
    decreases n,
{
    lemma_interpolant_step(xs, ys, inverses, n, xs[i]);
    if n > 0 {
        lemma_interpolant_at_node(xs, ys, inverses, (n - 1) as nat, i, q);
        let k = n - 1;
        let p = product_without(xs, k, xs[i]);
        let term = (ys[k] * inverses[k]) * p;
        let before = eval(interpolant(xs, ys, inverses, (n - 1) as nat), xs[i]);
        if i == k {
            assert(term == ys[i] * (p * inverses[i])) by (nonlinear_arith)
                requires
                    term == (ys[i] * inverses[i]) * p,
            ;
            lemma_congruent_mul(ys[i], ys[i], p * inverses[i], 1, q);
            lemma_congruent_add(before, 0, term, ys[i], q);
        } else {
            lemma_product_vanishes(xs, k, i);
            assert((ys[k] * inverses[k]) * 0 == 0) by (nonlinear_arith);
        }
    }
}

/// The value of the interpolation polynomial is the combination of the values by the Lagrange
/// coefficients.
proof fn lemma_interpolant_is_dot(
    xs: Seq<int>,
    ys: Seq<int>,
    inverses: Seq<int>,
    lambdas: Seq<int>,
    n: nat,
    x: int,
    q: nat,
)
    requires
        q > 0,
        n <= xs.len(),
        ys.len() == xs.len(),
        inverses.len() == xs.len(),
        are_lagrange(lambdas, xs, x, q),
        forall|j: int|
            0 <= j < xs.len() ==> congruent(
                product_without(xs, j, xs[j]) * #[trigger] inverses[j],
                1,
                q,
            ),
    ensures
        congruent(
            eval(interpolant(xs, ys, inverses, n), x),
            dot(lambdas.take(n as int), ys.take(n as int)),
            q,
        ),
    decreases n,
{
    lemma_interpolant_step(xs, ys, inverses, n, x);
    if n > 0 {
        lemma_interpolant_is_dot(xs, ys, inverses, lambdas, (n - 1) as nat, x, q);
        let k = n - 1;
        assert(lambdas.take(n as int).drop_last() =~= lambdas.take(k));
        assert(ys.take(n as int).drop_last() =~= ys.take(k));
        let p = product_without(xs, k, x);
        let d = product_without(xs, k, xs[k]);
        let l = lambdas[k];
        let e = inverses[k];
        let y = ys[k];
        assert(congruent(l * d, p, q));
        assert(congruent(d * e, 1, q));
        // l = l * d * e = p * e
        lemma_congruent_mul(l, l, d * e, 1, q);
        lemma_congruent_mul(l * d, p, e, e, q);
        assert(l * (d * e) == (l * d) * e) by (nonlinear_arith);
        assert(congruent(l, p * e, q));
        lemma_congruent_mul(p * e, l, y, y, q);
        assert((y * e) * p == (p * e) * y) by (nonlinear_arith);
        lemma_congruent_add(
            eval(interpolant(xs, ys, inverses, (n - 1) as nat), x),
            dot(lambdas.take(k), ys.take(k)),
            (y * e) * p,
            l * y,
            q,
        );
    }
}

/// Whether a polynomial with as many coefficients as there are nodes takes the values `ys` at
/// `xs`, modulo `q`.
pub open spec fn passes_through(coefs: Seq<int>, xs: Seq<int>, ys: Seq<int>, q: nat) -> bool {
    forall|i: int|
        0 <= i < xs.len() ==> congruent(eval(coefs, #[trigger] xs[i]), ys[i], q)
}

/// Inverses of all denominators.
proof fn lemma_inverses(xs: Seq<int>, n: nat, q: nat) -> (inverses: Seq<int>)
    requires
        n <= xs.len(),
        forall|j: int| 0 <= j < xs.len() ==> unit(#[trigger] product_without(xs, j, xs[j]), q),
    ensures
        inverses.len() == n,
        forall|j: int|
            0 <= j < n ==> congruent(
                product_without(xs, j, xs[j]) * #[trigger] inverses[j],
                1,
                q,
            ),
    decreases n,
{
    if n == 0 {
        Seq::empty()
    } else {
        let before = lemma_inverses(xs, (n - 1) as nat, q);
        let d = product_without(xs, n - 1, xs[n - 1]);
        assert(unit(d, q));
        let i = choose|i: int| #[trigger] congruent(d * i, 1, q);
        let inverses = before.push(i);
        assert forall|j: int| 0 <= j < n implies congruent(
            product_without(xs, j, xs[j]) * #[trigger] inverses[j],
            1,
            q,
        ) by {
            if j < n - 1 {
                assert(inverses[j] == before[j]);
            }
        }
        inverses
    }
}

/// Nodes whose denominators are units are apart.
pub proof fn lemma_units_are_apart(xs: Seq<int>, q: nat)
    requires
        forall|j: int| 0 <= j < xs.len() ==> unit(#[trigger] product_without(xs, j, xs[j]), q),
    ensures
        apart(xs, q),
{
    assert forall|i: int, j: int|
        0 <= i < xs.len() && 0 <= j < xs.len() && i != j implies #[trigger] unit(
        xs[i] - xs[j],
        q,
    ) by {
        assert(unit(product_without(xs, i, xs[i]), q));
        lemma_product_unit(xs, i, xs[i], j, q);
    }
}

/// Through any values at nodes that are apart goes a polynomial with one coefficient per node.
pub proof fn lemma_interpolation_exists(xs: Seq<int>, ys: Seq<int>, q: nat) -> (coefs: Seq<int>)
    requires
        q > 0,
        ys.len() == xs.len(),
        forall|j: int| 0 <= j < xs.len() ==> unit(#[trigger] product_without(xs, j, xs[j]), q),
    ensures
        coefs.len() == xs.len(),
        passes_through(coefs, xs, ys, q),
{
    let inverses = lemma_inverses(xs, xs.len(), q);
    let coefs = interpolant(xs, ys, inverses, xs.len());
    assert forall|i: int| 0 <= i < xs.len() implies congruent(
        eval(coefs, #[trigger] xs[i]),
        ys[i],
        q,
    ) by {
        assert(congruent(product_without(xs, i, xs[i]) * inverses[i], 1, q));
        lemma_interpolant_at_node(xs, ys, inverses, xs.len(), i, q);
    }
    lemma_interpolant_step(xs, ys, inverses, xs.len(), 0);
    coefs
}

/// Two polynomials with one coefficient per node that agree at nodes which are apart agree
/// everywhere.
pub proof fn lemma_interpolation_unique(
    c: Seq<int>,
    d: Seq<int>,
    xs: Seq<int>,
    ys: Seq<int>,
    x: int,
    q: nat,
)
    requires
        q > 0,
        c.len() == xs.len(),
        d.len() == xs.len(),
        apart(xs, q),
        passes_through(c, xs, ys, q),
        passes_through(d, xs, ys, q),
    ensures
        congruent(eval(c, x), eval(d, x), q),
{
    let minus = poly_add(c, poly_scale(d, -1));
    assert forall|v: int| #[trigger] eval(minus, v) == eval(c, v) - eval(d, v) by {
        lemma_eval_add(c, poly_scale(d, -1), v);
        lemma_eval_scale(d, -1, v);
    }
    assert forall|i: int| 0 <= i < xs.len() implies congruent(
        #[trigger] eval(minus, xs[i]),
        0,
        q,
    ) by {
        lemma_congruent_sub(eval(c, xs[i]), ys[i], eval(d, xs[i]), ys[i], q);
    }
    lemma_many_roots(minus, xs, x, q);
    lemma_congruent_difference(eval(c, x), eval(d, x), q);
}

/// The Lagrange coefficients carry the values of a polynomial, with one coefficient per node,
/// at the nodes to its value at `x`.
pub proof fn lemma_lagrange_interpolates(
    coefs: Seq<int>,
    xs: Seq<int>,
    ys: Seq<int>,
    lambdas: Seq<int>,
    x: int,
    q: nat,
)
    requires
        q > 0,
        coefs.len() == xs.len(),
        ys.len() == xs.len(),
        passes_through(coefs, xs, ys, q),
        are_lagrange(lambdas, xs, x, q),
        forall|j: int| 0 <= j < xs.len() ==> unit(#[trigger] product_without(xs, j, xs[j]), q),
    ensures
        congruent(eval(coefs, x), dot(lambdas, ys), q),
{
    let inverses = lemma_inverses(xs, xs.len(), q);
    let l = interpolant(xs, ys, inverses, xs.len());
    lemma_interpolant_step(xs, ys, inverses, xs.len(), 0);
    assert forall|i: int| 0 <= i < xs.len() implies congruent(
        eval(l, #[trigger] xs[i]),
        ys[i],
        q,
    ) by {
        assert(congruent(product_without(xs, i, xs[i]) * inverses[i], 1, q));
        lemma_interpolant_at_node(xs, ys, inverses, xs.len(), i, q);
    }
    lemma_units_are_apart(xs, q);
    lemma_interpolation_unique(coefs, l, xs, ys, x, q);
    lemma_interpolant_is_dot(xs, ys, inverses, lambdas, xs.len(), x, q);
    assert(lambdas.take(xs.len() as int) =~= lambdas);
    assert(ys.take(xs.len() as int) =~= ys);
}

} // verus!
