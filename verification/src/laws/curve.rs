//! Lists of points and scalars, Schnorr proofs and polynomials.
use crate::bytes::{byte_views, xor_array};
use crate::curve::{
    copy_points, encodings, generator_multiples, log, logs, point_encodings, values, Curve, Group,
    Point, Scalar,
};
use crate::laws::arithmetic::{
    congruent_means_divisible, polynomial_is_a_sum_of_powers, sum_is_total, total,
};
use crate::modular::{congruent, lemma_congruent_mod};
use crate::polynomial::{
    are_lagrange, dot, eval, lemma_lagrange_interpolates, product_without, unit,
};
use crate::refresh_curve::{
    lagrange_coefficient, point_polynomial, scalar_polynomial, schnorr_prove, schnorr_verify,
    RefreshCurve,
};
use crate::secp256k1::Secp256k1;
use crate::secp256r1::Secp256r1;
use crate::utils::{sum, sum_points, sum_scalars};
use vstd::arithmetic::power::pow;
use vstd::arithmetic::power2::{lemma2_to64, lemma_pow2_adds, pow2};
use vstd::prelude::*;

verus! {

/// Byte by byte, an exclusive or is taken.
pub proof fn each_byte_is_combined(a: Vec<u8>, b: &[u8], xor: Vec<u8>, k: int)
    requires
        a.len() == b.len(),
        call_ensures(xor_array, (a, b), xor),
        0 <= k < a.len(),
    ensures
        xor.len() == a.len(),
        xor@[k] == a@[k] ^ b@[k],
{
}

/// Point by point, the multiples of the generator are those by the scalars.
pub proof fn each_multiple_is_taken<E: Curve>(
    scalars: &Vec<Scalar<E>>,
    points: Vec<Point<E>>,
    k: int,
)
    requires
        call_ensures(generator_multiples::<E>, (scalars,), points),
        0 <= k < scalars.len(),
    ensures
        points.len() == scalars.len(),
        points@[k].log() == scalars@[k].value(),
{
    assert(logs(points@)[k] == points@[k].log());
    assert(values(scalars@)[k] == scalars@[k].value());
}

/// Point by point, a copy is the same.
pub proof fn each_point_is_copied<E: Curve>(
    points: &Vec<Point<E>>,
    copies: Vec<Point<E>>,
    k: int,
)
    requires
        call_ensures(copy_points::<E>, (points,), copies),
        0 <= k < points.len(),
    ensures
        copies.len() == points.len(),
        copies@[k].log() == points@[k].log(),
        copies@[k].encoding() == points@[k].encoding(),
{
    assert(logs(copies@)[k] == copies@[k].log());
    assert(logs(points@)[k] == points@[k].log());
    assert(encodings(copies@)[k] == copies@[k].encoding());
    assert(encodings(points@)[k] == points@[k].encoding());
}

/// Point by point, the encodings are listed.
pub proof fn each_point_is_encoded<E: Curve>(
    points: &Vec<Point<E>>,
    bytes: Vec<Vec<u8>>,
    k: int,
)
    requires
        call_ensures(point_encodings::<E>, (points,), bytes),
        0 <= k < points.len(),
    ensures
        bytes.len() == points.len(),
        bytes@[k]@ == points@[k].encoding(),
        log::<E>(bytes@[k]@) == points@[k].log(),
{
    assert(byte_views(bytes@)[k] == bytes@[k]@);
    assert(encodings(points@)[k] == points@[k].encoding());
}

/// All scalars of a list are added, modulo the order.
pub proof fn all_scalars_are_added<E: Curve>(scalars: &Vec<Scalar<E>>, result: Scalar<E>)
    requires
        E::order() > 0,
        call_ensures(sum_scalars::<E>, (scalars,), result),
    ensures
        result.value() == total(
            Seq::new(scalars@.len(), |k: int| scalars@[k].value() as int),
        ) % (E::order() as int),
{
    let v = Seq::new(scalars@.len(), |k: int| scalars@[k].value() as int);
    assert(v =~= values(scalars@));
    sum_is_total(v);
}

/// All points of a list are added.
pub proof fn all_points_are_added<E: Curve>(points: &Vec<Point<E>>, result: Point<E>)
    requires
        E::order() > 0,
        call_ensures(sum_points::<E>, (points,), result),
    ensures
        result.log() == total(Seq::new(points@.len(), |k: int| points@[k].log() as int)) % (
        E::order() as int),
{
    let v = Seq::new(points@.len(), |k: int| points@[k].log() as int);
    assert(v =~= logs(points@));
    sum_is_total(v);
}

/// A polynomial takes the sum of its coefficients times the powers of the argument, modulo the
/// order.
pub proof fn polynomial_takes_its_values<E: RefreshCurve>(
    coefs: &Vec<Scalar<E>>,
    x: &Scalar<E>,
    value: Scalar<E>,
)
    requires
        call_ensures(scalar_polynomial::<E>, (coefs, x), value),
    ensures
        value.value() == total(
            Seq::new(
                coefs@.len(),
                |k: int| coefs@[k].value() as int * pow(x.value() as int, k as nat),
            ),
        ) % (E::order() as int),
{
    let v = values(coefs@);
    let x = x.value() as int;
    polynomial_is_a_sum_of_powers(v, x);
    assert(Seq::new(v.len(), |k: int| v[k] * pow(x, k as nat)) =~= Seq::new(
        coefs@.len(),
        |k: int| coefs@[k].value() as int * pow(x, k as nat),
    ));
}

/// A polynomial in the exponent takes the sum of its coefficients times the powers of the
/// argument.
pub proof fn polynomial_of_points_takes_its_values<E: RefreshCurve>(
    coefs: &Vec<Point<E>>,
    x: &Scalar<E>,
    value: Point<E>,
)
    requires
        call_ensures(point_polynomial::<E>, (coefs, x), value),
    ensures
        value.log() == total(
            Seq::new(
                coefs@.len(),
                |k: int| coefs@[k].log() as int * pow(x.value() as int, k as nat),
            ),
        ) % (E::order() as int),
{
    let v = logs(coefs@);
    let x = x.value() as int;
    polynomial_is_a_sum_of_powers(v, x);
    assert(Seq::new(v.len(), |k: int| v[k] * pow(x, k as nat)) =~= Seq::new(
        coefs@.len(),
        |k: int| coefs@[k].log() as int * pow(x, k as nat),
    ));
}

/// There is a Lagrange coefficient for a node if and only if no other node is the same, or is
/// the argument.
pub proof fn lagrange_coefficient_exists<E: RefreshCurve>(
    x: &Scalar<E>,
    j: usize,
    xs: &Vec<Scalar<E>>,
    lambda: Option<Scalar<E>>,
)
    requires
        j < xs.len(),
        call_ensures(lagrange_coefficient::<E>, (x, j, xs), lambda),
    ensures
        lambda is Some <==> forall|m: int|
            0 <= m < xs.len() && m != j ==> (#[trigger] xs@[m]).value() != xs@[j as int].value()
                && xs@[m].value() != x.value(),
{
    let v = values(xs@);
    assert(v.len() == xs.len());
    if lambda is Some {
        assert forall|m: int| 0 <= m < xs.len() && m != j implies (#[trigger] xs@[m]).value()
            != xs@[j as int].value() && xs@[m].value() != x.value() by {
            assert(v[m] == xs@[m].value());
            assert(v[j as int] == xs@[j as int].value());
        }
    } else {
        let m = choose|m: int|
            0 <= m < v.len() && m != j && (#[trigger] v[m] == v[j as int] || v[m] == x.value());
        assert(v[m] == xs@[m].value());
    }
}

/// Lagrange coefficients carry the values of a polynomial, with as many coefficients as there
/// are nodes, from the nodes to the argument.
pub proof fn lagrange_coefficients_interpolate<E: RefreshCurve>(
    x: &Scalar<E>,
    xs: &Vec<Scalar<E>>,
    lambdas: Seq<Scalar<E>>,
    coefs: Seq<int>,
    ys: Seq<int>,
)
    requires
        E::order() > 0,
        lambdas.len() == xs.len(),
        xs.len() <= usize::MAX,
        forall|j: usize|
            0 <= j < xs.len() ==> call_ensures(
                lagrange_coefficient::<E>,
                (x, j, xs),
                Some(#[trigger] lambdas[j as int]),
            ),
        coefs.len() == xs.len(),
        ys.len() == xs.len(),
        forall|j: int|
            0 <= j < xs.len() ==> congruent(
                eval(coefs, xs@[j].value() as int),
                #[trigger] ys[j],
                E::order(),
            ),
    ensures
        congruent(
            total(Seq::new(lambdas.len(), |j: int| lambdas[j].value() * ys[j])),
            eval(coefs, x.value() as int),
            E::order(),
        ),
{
    let q = E::order();
    let v = values(xs@);
    let l = Seq::new(lambdas.len(), |j: int| lambdas[j].value() as int);
    let terms = Seq::new(lambdas.len(), |j: int| lambdas[j].value() * ys[j]);
    assert forall|j: int| 0 <= j < v.len() implies unit(
        #[trigger] product_without(v, j, v[j]),
        q,
    ) && congruent(
        l[j] * product_without(v, j, v[j]),
        product_without(v, j, x.value() as int),
        q,
    ) by {
        let k = j as usize;
        assert(call_ensures(
            lagrange_coefficient::<E>,
            (x, k, xs),
            Some(lambdas[k as int]),
        ));
    }
    assert forall|j: int| 0 <= j < v.len() implies congruent(
        #[trigger] l[j] * product_without(v, j, v[j]),
        product_without(v, j, x.value() as int),
        q,
    ) by {
        let d = product_without(v, j, v[j]);
    }
    assert(are_lagrange(l, v, x.value() as int, q));
    assert forall|j: int| 0 <= j < v.len() implies congruent(
        eval(coefs, #[trigger] v[j]),
        ys[j],
        q,
    ) by {
        assert(v[j] == xs@[j].value());
    }
    lemma_lagrange_interpolates(coefs, v, ys, l, x.value() as int, q);
    lemma_dot_is_sum(l, ys, terms);
    sum_is_total(terms);
}

proof fn lemma_dot_is_sum(a: Seq<int>, b: Seq<int>, terms: Seq<int>)
    requires
        a.len() == b.len(),
        terms.len() == a.len(),
        forall|k: int| 0 <= k < a.len() ==> #[trigger] terms[k] == a[k] * b[k],
    ensures
        dot(a, b) == sum(terms),
    decreases a.len(),
{
    if a.len() > 0 {
        let t = terms.drop_last();
        assert forall|k: int| 0 <= k < t.len() implies #[trigger] t[k] == a.drop_last()[k]
            * b.drop_last()[k] by {
            assert(terms[k] == a[k] * b[k]);
        }
        lemma_dot_is_sum(a.drop_last(), b.drop_last(), t);
        assert(terms[terms.len() - 1] == a[a.len() - 1] * b[a.len() - 1]);
    }
}

/// A Schnorr proof passes if and only if the proof times the generator is the commitment plus
/// the challenge times the point. The answer of one who knows the secrets passes.
pub proof fn schnorr_proof_passes_if_it_holds<E: RefreshCurve>(
    proof: &Scalar<E>,
    sch_commit: &Point<E>,
    challenge: &Scalar<E>,
    x: &Point<E>,
    valid: bool,
    nonce: &Scalar<E>,
    secret: &Scalar<E>,
)
    requires
        E::order() > 0,
        call_ensures(schnorr_verify::<E>, (proof, sch_commit, challenge, x), valid),
    ensures
        valid <==> (proof.value() - sch_commit.log() - challenge.value() * x.log()) % (
        E::order() as int) == 0,
        sch_commit.log() == nonce.value() && x.log() == secret.value() && call_ensures(
            schnorr_prove::<E>,
            (nonce, challenge, secret),
            *proof,
        ) ==> valid,
{
    let q = E::order();
    let e = challenge.value();
    let right = sch_commit.log() + (e * x.log()) as int;
    congruent_means_divisible(proof.value() as int, right, q);
    lemma_congruent_mod((nonce.value() + e * secret.value()) as int, q);
}

/// The groups of the two curves have a little less than 2^256 elements.
pub proof fn orders_of_the_curves()
    ensures
        Secp256k1::order() + 432420386565659656852420866394968145599nat == pow2(256),
        Secp256r1::order() + 89188191075325690597107910205041859247nat + pow2(224) == pow2(256)
            + pow2(192),
{
    lemma2_to64();
    assert(pow2(32) == 0x100000000nat);
    assert(pow2(64) == 0x10000000000000000nat);
    lemma_pow2_adds(64, 64);
    assert(pow2(128) == 0x100000000000000000000000000000000nat) by (nonlinear_arith)
        requires
            pow2(128) == pow2(64) * pow2(64),
            pow2(64) == 0x10000000000000000nat,
    ;
    lemma_pow2_adds(128, 64);
    assert(pow2(192) == 0x1000000000000000000000000000000000000000000000000nat) by (nonlinear_arith)
        requires
            pow2(192) == pow2(128) * pow2(64),
            pow2(128) == 0x100000000000000000000000000000000nat,
            pow2(64) == 0x10000000000000000nat,
    ;
    lemma_pow2_adds(192, 32);
    assert(pow2(224) == 0x100000000000000000000000000000000000000000000000000000000nat) by (nonlinear_arith)
        requires
            pow2(224) == pow2(192) * pow2(32),
            pow2(192) == 0x1000000000000000000000000000000000000000000000000nat,
            pow2(32) == 0x100000000nat,
    ;
    lemma_pow2_adds(192, 64);
    assert(pow2(256) == 0x10000000000000000000000000000000000000000000000000000000000000000nat) by (nonlinear_arith)
        requires
            pow2(256) == pow2(192) * pow2(64),
            pow2(192) == 0x1000000000000000000000000000000000000000000000000nat,
            pow2(64) == 0x10000000000000000nat,
    ;
}

} // verus!
