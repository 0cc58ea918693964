//! Key shares: a party's secret share of a key and the public shares of all parties.
use crate::curve::{logs, values, Curve, Point, Scalar};
use crate::modular::{congruent, lemma_congruent_add, lemma_congruent_mod, lemma_congruent_small};
use crate::polynomial::{
    are_lagrange, dot, eval, lemma_interpolation_exists, lemma_lagrange_interpolates,
    passes_through, product_without, unit,
};
use crate::refresh_curve::{lagrange_coefficient, lagrange_undefined, RefreshCurve};
use crate::utils::{sum, sum_points};
use vstd::prelude::*;

verus! {

/// Secret sharing setup of a key
#[allow(non_snake_case)]
pub struct VssSetup<E: Curve> {
    /// Threshold parameter
    pub min_signers: u16,
    /// Key shares indexes: `I[i]` corresponds to key share of i-th party
    pub I: Vec<Scalar<E>>,
}

/// Public key info
pub struct DirtyKeyInfo<E: Curve> {
    /// Public key corresponding to shared secret key
    pub shared_public_key: Point<E>,
    /// Public shares of all signers sharing the key
    pub public_shares: Vec<Point<E>>,
    /// Secret sharing setup, if any
    pub vss_setup: Option<VssSetup<E>>,
    /// Chain code associated with the key, if the key may be derived from
    pub chain_code: Option<[u8; 32]>,
}

/// Key share that may be invalid
pub struct DirtyIncompleteKeyShare<E: Curve> {
    /// Index of local party in key generation protocol
    pub i: u16,
    /// Secret share x_i
    pub x: Scalar<E>,
    /// Public key info
    pub key_info: DirtyKeyInfo<E>,
}

/// What makes a key share invalid
#[derive(Debug, Clone, Copy, PartialEq, Eq, Structural)]
pub enum InvalidCoreShare {
    /// More public shares than a party index can count
    PartiesNumberExceedsU16,
    /// Party index is not below the number of public shares
    PartyIndexOutOfBounds,
    /// Secret share, public share, public key or share index is zero
    ZeroShare,
    /// Secret share does not match the public share
    PartySecretShareDoesntMatchPublicShare,
    /// Number of share indexes is not the number of public shares
    ILen,
    /// Threshold is below two
    ThresholdTooSmall,
    /// Threshold is above the number of parties
    ThresholdTooLarge,
    /// Two parties have the same share index
    INotPairwiseDistinct,
    /// Public shares do not add up to the public key
    SharesDontMatchPublicKey,
}

/// Whether the values `ys` at `xs` lie on one polynomial with `t` coefficients that takes the
/// value `secret` at zero, modulo `q`.
pub open spec fn shares_of(xs: Seq<int>, ys: Seq<int>, t: nat, secret: int, q: nat) -> bool {
    exists|coefs: Seq<int>| #[trigger] sharing(coefs, xs, ys, t, secret, q)
}

/// Whether a polynomial with `t` coefficients shares `secret`: its value at zero is the secret,
/// and its values at `xs` are `ys`, modulo `q`.
pub open spec fn sharing(
    coefs: Seq<int>,
    xs: Seq<int>,
    ys: Seq<int>,
    t: nat,
    secret: int,
    q: nat,
) -> bool {
    &&& coefs.len() == t
    &&& congruent(eval(coefs, 0), secret, q)
    &&& passes_through(coefs, xs, ys, q)
}

/// Whether no element occurs twice.
pub open spec fn distinct(s: Seq<int>) -> bool {
    forall|i: int, j: int| 0 <= i < j < s.len() ==> #[trigger] s[i] != #[trigger] s[j]
}

/// Whether no element is zero.
pub open spec fn nonzero(s: Seq<int>) -> bool {
    forall|i: int| 0 <= i < s.len() ==> #[trigger] s[i] != 0
}

impl<E: Curve> DirtyKeyInfo<E> {
    /// What is wrong with the public info, if anything is.
    pub open spec fn problem(&self) -> Option<InvalidCoreShare> {
        let pk = self.shared_public_key.log() as int;
        let shares = logs(self.public_shares@);
        let n = shares.len();
        if n > u16::MAX {
            Some(InvalidCoreShare::PartiesNumberExceedsU16)
        } else if pk == 0 || !nonzero(shares) {
            Some(InvalidCoreShare::ZeroShare)
        } else {
            match self.vss_setup {
                None => if congruent(sum(shares), pk, E::order()) {
                    None
                } else {
                    Some(InvalidCoreShare::SharesDontMatchPublicKey)
                },
                Some(vss) => {
                    let indexes = values(vss.I@);
                    if indexes.len() != n {
                        Some(InvalidCoreShare::ILen)
                    } else if vss.min_signers < 2 {
                        Some(InvalidCoreShare::ThresholdTooSmall)
                    } else if vss.min_signers > n {
                        Some(InvalidCoreShare::ThresholdTooLarge)
                    } else if !nonzero(indexes) {
                        Some(InvalidCoreShare::ZeroShare)
                    } else if !distinct(indexes) {
                        Some(InvalidCoreShare::INotPairwiseDistinct)
                    } else if !shares_of(indexes, shares, vss.min_signers as nat, pk, E::order()) {
                        Some(InvalidCoreShare::SharesDontMatchPublicKey)
                    } else {
                        None
                    }
                },
            }
        }
    }
}

impl<E: Curve> DirtyIncompleteKeyShare<E> {
    /// What is wrong with the key share, if anything is.
    pub open spec fn problem(&self) -> Option<InvalidCoreShare> {
        let info = self.key_info.problem();
        if info is Some {
            info
        } else if self.i >= self.key_info.public_shares.len() {
            Some(InvalidCoreShare::PartyIndexOutOfBounds)
        } else if self.x.value() == 0 {
            Some(InvalidCoreShare::ZeroShare)
        } else if self.x.value() != self.key_info.public_shares@[self.i as int].log() {
            Some(InvalidCoreShare::PartySecretShareDoesntMatchPublicShare)
        } else {
            None
        }
    }

    /// Whether nothing is wrong with the key share.
    pub open spec fn valid(&self) -> bool {
        self.problem() is None
    }
}

/// The value at `x` of the polynomial that takes the values `ys` at `xs`, in the exponent.
fn interpolate<E: RefreshCurve>(
    xs: &Vec<Scalar<E>>,
    ys: &Vec<Point<E>>,
    x: &Scalar<E>,
) -> (value: Point<E>)
    requires
        xs.len() == ys.len(),
        forall|j: int|
            0 <= j < xs.len() ==> !#[trigger] lagrange_undefined(
                values(xs@),
                j,
                x.value() as int,
            ),
    ensures
        value.wf(),
        forall|j: int|
            0 <= j < xs.len() ==> unit(
                #[trigger] product_without(values(xs@), j, values(xs@)[j]),
                E::order(),
            ),
        forall|coefs: Seq<int>|
            coefs.len() == xs.len() && #[trigger] passes_through(
                coefs,
                values(xs@),
                logs(ys@),
                E::order(),
            ) ==> congruent(eval(coefs, x.value() as int), value.log() as int, E::order()),
{
    let ghost v = values(xs@);
    let ghost l = logs(ys@);
    let ghost q = E::order();
    let ghost mut lambdas: Seq<int> = Seq::empty();
    let mut total = Point::<E>::zero();
    let mut j: usize = 0;
    proof {
        total.lemma_range();
        lemma_congruent_small(0, 0, q);
        assert(l.take(0) =~= Seq::<int>::empty());
    }
    while j < xs.len()
        invariant
            j <= xs.len(),
            xs.len() == ys.len(),
            v == values(xs@),
            l == logs(ys@),
            q == E::order(),
            lambdas.len() == j,
            forall|k: int|
                0 <= k < xs.len() ==> !#[trigger] lagrange_undefined(v, k, x.value() as int),
            forall|k: int| 0 <= k < j ==> unit(#[trigger] product_without(v, k, v[k]), q),
            forall|k: int|
                0 <= k < j ==> congruent(
                    #[trigger] lambdas[k] * product_without(v, k, v[k]),
                    product_without(v, k, x.value() as int),
                    q,
                ),
            total.wf(),
            congruent(total.log() as int, dot(lambdas, l.take(j as int)), q),
        decreases xs.len() - j,
    {
        assert(!lagrange_undefined(v, j as int, x.value() as int));
        match lagrange_coefficient(x, j, xs) {
            Some(lambda) => {
                let term = ys[j].mul(&lambda);
                proof {
                    let before = lambdas;
                    let y = l[j as int];
                    let s = lambda.value() as int;
                    lambdas = before.push(s);
                    assert(lambdas.drop_last() =~= before);
                    assert(l.take(j + 1).drop_last() =~= l.take(j as int));
                    total.lemma_range();
                    lemma_congruent_mod(y * s, q);
                    assert(y * s == s * y) by (nonlinear_arith);
                    assert(y * s == (ys@[j as int].log() * lambda.value()) as int);
                    lemma_congruent_add(
                        total.log() as int,
                        dot(before, l.take(j as int)),
                        term.log() as int,
                        s * y,
                        q,
                    );
                    lemma_congruent_mod((total.log() + term.log()) as int, q);
                    assert forall|k: int| 0 <= k < j + 1 implies congruent(
                        #[trigger] lambdas[k] * product_without(v, k, v[k]),
                        product_without(v, k, x.value() as int),
                        q,
                    ) by {
                        if k < j {
                            assert(lambdas[k] == before[k]);
                        }
                    }
                }
                total = total.add(&term);
            },
            None => {},
        }
        j += 1;
    }
    proof {
        total.lemma_range();
        assert(l.take(j as int) =~= l);
        assert forall|coefs: Seq<int>|
            coefs.len() == xs.len() && #[trigger] passes_through(coefs, v, l, q) implies congruent(
            eval(coefs, x.value() as int),
            total.log() as int,
            q,
        ) by {
            assert(are_lagrange(lambdas, v, x.value() as int, q));
            lemma_lagrange_interpolates(coefs, v, l, lambdas, x.value() as int, q);
        }
    }
    total
}

/// Copies of the first scalars of a list.
fn first_scalars<E: Curve>(scalars: &Vec<Scalar<E>>, len: usize) -> (first: Vec<Scalar<E>>)
    requires
        len <= scalars.len(),
    ensures
        values(first@) == values(scalars@).take(len as int),
        first.len() == len,
{
    let mut first: Vec<Scalar<E>> = Vec::new();
    let mut k: usize = 0;
    while k < len
        invariant
            k <= len <= scalars.len(),
            first.len() == k,
            forall|m: int| 0 <= m < k ==> (#[trigger] first@[m]).value() == scalars@[m].value(),
        decreases len - k,
    {
        first.push(scalars[k].copy());
        k += 1;
    }
    assert(values(first@) =~= values(scalars@).take(len as int));
    first
}

/// Copies of the first points of a list.
fn first_points<E: Curve>(points: &Vec<Point<E>>, len: usize) -> (first: Vec<Point<E>>)
    requires
        len <= points.len(),
    ensures
        logs(first@) == logs(points@).take(len as int),
        first.len() == len,
{
    let mut first: Vec<Point<E>> = Vec::new();
    let mut k: usize = 0;
    while k < len
        invariant
            k <= len <= points.len(),
            first.len() == k,
            forall|m: int| 0 <= m < k ==> (#[trigger] first@[m]).log() == points@[m].log(),
        decreases len - k,
    {
        first.push(points[k].copy());
        k += 1;
    }
    assert(logs(first@) =~= logs(points@).take(len as int));
    first
}

/// Tells whether no scalar is zero.
fn scalars_nonzero<E: Curve>(scalars: &Vec<Scalar<E>>) -> (result: bool)
    ensures
        result == nonzero(values(scalars@)),
{
    let mut k: usize = 0;
    while k < scalars.len()
        invariant
            k <= scalars.len(),
            forall|m: int| 0 <= m < k ==> #[trigger] values(scalars@)[m] != 0,
        decreases scalars.len() - k,
    {
        if scalars[k].is_zero() {
            assert(values(scalars@)[k as int] == 0);
            return false;
        }
        k += 1;
    }
    true
}

/// Tells whether no point is the neutral element.
pub fn points_nonzero<E: Curve>(points: &Vec<Point<E>>) -> (result: bool)
    ensures
        result == nonzero(logs(points@)),
{
    let mut k: usize = 0;
    while k < points.len()
        invariant
            k <= points.len(),
            forall|m: int| 0 <= m < k ==> #[trigger] logs(points@)[m] != 0,
        decreases points.len() - k,
    {
        if points[k].is_zero() {
            assert(logs(points@)[k as int] == 0);
            return false;
        }
        k += 1;
    }
    true
}

/// Tells whether no scalar occurs twice.
fn scalars_distinct<E: Curve>(scalars: &Vec<Scalar<E>>) -> (result: bool)
    ensures
        result == distinct(values(scalars@)),
{
    let ghost v = values(scalars@);
    let mut j: usize = 0;
    while j < scalars.len()
        invariant
            v == values(scalars@),
            j <= scalars.len(),
            forall|a: int, b: int| 0 <= a < b < j ==> #[trigger] v[a] != #[trigger] v[b],
        decreases scalars.len() - j,
    {
        let mut i: usize = 0;
        while i < j
            invariant
                v == values(scalars@),
                i <= j < scalars.len(),
                forall|a: int| 0 <= a < i ==> #[trigger] v[a] != v[j as int],
            decreases j - i,
        {
            if scalars[i].equals(&scalars[j]) {
                assert(v[i as int] == v[j as int]);
                return false;
            }
            i += 1;
        }
        j += 1;
    }
    true
}

/// Tells whether public shares lie on a polynomial with `t` coefficients that takes the public
/// key at zero, in the exponent.
#[allow(non_snake_case)]
fn shares_match<E: RefreshCurve>(
    I: &Vec<Scalar<E>>,
    public_shares: &Vec<Point<E>>,
    t: usize,
    shared_public_key: &Point<E>,
) -> (result: bool)
    requires
        I.len() == public_shares.len(),
        t <= I.len(),
        nonzero(values(I@)),
        distinct(values(I@)),
    ensures
        result == shares_of(
            values(I@),
            logs(public_shares@),
            t as nat,
            shared_public_key.log() as int,
            E::order(),
        ),
{
    let ghost v = values(I@);
    let ghost l = logs(public_shares@);
    let ghost q = E::order();
    let ghost pk = shared_public_key.log() as int;
    let xs = first_scalars(I, t);
    let ys = first_points(public_shares, t);
    let zero = Scalar::<E>::zero();
    let ghost xv = values(xs@);
    let ghost yv = logs(ys@);
    proof {
        use_type_invariant(shared_public_key);
        shared_public_key.lemma_range();
        zero.lemma_range();
        assert forall|j: int| 0 <= j < t implies !#[trigger] lagrange_undefined(xv, j, 0) by {
            assert forall|m: int| 0 <= m < xv.len() && m != j implies !(#[trigger] xv[m] == xv[j]
                || xv[m] == 0) by {
                assert(xv[m] == v[m] && xv[j] == v[j]);
                if m < j {
                    assert(v[m] != v[j]);
                } else {
                    assert(v[j] != v[m]);
                }
            }
        }
        // Any sharing polynomial goes through the first shares.
        assert forall|coefs: Seq<int>| #[trigger]
            sharing(coefs, v, l, t as nat, pk, q) implies passes_through(coefs, xv, yv, q) by {
            assert forall|i: int| 0 <= i < xv.len() implies congruent(
                eval(coefs, #[trigger] xv[i]),
                yv[i],
                q,
            ) by {
                assert(xv[i] == v[i] && yv[i] == l[i]);
            }
        }
    }
    let at_zero = interpolate(&xs, &ys, &zero);
    let ghost coefs = lemma_interpolation_exists(xv, yv, q);
    proof {
        at_zero.lemma_range();
        assert(congruent(eval(coefs, 0), at_zero.log() as int, q));
        lemma_congruent_small(at_zero.log() as int, pk, q);
    }
    if !at_zero.equals(shared_public_key) {
        proof {
            assert forall|c: Seq<int>| !(#[trigger] sharing(c, v, l, t as nat, pk, q)) by {
                if sharing(c, v, l, t as nat, pk, q) {
                    assert(passes_through(c, xv, yv, q));
                    assert(congruent(eval(c, 0), at_zero.log() as int, q));
                }
            }
        }
        return false;
    }
    let mut j: usize = t;
    while j < I.len()
        invariant
            I.len() == public_shares.len(),
            t <= j <= I.len(),
            v == values(I@),
            l == logs(public_shares@),
            q == E::order(),
            xv == values(xs@),
            yv == logs(ys@),
            xs.len() == t,
            ys.len() == t,
            xv == v.take(t as int),
            yv == l.take(t as int),
            pk == shared_public_key.log() as int,
            nonzero(v),
            distinct(v),
            q > 0,
            coefs.len() == t,
            passes_through(coefs, xv, yv, q),
            congruent(eval(coefs, 0), pk, q),
            forall|c: Seq<int>| #[trigger]
                sharing(c, v, l, t as nat, pk, q) ==> passes_through(c, xv, yv, q),
            forall|k: int| t <= k < j ==> congruent(eval(coefs, #[trigger] v[k]), l[k], q),
        decreases I.len() - j,
    {
        let ghost x = v[j as int];
        proof {
            assert forall|k: int| 0 <= k < t implies !#[trigger] lagrange_undefined(xv, k, x) by {
                assert forall|m: int| 0 <= m < xv.len() && m != k implies !(#[trigger] xv[m]
                    == xv[k] || xv[m] == x) by {
                    assert(xv[m] == v[m] && xv[k] == v[k]);
                    if m < k {
                        assert(v[m] != v[k]);
                    } else {
                        assert(v[k] != v[m]);
                    }
                    assert(v[m] != v[j as int]);
                }
            }
        }
        let value = interpolate(&xs, &ys, &I[j]);
        let share = &public_shares[j];
        proof {
            value.lemma_range();
            use_type_invariant(share);
            share.lemma_range();
            assert(congruent(eval(coefs, x), value.log() as int, q));
            lemma_congruent_small(value.log() as int, l[j as int], q);
        }
        if !value.equals(share) {
            proof {
                assert forall|c: Seq<int>| !(#[trigger] sharing(c, v, l, t as nat, pk, q)) by {
                    if sharing(c, v, l, t as nat, pk, q) {
                        assert(passes_through(c, xv, yv, q));
                        assert(congruent(eval(c, x), value.log() as int, q));
                        assert(congruent(eval(c, v[j as int]), l[j as int], q));
                    }
                }
            }
            return false;
        }
        j += 1;
    }
    proof {
        assert forall|i: int| 0 <= i < v.len() implies congruent(
            eval(coefs, #[trigger] v[i]),
            l[i],
            q,
        ) by {
            if i < t {
                assert(xv[i] == v[i] && yv[i] == l[i]);
            }
        }
        assert(sharing(coefs, v, l, t as nat, pk, q));
    }
    true
}

impl<E: RefreshCurve> DirtyKeyInfo<E> {
    /// Checks the public info of a key.
    pub fn validate(&self) -> (result: Result<(), InvalidCoreShare>)
        ensures
            match result {
                Ok(()) => self.problem() is None,
                Err(error) => self.problem() == Some(error),
            },
    {
        let n: usize = self.public_shares.len();
        proof {
            assert(logs(self.public_shares@).len() == n);
        }
        if n > u16::MAX as usize {
            return Err(InvalidCoreShare::PartiesNumberExceedsU16);
        }
        if self.shared_public_key.is_zero() || !points_nonzero(&self.public_shares) {
            return Err(InvalidCoreShare::ZeroShare);
        }
        match &self.vss_setup {
            None => {
                let total = sum_points(&self.public_shares);
                let pk = &self.shared_public_key;
                proof {
                    total.lemma_range();
                    use_type_invariant(pk);
                    pk.lemma_range();
                    lemma_congruent_mod(sum(logs(self.public_shares@)), E::order());
                    lemma_congruent_small(total.log() as int, pk.log() as int, E::order());
                }
                if !total.equals(&self.shared_public_key) {
                    return Err(InvalidCoreShare::SharesDontMatchPublicKey);
                }
            },
            Some(vss) => {
                proof {
                    assert(values(vss.I@).len() == vss.I.len());
                }
                let t: usize = vss.min_signers as usize;
                if vss.I.len() != n {
                    return Err(InvalidCoreShare::ILen);
                }
                if t < 2 {
                    return Err(InvalidCoreShare::ThresholdTooSmall);
                }
                if t > n {
                    return Err(InvalidCoreShare::ThresholdTooLarge);
                }
                if !scalars_nonzero(&vss.I) {
                    return Err(InvalidCoreShare::ZeroShare);
                }
                if !scalars_distinct(&vss.I) {
                    return Err(InvalidCoreShare::INotPairwiseDistinct);
                }
                if !shares_match(&vss.I, &self.public_shares, t, &self.shared_public_key) {
                    return Err(InvalidCoreShare::SharesDontMatchPublicKey);
                }
            },
        }
        Ok(())
    }
}

impl<E: RefreshCurve> DirtyIncompleteKeyShare<E> {
    /// Checks a key share. A valid one is returned as such.
    pub fn validate(self) -> (result: Result<IncompleteKeyShare<E>, InvalidCoreShare>)
        ensures
            match result {
                Ok(share) => self.valid() && share.inner() == self,
                Err(error) => self.problem() == Some(error),
            },
    {
        if let Err(error) = self.key_info.validate() {
            return Err(error);
        }
        if self.i as usize >= self.key_info.public_shares.len() {
            return Err(InvalidCoreShare::PartyIndexOutOfBounds);
        }
        if self.x.is_zero() {
            return Err(InvalidCoreShare::ZeroShare);
        }
        let public_share = Point::generator_mul(&self.x);
        if !public_share.equals(&self.key_info.public_shares[self.i as usize]) {
            return Err(InvalidCoreShare::PartySecretShareDoesntMatchPublicShare);
        }
        Ok(IncompleteKeyShare { share: self })
    }
}

/// Valid key share
pub struct IncompleteKeyShare<E: RefreshCurve> {
    share: DirtyIncompleteKeyShare<E>,
}

impl<E: RefreshCurve> IncompleteKeyShare<E> {
    /// Holds of every such key share: nothing is wrong with it.
    #[verifier::type_invariant]
    pub closed spec fn wf(&self) -> bool {
        self.share.valid()
    }

    /// The key share as it was checked.
    pub closed spec fn inner(&self) -> DirtyIncompleteKeyShare<E> {
        self.share
    }

    /// The parts of the key share.
    pub fn as_inner(&self) -> (share: &DirtyIncompleteKeyShare<E>)
        ensures
            *share == self.inner(),
            share.valid(),
    {
        proof {
            use_type_invariant(self);
        }
        &self.share
    }

    /// The parts of the key share.
    pub fn into_inner(self) -> (share: DirtyIncompleteKeyShare<E>)
        ensures
            share == self.inner(),
            share.valid(),
    {
        proof {
            use_type_invariant(&self);
        }
        self.share
    }

    /// Number of parties that share the key.
    pub fn n(&self) -> (n: u16)
        ensures
            n == self.inner().key_info.public_shares.len(),
            n > 0,
    {
        proof {
            use_type_invariant(self);
            assert(logs(self.share.key_info.public_shares@).len()
                == self.share.key_info.public_shares.len());
        }
        self.share.key_info.public_shares.len() as u16
    }

    /// Number of parties that are needed to use the key: the threshold, or all of them.
    pub fn min_signers(&self) -> (t: u16)
        ensures
            t == match self.inner().key_info.vss_setup {
                Some(vss) => vss.min_signers as int,
                None => self.inner().key_info.public_shares.len() as int,
            },
    {
        match &self.share.key_info.vss_setup {
            Some(vss) => vss.min_signers,
            None => self.n(),
        }
    }
}

/// The secret shares behind a sequence of key shares.
pub open spec fn secrets_of<E: Curve>(shares: Seq<DirtyIncompleteKeyShare<E>>) -> Seq<int> {
    Seq::new(shares.len(), |k: int| shares[k].x.value() as int)
}

/// Whether key shares are valid and belong to one key: they name the same public key, public
/// shares, threshold and share indexes.
pub open spec fn of_one_key<E: Curve>(shares: Seq<DirtyIncompleteKeyShare<E>>) -> bool {
    forall|k: int|
        0 <= k < shares.len() ==> {
            let info = (#[trigger] shares[k]).key_info;
            let first = shares[0].key_info;
            &&& shares[k].valid()
            &&& info.shared_public_key.log() == first.shared_public_key.log()
            &&& logs(info.public_shares@) == logs(first.public_shares@)
            &&& info.vss_setup is Some == first.vss_setup is Some
            &&& info.vss_setup is Some ==> {
                &&& info.vss_setup->0.min_signers == first.vss_setup->0.min_signers
                &&& values(info.vss_setup->0.I@) == values(first.vss_setup->0.I@)
            }
        }
}

/// The secret shares of all parties of an additive key add up to the logarithm of the public
/// key. As refresh keeps the public key, they add up to the same before and after it.
pub proof fn additive_shares_add_up_to_the_key<E: Curve>(
    shares: Seq<DirtyIncompleteKeyShare<E>>,
)
    requires
        shares.len() > 0,
        of_one_key(shares),
        shares[0].key_info.vss_setup is None,
        shares.len() == shares[0].key_info.public_shares.len(),
        forall|k: int| 0 <= k < shares.len() ==> (#[trigger] shares[k]).i == k,
    ensures
        congruent(
            sum(secrets_of(shares)),
            shares[0].key_info.shared_public_key.log() as int,
            E::order(),
        ),
{
    let publics = logs(shares[0].key_info.public_shares@);
    assert(shares[0].valid());
    assert forall|k: int| 0 <= k < shares.len() implies #[trigger] secrets_of(shares)[k]
        == publics[k] by {
        assert(shares[k].valid());
        assert(shares[k].i == k);
        assert(logs(shares[k].key_info.public_shares@)[k] == publics[k]);
    }
    assert(secrets_of(shares) =~= publics);
}

/// The secret shares of as many parties as the threshold says interpolate, at zero, to the
/// logarithm of the public key. As refresh keeps the public key, they interpolate to the same
/// before and after it.
///
/// `lambdas` are the Lagrange coefficients for the share indexes `xs` of the parties, whose
/// denominators have inverses.
pub proof fn threshold_shares_interpolate_to_the_key<E: Curve>(
    shares: Seq<DirtyIncompleteKeyShare<E>>,
    xs: Seq<int>,
    lambdas: Seq<int>,
)
    requires
        E::order() > 0,
        shares.len() > 0,
        of_one_key(shares),
        shares[0].key_info.vss_setup is Some,
        shares.len() == shares[0].key_info.vss_setup->0.min_signers,
        xs.len() == shares.len(),
        forall|k: int|
            0 <= k < shares.len() ==> xs[k] == values(
                shares[0].key_info.vss_setup->0.I@,
            )[(#[trigger] shares[k]).i as int],
        are_lagrange(lambdas, xs, 0, E::order()),
        forall|j: int|
            0 <= j < xs.len() ==> unit(#[trigger] product_without(xs, j, xs[j]), E::order()),
    ensures
        congruent(
            dot(lambdas, secrets_of(shares)),
            shares[0].key_info.shared_public_key.log() as int,
            E::order(),
        ),
{
    let info = shares[0].key_info;
    let q = E::order();
    let indexes = values(info.vss_setup->0.I@);
    let publics = logs(info.public_shares@);
    let pk = info.shared_public_key.log() as int;
    let t = shares.len();
    assert(shares[0].valid());
    let f = choose|f: Seq<int>| #[trigger] sharing(f, indexes, publics, t, pk, q);
    let ys = secrets_of(shares);
    assert forall|k: int| 0 <= k < xs.len() implies congruent(
        eval(f, #[trigger] xs[k]),
        ys[k],
        q,
    ) by {
        assert(shares[k].valid());
        let i = shares[k].i as int;
        assert(xs[k] == indexes[i]);
        assert(logs(shares[k].key_info.public_shares@)[i] == publics[i]);
        assert(congruent(eval(f, indexes[i]), publics[i], q));
    }
    lemma_lagrange_interpolates(f, xs, ys, lambdas, 0, q);
}

} // verus!
