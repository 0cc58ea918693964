//! Key shares.
use crate::curve::{logs, values, Curve};
use crate::key_share::{
    distinct, nonzero, shares_of, sharing, DirtyIncompleteKeyShare, DirtyKeyInfo,
    IncompleteKeyShare, InvalidCoreShare, VssSetup,
};
use crate::laws::arithmetic::{congruent_means_divisible, sum_is_total, total};
use crate::modular::congruent;
use crate::polynomial::eval;
use crate::refresh_curve::RefreshCurve;
use crate::utils::sum;
use vstd::prelude::*;

verus! {

/// Whether public shares lie on a polynomial with as many coefficients as the threshold says,
/// which takes the public key at zero, in the exponent.
pub open spec fn on_a_polynomial<E: Curve>(info: DirtyKeyInfo<E>, vss: VssSetup<E>) -> bool {
    exists|f: Seq<int>| #[trigger] carries_the_key(f, info, vss)
}

/// Whether a polynomial is the one that public shares lie on.
pub open spec fn carries_the_key<E: Curve>(
    f: Seq<int>,
    info: DirtyKeyInfo<E>,
    vss: VssSetup<E>,
) -> bool {
    let q = E::order() as int;
    &&& f.len() == vss.min_signers
    &&& (eval(f, 0) - info.shared_public_key.log()) % q == 0
    &&& forall|k: int|
        0 <= k < info.public_shares.len() ==> (eval(f, vss.I@[k].value() as int) - (
        #[trigger] info.public_shares@[k]).log()) % q == 0
}

/// Whether a key share is as it should be:
///
/// - there is a public share for this party, and not more of them than an index can count
/// - nothing in it is zero
/// - the public share of the party is the multiple of the generator by its secret share
/// - the public shares add up to the public key or, where there is a threshold of at least two
///   and at most all parties, with as many distinct share indexes as public shares, lie on a
///   polynomial for it.
pub open spec fn is_sound<E: Curve>(share: DirtyIncompleteKeyShare<E>) -> bool {
    let info = share.key_info;
    let n = info.public_shares.len();
    &&& share.i < n <= 65535
    &&& share.x.value() != 0
    &&& info.shared_public_key.log() != 0
    &&& forall|k: int| 0 <= k < n ==> (#[trigger] info.public_shares@[k]).log() != 0
    &&& share.x.value() == info.public_shares@[share.i as int].log()
    &&& match info.vss_setup {
        None => (total(Seq::new(n as nat, |k: int| info.public_shares@[k].log() as int))
            - info.shared_public_key.log()) % (E::order() as int) == 0,
        Some(vss) => {
            &&& vss.I.len() == n
            &&& 2 <= vss.min_signers <= n
            &&& forall|k: int| 0 <= k < n ==> (#[trigger] vss.I@[k]).value() != 0
            &&& forall|k: int, m: int|
                0 <= k < m < n ==> (#[trigger] vss.I@[k]).value() != (
                #[trigger] vss.I@[m]).value()
            &&& on_a_polynomial(info, vss)
        },
    }
}

proof fn lemma_on_a_polynomial<E: Curve>(info: DirtyKeyInfo<E>, vss: VssSetup<E>)
    requires
        E::order() > 0,
        vss.I.len() == info.public_shares.len(),
    ensures
        on_a_polynomial(info, vss) == shares_of(
            values(vss.I@),
            logs(info.public_shares@),
            vss.min_signers as nat,
            info.shared_public_key.log() as int,
            E::order(),
        ),
{
    let xs = values(vss.I@);
    let ys = logs(info.public_shares@);
    let pk = info.shared_public_key.log() as int;
    let t = vss.min_signers as nat;
    let q = E::order();
    assert forall|f: Seq<int>| #[trigger] carries_the_key(f, info, vss) == sharing(
        f,
        xs,
        ys,
        t,
        pk,
        q,
    ) by {
        congruent_means_divisible(eval(f, 0), pk, q);
        assert forall|k: int| 0 <= k < xs.len() implies congruent(eval(f, xs[k]), ys[k], q) == ((
        eval(f, vss.I@[k].value() as int) - info.public_shares@[k].log()) % (q as int) == 0) by {
            congruent_means_divisible(eval(f, xs[k]), ys[k], q);
        }
        if carries_the_key(f, info, vss) {
            assert forall|k: int| 0 <= k < xs.len() implies congruent(
                eval(f, #[trigger] xs[k]),
                ys[k],
                q,
            ) by {
                let point = info.public_shares@[k];
            }
        }
        if sharing(f, xs, ys, t, pk, q) {
            assert forall|k: int| 0 <= k < info.public_shares.len() implies (eval(
                f,
                vss.I@[k].value() as int,
            ) - (#[trigger] info.public_shares@[k]).log()) % (q as int) == 0 by {
                assert(congruent(eval(f, xs[k]), ys[k], q));
            }
        }
    }
    if on_a_polynomial(info, vss) {
        let f = choose|f: Seq<int>| #[trigger] carries_the_key(f, info, vss);
        assert(sharing(f, xs, ys, t, pk, q));
    }
    if shares_of(xs, ys, t, pk, q) {
        let f = choose|f: Seq<int>| #[trigger] sharing(f, xs, ys, t, pk, q);
        assert(carries_the_key(f, info, vss));
    }
}

proof fn lemma_nonzero<E: Curve>(info: DirtyKeyInfo<E>)
    ensures
        nonzero(logs(info.public_shares@)) <==> forall|k: int|
            0 <= k < info.public_shares.len() ==> (#[trigger] info.public_shares@[k]).log() != 0,
{
    let l = logs(info.public_shares@);
    if nonzero(l) {
        assert forall|k: int| 0 <= k < info.public_shares.len() implies (
        #[trigger] info.public_shares@[k]).log() != 0 by {
            assert(l[k] != 0);
        }
    }
}

proof fn lemma_indexes<E: Curve>(vss: VssSetup<E>)
    ensures
        nonzero(values(vss.I@)) <==> forall|k: int|
            0 <= k < vss.I.len() ==> (#[trigger] vss.I@[k]).value() != 0,
        distinct(values(vss.I@)) <==> forall|k: int, m: int|
            0 <= k < m < vss.I.len() ==> (#[trigger] vss.I@[k]).value() != (
            #[trigger] vss.I@[m]).value(),
{
    let v = values(vss.I@);
    if nonzero(v) {
        assert forall|k: int| 0 <= k < vss.I.len() implies (#[trigger] vss.I@[k]).value()
            != 0 by {
            assert(v[k] != 0);
        }
    }
    if distinct(v) {
        assert forall|k: int, m: int| 0 <= k < m < vss.I.len() implies (
        #[trigger] vss.I@[k]).value() != (#[trigger] vss.I@[m]).value() by {
            assert(v[k] != v[m]);
        }
    }
}

/// A key share passes if and only if it is as it should be, and comes out as it went in.
pub proof fn sound_shares_pass<E: RefreshCurve>(
    share: DirtyIncompleteKeyShare<E>,
    result: Result<IncompleteKeyShare<E>, InvalidCoreShare>,
)
    requires
        E::order() > 0,
        call_ensures(DirtyIncompleteKeyShare::<E>::validate, (share,), result),
    ensures
        result is Ok <==> is_sound(share),
        result matches Ok(valid) ==> valid.inner() == share,
{
    lemma_valid_is_sound(share);
}

/// A valid key share is one that is as it should be.
pub proof fn lemma_valid_is_sound<E: Curve>(share: DirtyIncompleteKeyShare<E>)
    requires
        E::order() > 0,
    ensures
        share.valid() == is_sound(share),
{
    let info = share.key_info;
    let l = logs(info.public_shares@);
    let pk = info.shared_public_key.log() as int;
    lemma_nonzero(info);
    assert(l.len() == info.public_shares.len());
    assert(l =~= Seq::new(
        info.public_shares.len() as nat,
        |k: int| info.public_shares@[k].log() as int,
    ));
    sum_is_total(l);
    congruent_means_divisible(sum(l), pk, E::order());
    match info.vss_setup {
        None => {},
        Some(vss) => {
            assert(values(vss.I@).len() == vss.I.len());
            lemma_indexes(vss);
            if vss.I.len() == info.public_shares.len() {
                lemma_on_a_polynomial(info, vss);
            }
        },
    }
}

/// What a key share is refused for is wrong with it.
pub proof fn refusal_names_what_is_wrong<E: RefreshCurve>(
    share: DirtyIncompleteKeyShare<E>,
    error: InvalidCoreShare,
)
    requires
        E::order() > 0,
        call_ensures(DirtyIncompleteKeyShare::<E>::validate, (share,), Err(error)),
    ensures
        ({
            let info = share.key_info;
            let n = info.public_shares.len();
            match error {
                InvalidCoreShare::PartiesNumberExceedsU16 => n > 65535,
                InvalidCoreShare::PartyIndexOutOfBounds => share.i >= n,
                InvalidCoreShare::ZeroShare => {
                    ||| share.x.value() == 0
                    ||| info.shared_public_key.log() == 0
                    ||| exists|k: int|
                        0 <= k < n && (#[trigger] info.public_shares@[k]).log() == 0
                    ||| info.vss_setup matches Some(vss) && exists|k: int|
                        0 <= k < vss.I.len() && (#[trigger] vss.I@[k]).value() == 0
                },
                InvalidCoreShare::PartySecretShareDoesntMatchPublicShare => share.x.value()
                    != info.public_shares@[share.i as int].log(),
                InvalidCoreShare::ILen => info.vss_setup matches Some(vss) && vss.I.len() != n,
                InvalidCoreShare::ThresholdTooSmall => info.vss_setup matches Some(vss)
                    && vss.min_signers < 2,
                InvalidCoreShare::ThresholdTooLarge => info.vss_setup matches Some(vss)
                    && vss.min_signers > n,
                InvalidCoreShare::INotPairwiseDistinct => info.vss_setup matches Some(vss)
                    && exists|k: int, m: int|
                    0 <= k < m < vss.I.len() && (#[trigger] vss.I@[k]).value() == (
                    #[trigger] vss.I@[m]).value(),
                InvalidCoreShare::SharesDontMatchPublicKey => match info.vss_setup {
                    None => (total(
                        Seq::new(n as nat, |k: int| info.public_shares@[k].log() as int),
                    ) - info.shared_public_key.log()) % (E::order() as int) != 0,
                    Some(vss) => !on_a_polynomial(info, vss),
                },
            }
        }),
{
    let info = share.key_info;
    let l = logs(info.public_shares@);
    let pk = info.shared_public_key.log() as int;
    lemma_nonzero(info);
    assert(l.len() == info.public_shares.len());
    assert(l =~= Seq::new(
        info.public_shares.len() as nat,
        |k: int| info.public_shares@[k].log() as int,
    ));
    sum_is_total(l);
    congruent_means_divisible(sum(l), pk, E::order());
    match info.vss_setup {
        None => {},
        Some(vss) => {
            assert(values(vss.I@).len() == vss.I.len());
            lemma_indexes(vss);
            if vss.I.len() == info.public_shares.len() {
                lemma_on_a_polynomial(info, vss);
            }
        },
    }
}

} // verus!
