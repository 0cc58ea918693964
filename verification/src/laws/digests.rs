//! What a digest binds.
use crate::bytes::byte_views;
use crate::curve::{encodings, Curve, Point, Scalar};
use crate::refresh_curve::RefreshCurve;
use crate::unambiguous::{
    commitments_digest, decommitment_digest, Echo, HashRefreshCom, RefreshMask, SchnorrPok,
};
use vstd::prelude::*;

verus! {

/// Whether the digest of decommitments gives no two inputs the same output.
pub open spec fn decommitment_digest_is_injective() -> bool {
    forall|
        c1: Seq<char>,
        t1: Seq<char>,
        r1: Seq<char>,
        f1: Seq<char>,
        s1: Seq<u8>,
        p1: u16,
        i1: Seq<u8>,
        x1: Seq<Seq<u8>>,
        y1: Seq<Seq<u8>>,
        a1: Seq<Seq<u8>>,
        d1: Seq<u8>,
        c2: Seq<char>,
        t2: Seq<char>,
        r2: Seq<char>,
        f2: Seq<char>,
        s2: Seq<u8>,
        p2: u16,
        i2: Seq<u8>,
        x2: Seq<Seq<u8>>,
        y2: Seq<Seq<u8>>,
        a2: Seq<Seq<u8>>,
        d2: Seq<u8>,
    |
        #[trigger] decommitment_digest(c1, t1, r1, f1, s1, p1, i1, x1, y1, a1, d1)
            == #[trigger] decommitment_digest(c2, t2, r2, f2, s2, p2, i2, x2, y2, a2, d2) ==> {
            &&& c1 == c2
            &&& t1 == t2
            &&& r1 == r2
            &&& f1 == f2
            &&& s1 == s2
            &&& p1 == p2
            &&& i1 == i2
            &&& x1 == x2
            &&& y1 == y2
            &&& a1 == a2
            &&& d1 == d2
        }
}

/// Whether the digest of commitments gives no two inputs the same output.
pub open spec fn commitments_digest_is_injective() -> bool {
    forall|
        t1: Seq<char>,
        r1: Seq<char>,
        s1: Seq<u8>,
        c1: Seq<Seq<u8>>,
        t2: Seq<char>,
        r2: Seq<char>,
        s2: Seq<u8>,
        c2: Seq<Seq<u8>>,
    |
        #[trigger] commitments_digest(t1, r1, s1, c1) == #[trigger] commitments_digest(
            t2,
            r2,
            s2,
            c2,
        ) ==> t1 == t2 && r1 == r2 && s1 == s2 && c1 == c2
}

/// Whether two lists of points have the same encodings, one by one.
pub open spec fn same_points<E: Curve>(a: Seq<Point<E>>, b: Seq<Point<E>>) -> bool {
    &&& a.len() == b.len()
    &&& forall|k: int|
        0 <= k < a.len() ==> (#[trigger] a[k]).encoding() == b[k].encoding()
}

/// Lists with the same encodings, taken together, have the same encodings one by one.
pub proof fn lemma_same_points<E: Curve>(a: Seq<Point<E>>, b: Seq<Point<E>>)
    ensures
        encodings(a) == encodings(b) ==> same_points(a, b),
{
    let x = encodings(a);
    let y = encodings(b);
    if x == y {
        assert(a.len() == x.len() && b.len() == y.len());
        assert forall|k: int| 0 <= k < a.len() implies (#[trigger] a[k]).encoding()
            == b[k].encoding() by {
            assert(x[k] == a[k].encoding());
            assert(y[k] == b[k].encoding());
        }
    }
}

/// A commitment binds the session, the party and every field: if no two inputs have the same
/// digest, two commitments are equal only where all of these are.
pub proof fn commitment_binds_everything<'a, 'b, E: Curve>(
    one: &HashRefreshCom<'a, E>,
    other: &HashRefreshCom<'b, E>,
    tag: &str,
    round2_tag: &str,
    points_field: &str,
    hash: Vec<u8>,
    other_hash: Vec<u8>,
)
    requires
        call_ensures(
            HashRefreshCom::<'a, E>::hash,
            (one, tag, round2_tag, points_field),
            hash,
        ),
        call_ensures(
            HashRefreshCom::<'b, E>::hash,
            (other, tag, round2_tag, points_field),
            other_hash,
        ),
        hash@ == other_hash@,
    ensures
        decommitment_digest_is_injective() ==> {
            &&& one.sid@ == other.sid@
            &&& one.prover == other.prover
            &&& one.rid@ == other.rid@
            &&& same_points(one.points@, other.points@)
            &&& same_points(one.y_points@, other.y_points@)
            &&& same_points(one.sch_commits@, other.sch_commits@)
            &&& one.decommit@ == other.decommit@
        },
{
    lemma_same_points(one.points@, other.points@);
    lemma_same_points(one.y_points@, other.y_points@);
    lemma_same_points(one.sch_commits@, other.sch_commits@);
}

/// A commitment is the digest of the fields, each in its place.
pub proof fn commitment_is_the_digest_of_the_fields<'a, E: Curve>(
    one: &HashRefreshCom<'a, E>,
    tag: &str,
    round2_tag: &str,
    points_field: &str,
    hash: Vec<u8>,
)
    requires
        call_ensures(
            HashRefreshCom::<'a, E>::hash,
            (one, tag, round2_tag, points_field),
            hash,
        ),
    ensures
        hash@ == decommitment_digest(
            E::group_name(),
            tag@,
            round2_tag@,
            points_field@,
            one.sid@,
            one.prover,
            one.rid@,
            one.points@.map_values(|p: Point<E>| p.encoding()),
            one.y_points@.map_values(|p: Point<E>| p.encoding()),
            one.sch_commits@.map_values(|p: Point<E>| p.encoding()),
            one.decommit@,
        ),
{
    assert(one.points@.map_values(|p: Point<E>| p.encoding()) =~= encodings(
        one.points@,
    ));
    assert(one.y_points@.map_values(|p: Point<E>| p.encoding()) =~= encodings(
        one.y_points@,
    ));
    assert(one.sch_commits@.map_values(|p: Point<E>| p.encoding()) =~= encodings(
        one.sch_commits@,
    ));
}

/// An echo binds the session and every commitment: if no two inputs have the same digest, two
/// echoes are equal only where all of these are.
pub proof fn echo_binds_everything<'a, 'b>(
    one: &Echo<'a>,
    other: &Echo<'b>,
    tag: &str,
    round1_tag: &str,
    hash: Vec<u8>,
    other_hash: Vec<u8>,
)
    requires
        call_ensures(Echo::<'a>::hash, (one, tag, round1_tag), hash),
        call_ensures(Echo::<'b>::hash, (other, tag, round1_tag), other_hash),
        hash@ == other_hash@,
    ensures
        commitments_digest_is_injective() ==> {
            &&& one.sid@ == other.sid@
            &&& one.commitments.len() == other.commitments.len()
            &&& forall|j: int|
                0 <= j < one.commitments.len() ==> (#[trigger] one.commitments@[j])@
                    == other.commitments@[j]@
        },
{
    let a = byte_views(one.commitments@);
    let b = byte_views(other.commitments@);
    if commitments_digest_is_injective() {
        assert(a == b);
        assert(a.len() == one.commitments.len() && b.len() == other.commitments.len());
        assert forall|j: int| 0 <= j < one.commitments.len() implies (
        #[trigger] one.commitments@[j])@ == other.commitments@[j]@ by {
            assert(a[j] == one.commitments@[j]@);
            assert(b[j] == other.commitments@[j]@);
        }
    }
}

/// A mask is drawn from the session, the identifier, both parties and the point they share.
pub proof fn mask_is_drawn_from_everything<'a, E: RefreshCurve>(
    one: &RefreshMask<'a, E>,
    tag: &str,
    mask: Scalar<E>,
)
    requires
        call_ensures(RefreshMask::<'a, E>::scalar, (one, tag), mask),
    ensures
        mask.value() == E::mask_digest(
            tag@,
            one.sid@,
            one.rid@,
            one.sender,
            one.recipient,
            one.dh_shared.encoding(),
        ),
{
}

/// A challenge is drawn from the session, the party, the identifier and both points.
pub proof fn challenge_is_drawn_from_everything<'a, E: RefreshCurve>(
    one: &SchnorrPok<'a, E>,
    tag: &str,
    challenge: Scalar<E>,
)
    requires
        call_ensures(SchnorrPok::<'a, E>::scalar, (one, tag), challenge),
    ensures
        challenge.value() == E::schnorr_digest(
            tag@,
            one.sid@,
            one.prover,
            one.rid@,
            one.X.encoding(),
            one.sch_commit.encoding(),
        ),
{
}

} // verus!
