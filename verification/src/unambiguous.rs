//! Digests of what the parties of a key refresh say, under the tags of the protocol.
use crate::bytes::byte_views;
use crate::curve::{encodings, point_encodings, Curve, Point, Scalar};
use crate::refresh_curve::RefreshCurve;
use sha2::Sha256;
use udigest::{inline_struct::InlineStruct, Bytes};
use vstd::prelude::*;

verus! {

/// The SHA-256 digest, as `udigest::hash` gives it, of a decommitment and who made it. Points
/// are encoded points of the curve of the given name; `points` is what the protocol calls them.
pub uninterp spec fn decommitment_digest(
    curve: Seq<char>,
    tag: Seq<char>,
    round2_tag: Seq<char>,
    points_field: Seq<char>,
    sid: Seq<u8>,
    prover: u16,
    rid: Seq<u8>,
    points: Seq<Seq<u8>>,
    y_points: Seq<Seq<u8>>,
    sch_commits: Seq<Seq<u8>>,
    decommit: Seq<u8>,
) -> Seq<u8>;

/// The SHA-256 digest, as `udigest::hash_iter` gives it, of the commitments of all parties.
pub uninterp spec fn commitments_digest(
    tag: Seq<char>,
    round1_tag: Seq<char>,
    sid: Seq<u8>,
    commitments: Seq<Seq<u8>>,
) -> Seq<u8>;

/// `udigest::hash::<sha2::Sha256>` on a decommitment and who made it.
///
/// The fields enter by name, those of the decommitment under a tag of their own. A point enters
/// as the name of its curve and its encoding, a Schnorr commitment as a structure with the point
/// as its only field. The result depends on nothing but the arguments.
#[verifier::external_body]
fn hash_refresh_com(
    curve: &str,
    tag: &str,
    round2_tag: &str,
    points_field: &str,
    sid: &[u8],
    prover: u16,
    rid: &[u8],
    points: &Vec<Vec<u8>>,
    y_points: &Vec<Vec<u8>>,
    sch_commits: &Vec<Vec<u8>>,
    decommit: &[u8],
) -> (hash: Vec<u8>)
    ensures
        hash@ == decommitment_digest(
            curve@,
            tag@,
            round2_tag@,
            points_field@,
            sid@,
            prover,
            rid@,
            byte_views(points@),
            byte_views(y_points@),
            byte_views(sch_commits@),
            decommit@,
        ),
{
    let p = |v: &Vec<u8>| ("curve", curve, "point", Bytes(v.clone()));
    let decommitment = InlineStruct::new()
        .add_field("rid", Bytes(rid))
        .add_field(points_field, points.iter().map(p).collect::<Vec<_>>())
        .add_field("y_points", y_points.iter().map(p).collect::<Vec<_>>())
        .add_field("sch_commits", sch_commits.iter().map(|v| ("0", p(v))).collect::<Vec<_>>())
        .add_field("decommit", Bytes(decommit))
        .set_tag(round2_tag);
    let fields = InlineStruct::new()
        .add_field("sid", ("id", Bytes(sid)))
        .add_field("prover", prover)
        .add_field("decommitment", decommitment)
        .set_tag(tag);
    udigest::hash::<Sha256>(&fields).to_vec()
}

/// `udigest::hash_iter::<sha2::Sha256>` on the commitments of all parties.
///
/// Each commitment enters as a structure with the session and the commitment, under a tag. The
/// result depends on nothing but the arguments.
#[verifier::external_body]
fn hash_echo(
    tag: &str,
    round1_tag: &str,
    sid: &[u8],
    commitments: &Vec<Vec<u8>>,
) -> (hash: Vec<u8>)
    ensures
        hash@ == commitments_digest(tag@, round1_tag@, sid@, byte_views(commitments@)),
{
    let echo = |commitment: &Vec<u8>| {
        InlineStruct::new()
            .add_field("sid", ("id", Bytes(sid)))
            .add_field(
                "commitment",
                InlineStruct::new()
                    .add_field("commitment", Bytes(commitment.clone()))
                    .set_tag(round1_tag),
            )
            .set_tag(tag)
    };
    udigest::hash_iter::<Sha256>(commitments.iter().map(echo)).to_vec()
}

/// What a party commits to in round 1.
pub struct HashRefreshCom<'a, E: Curve> {
    /// Session
    pub sid: &'a [u8],
    /// Party that commits
    pub prover: u16,
    /// Contribution to the session identifier
    pub rid: &'a Vec<u8>,
    /// Points that the protocol is about
    pub points: &'a Vec<Point<E>>,
    /// Points that masks are made of
    pub y_points: &'a Vec<Point<E>>,
    /// Commitments of the Schnorr proofs
    pub sch_commits: &'a Vec<Point<E>>,
    /// Random bytes that hide the rest
    pub decommit: &'a Vec<u8>,
}

impl<'a, E: Curve> HashRefreshCom<'a, E> {
    /// The commitment.
    pub open spec fn commitment(
        &self,
        tag: Seq<char>,
        round2_tag: Seq<char>,
        points_field: Seq<char>,
    ) -> Seq<u8> {
        decommitment_digest(
            E::group_name(),
            tag,
            round2_tag,
            points_field,
            self.sid@,
            self.prover,
            self.rid@,
            encodings(self.points@),
            encodings(self.y_points@),
            encodings(self.sch_commits@),
            self.decommit@,
        )
    }

    /// Computes the commitment.
    pub fn hash(&self, tag: &str, round2_tag: &str, points_field: &str) -> (hash: Vec<u8>)
        ensures
            hash@ == self.commitment(tag@, round2_tag@, points_field@),
    {
        hash_refresh_com(
            E::name(),
            tag,
            round2_tag,
            points_field,
            self.sid,
            self.prover,
            self.rid.as_slice(),
            &point_encodings(self.points),
            &point_encodings(self.y_points),
            &point_encodings(self.sch_commits),
            self.decommit.as_slice(),
        )
    }
}

/// What parties compare to see that all got the same commitments.
pub struct Echo<'a> {
    /// Session
    pub sid: &'a [u8],
    /// The commitments of all parties
    pub commitments: &'a Vec<Vec<u8>>,
}

impl<'a> Echo<'a> {
    /// Computes the digest of all commitments.
    pub fn hash(&self, tag: &str, round1_tag: &str) -> (hash: Vec<u8>)
        ensures
            hash@ == commitments_digest(
                tag@,
                round1_tag@,
                self.sid@,
                byte_views(self.commitments@),
            ),
    {
        hash_echo(tag, round1_tag, self.sid, self.commitments)
    }
}

/// What the mask of a share is drawn from.
pub struct RefreshMask<'a, E: RefreshCurve> {
    /// Session
    pub sid: &'a [u8],
    /// Session identifier of all parties together
    pub rid: &'a [u8],
    /// Party that masks the share
    pub sender: u16,
    /// Party that the share is for
    pub recipient: u16,
    /// Point that only the two parties know
    pub dh_shared: &'a Point<E>,
}

impl<'a, E: RefreshCurve> RefreshMask<'a, E> {
    /// Draws the mask.
    pub fn scalar(&self, tag: &str) -> (mask: Scalar<E>)
        ensures
            mask.wf(),
            mask.value() == E::mask_digest(
                tag@,
                self.sid@,
                self.rid@,
                self.sender,
                self.recipient,
                self.dh_shared.encoding(),
            ),
    {
        Scalar::from_encoding(
            E::refresh_mask(
                tag,
                self.sid,
                self.rid,
                self.sender,
                self.recipient,
                self.dh_shared.to_bytes().as_slice(),
            ),
        )
    }
}

/// What the challenge for a Schnorr proof is drawn from.
#[allow(non_snake_case)]
pub struct SchnorrPok<'a, E: RefreshCurve> {
    /// Session
    pub sid: &'a [u8],
    /// Party that proves
    pub prover: u16,
    /// Session identifier of all parties together
    pub rid: &'a [u8],
    /// Point whose logarithm the party knows
    pub X: &'a Point<E>,
    /// Commitment of the proof
    pub sch_commit: &'a Point<E>,
}

impl<'a, E: RefreshCurve> SchnorrPok<'a, E> {
    /// Draws the challenge.
    pub fn scalar(&self, tag: &str) -> (challenge: Scalar<E>)
        ensures
            challenge.wf(),
            challenge.value() == E::schnorr_digest(
                tag@,
                self.sid@,
                self.prover,
                self.rid@,
                self.X.encoding(),
                self.sch_commit.encoding(),
            ),
    {
        Scalar::from_encoding(
            E::schnorr_challenge(
                tag,
                self.sid,
                self.prover,
                self.rid,
                self.X.to_bytes().as_slice(),
                self.sch_commit.to_bytes().as_slice(),
            ),
        )
    }
}

} // verus!
