//! Errors of key refresh.
use crate::key_share::InvalidCoreShare;
use crate::utils::AbortBlame;
use vstd::prelude::*;

verus! {

/// Key refresh protocol error
#[derive(Debug)]
pub struct KeyRefreshError(pub Reason);

/// Why key refresh failed
#[derive(Debug)]
pub enum Reason {
    /// Protocol was maliciously aborted by another party
    Aborted(ProtocolAborted),
    /// Bug occurred
    Bug(Bug),
    /// Invalid arguments were provided
    InvalidArgs(InvalidArgs),
    /// Threshold key share passed to non-threshold refresh
    NotThreshold,
    /// Additive key share passed to threshold refresh
    ExpectedThresholdShare,
}

/// Error indicating that caller supplied invalid arguments
#[derive(Debug, Clone, Copy, PartialEq, Eq, Structural)]
pub enum InvalidArgs {
    /// Fewer than `min_signers` parties take part in threshold key refresh
    NotEnoughParties,
    /// Party index `i` is not below the number of refreshing parties
    PartyIndexOutOfBounds,
    /// `parties_indexes_at_keygen` does not list distinct key share indexes, each below n
    InvalidPartiesIndexesAtKeygen,
    /// Index of the local party doesn't match index of the provided key share
    MismatchedOwnIndex,
    /// Number of refreshing parties exceeds u16
    PartiesNumberExceedsU16,
}

/// Error indicating that protocol was aborted by malicious party
#[derive(Debug)]
pub enum ProtocolAborted {
    /// Party decommitment doesn't match commitment
    InvalidDecommitment(Vec<AbortBlame>),
    /// Party provided invalid masked share
    InvalidMaskedShare(Vec<AbortBlame>),
    /// Party provided invalid schnorr proof
    InvalidSchnorrProof(Vec<AbortBlame>),
    /// Round 1 wasn't reliable
    Round1NotReliable(Vec<AbortBlame>),
}

/// Error that should not occur
#[derive(Debug, Clone, Copy, PartialEq, Eq, Structural)]
pub enum Bug {
    /// Resulting key share is not valid
    Invalid(InvalidCoreShare),
    /// Resulting secret share is zero
    ZeroSecret,
    /// Resulting public share is zero
    ZeroPublic,
    /// Key share indexes do not point into the key share
    Subset,
}

impl From<ProtocolAborted> for Reason {
    fn from(err: ProtocolAborted) -> (reason: Self) {
        Reason::Aborted(err)
    }
}

impl vstd::std_specs::convert::FromSpecImpl<ProtocolAborted> for Reason {
    open spec fn obeys_from_spec() -> bool {
        true
    }

    open spec fn from_spec(err: ProtocolAborted) -> Self {
        Reason::Aborted(err)
    }
}

impl From<Reason> for KeyRefreshError {
    fn from(reason: Reason) -> (error: Self) {
        KeyRefreshError(reason)
    }
}

impl vstd::std_specs::convert::FromSpecImpl<Reason> for KeyRefreshError {
    open spec fn obeys_from_spec() -> bool {
        true
    }

    open spec fn from_spec(reason: Reason) -> Self {
        KeyRefreshError(reason)
    }
}

impl From<ProtocolAborted> for KeyRefreshError {
    fn from(err: ProtocolAborted) -> (error: Self) {
        KeyRefreshError(Reason::from(err))
    }
}

impl vstd::std_specs::convert::FromSpecImpl<ProtocolAborted> for KeyRefreshError {
    open spec fn obeys_from_spec() -> bool {
        true
    }

    open spec fn from_spec(err: ProtocolAborted) -> Self {
        KeyRefreshError(Reason::Aborted(err))
    }
}

impl From<Bug> for KeyRefreshError {
    fn from(err: Bug) -> (error: Self) {
        KeyRefreshError(Reason::Bug(err))
    }
}

impl vstd::std_specs::convert::FromSpecImpl<Bug> for KeyRefreshError {
    open spec fn obeys_from_spec() -> bool {
        true
    }

    open spec fn from_spec(err: Bug) -> Self {
        KeyRefreshError(Reason::Bug(err))
    }
}

impl From<InvalidArgs> for KeyRefreshError {
    fn from(err: InvalidArgs) -> (error: Self) {
        KeyRefreshError(Reason::InvalidArgs(err))
    }
}

impl vstd::std_specs::convert::FromSpecImpl<InvalidArgs> for KeyRefreshError {
    open spec fn obeys_from_spec() -> bool {
        true
    }

    open spec fn from_spec(err: InvalidArgs) -> Self {
        KeyRefreshError(Reason::InvalidArgs(err))
    }
}

impl KeyRefreshError {
    /// The error that blames parties for their decommitments.
    pub open spec fn blames_decommitments(&self, blame: Seq<AbortBlame>) -> bool {
        self.0 matches Reason::Aborted(ProtocolAborted::InvalidDecommitment(list)) && list@ == blame
    }

    /// The error that blames parties for their masked shares.
    pub open spec fn blames_masked_shares(&self, blame: Seq<AbortBlame>) -> bool {
        self.0 matches Reason::Aborted(ProtocolAborted::InvalidMaskedShare(list)) && list@ == blame
    }

    /// The error that blames parties for their Schnorr proofs.
    pub open spec fn blames_schnorr_proofs(&self, blame: Seq<AbortBlame>) -> bool {
        self.0 matches Reason::Aborted(ProtocolAborted::InvalidSchnorrProof(list)) && list@ == blame
    }

    /// The error that blames parties for the commitments that they echo.
    pub open spec fn blames_echoes(&self, blame: Seq<AbortBlame>) -> bool {
        self.0 matches Reason::Aborted(ProtocolAborted::Round1NotReliable(list)) && list@ == blame
    }
}

} // verus!
