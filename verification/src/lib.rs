//! CGGMP24 key share refresh
//!
//! This crate implements share refresh from [CGGMP24] Figure 7 without Paillier/Pedersen
//! regeneration. Both [non-threshold](non_threshold) (`n`-out-of-`n`) and
//! [threshold](threshold) (`t`-out-of-`n`) refresh are supported. A party of a protocol is a
//! chain of states: each state takes the messages of a round and gives the next state, with the
//! messages to send, or an error. Sending and receiving is left to the caller.
//!
//! Besides there is a [zero-knowledge proof](dlog_with_el_gamal_commitment) of discrete log with
//! El-Gamal commitment, and the [security level](security_level) of the CGGMP21 protocol.
//!
//! Everything is generic over a [curve](curve::Curve): [secp256k1](secp256k1) and
//! [secp256r1](secp256r1) are such, and the proof also runs over a [small group](million).
//!
//! What holds of the operations, taken together or call by call, is stated and proved in
//! [laws](laws).
//!
//! [CGGMP24]: https://ia.cr/2021/060
pub mod bytes;
pub mod curve;
pub mod dlog_with_el_gamal_commitment;
pub mod errors;
pub mod integer;
pub mod key_share;
pub mod laws;
pub mod million;
pub mod modular;
pub mod msg;
pub mod natural;
pub mod non_threshold;
pub mod polynomial;
mod random;
pub mod refresh_curve;
pub mod rounds;
pub mod secp256k1;
pub mod secp256r1;
pub mod security_level;
pub mod threshold;
pub mod unambiguous;
pub mod utils;

pub use errors::KeyRefreshError;
pub use key_share::{
    DirtyIncompleteKeyShare, DirtyKeyInfo, IncompleteKeyShare, InvalidCoreShare, VssSetup,
};
pub use non_threshold::Msg as NonThresholdMsg;
pub use threshold::KeyRefreshOutput;
pub use threshold::Msg as ThresholdMsg;
