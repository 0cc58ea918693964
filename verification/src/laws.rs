//! Laws of the operations: how what comes out is related to what goes in.
//!
//! Each law takes an operation by its contract, as `call_ensures`, and says of the arguments and
//! the result, element by element, what holds of them.
pub mod arithmetic;
pub mod blame;
pub mod curve;
pub mod digests;
pub mod el_gamal;
pub mod key_share;
pub mod non_threshold;
pub mod rounds;
pub mod security_level;
pub mod threshold;
