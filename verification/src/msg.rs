//! Message types for the key refresh protocols

/// Messages for non-threshold (`n`-out-of-`n`) key refresh
pub mod non_threshold;
/// Messages for threshold (`t`-out-of-`n`) key refresh
pub mod threshold;
