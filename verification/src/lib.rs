//! A content-addressed binary delta engine.
//!
//! Given a *base* byte sequence (what a receiver already has) and an *other*
//! sequence (what a sender wants reconstructed), the engine fingerprints
//! *other* in fixed-size blocks with a rolling weak hash and a truncated
//! BLAKE3 strong hash, scans *base* with a sliding window for block matches,
//! and packages copy instructions plus residual bytes into a patch that
//! rebuilds *other* from *base* alone.

use vstd::prelude::*;

pub mod hash;
pub mod patchy;

verus! {

} // verus!
