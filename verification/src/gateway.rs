//! Device-pairing records of the gateway: the persisted record of an
//! approved device and the short-lived code a client redeems to pair.

use vstd::prelude::*;

verus! {

/// An approved device: id, name, token hash, optional push token, and
/// activity timestamps.
#[derive(Debug, Clone)]
pub struct PairedDevice {
    pub id: String,
    pub name: String,
    pub token_hash: String,
    pub apns_token: Option<String>,
    pub paired_at: String,
    pub last_seen: String,
}

/// A short-lived pairing code with its creation and expiry times.
#[derive(Debug, Clone)]
pub struct PairingCode {
    pub code: String,
    pub created_at: String,
    pub expires_at: String,
}

} // verus!
