//! Bitcoin Wallet Connect (BWC): one-shot, mutually authenticated messages
//! between a client and a wallet through an untrusted relay.
//!
//! - [`connect`]: the connection string (`bwc://...?v=&wallet_pk=&secret=`), and
//!   in [`connect_laws`] what holds of it.
//! - [`channel`]: the v1 sealing layer, X25519 HPKE in AuthPSK mode.
//! - [`replay`]: the framing of requests, and the guard against replayed ones.
//! - [`rng`]: OS randomness for the `hpke` crate, which [`os`] asks the system for.
//! - [`hex`], [`text`]: lowercase hex and string slices.

pub mod channel;
pub mod connect;
pub mod connect_laws;
pub mod hex;
pub mod os;
pub mod replay;
pub mod rng;
pub mod text;
