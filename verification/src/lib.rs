//! The local state machines of a suite of threshold protocols over secp256k1: batched
//! generation of random sharings, opening, multiplication with opening, inversion and
//! recovery of public keys, with the verifiable secret sharing that they share.

pub mod brng;
pub mod group;
pub mod inv;
pub mod mulopen;
pub mod open;
pub mod params;
pub mod reed_solomon;
pub mod rkpg;
pub mod rng;
pub mod scalar;
pub mod sss;
pub mod testutil;
pub mod util;
pub mod vss;
