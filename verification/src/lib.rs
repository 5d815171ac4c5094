//! Quorum certificates over content hashes, and the canonical hashing of the
//! storage containers whose digests get certified.
//!
//! One half of the crate is about certificates: votes are gathered into a
//! certificate, whose signatures stand in a canonical order, and a certificate is
//! verified against a committee and bound to the value that it is about. The
//! other half is about hashes: a register, a log, a queue, a map and a collection
//! of containers each have a hash, which is the digest of a canonical encoding of
//! what they hold and of nothing else.

pub mod certificate;
pub mod collection;
pub mod committee;
pub mod crypto;
pub mod data_types;
pub mod encoding;
pub mod hasher;
pub mod map;
pub mod ordered;
pub mod quorum;
pub mod signatures;
pub mod views;
