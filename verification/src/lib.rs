//! Wire layer of a publish/subscribe networking protocol: a compact,
//! versioned, extensible byte encoding for network messages, together with
//! the data model of the unicast links that carry the encoded bytes.
//!
//! The codec side is built in layers: primitive integer encodings
//! ([`bytes`], [`varint`]), the self-describing extension-record chain
//! ([`exts`]), and one worked message kind ([`push`]). The link side
//! ([`link`]) models link identity, listener bookkeeping, and the
//! authenticated identity attached to a link.

pub mod bytes;
pub mod varint;
pub mod exts;
pub mod push;
pub mod link;
