//! The first steps of a BitTorrent client: reading a metainfo document into
//! typed values, taking its info-hash, and announcing the torrent to its
//! tracker.
//!
//! A document is parsed by the streaming parser of the `bencode` crate. The
//! library runs it on well-formed documents only ([`syntax`]), nests its
//! events into a value tree ([`value`], [`parser`]) and holds the tree
//! against the bytes that it came from ([`encoding`]). The typed values are
//! read from the tree row by row of a table of fields ([`decoder_helper`],
//! [`meta_info`], [`tracker_response`]). The info-hash is the SHA-1 digest
//! ([`digest`]) of the bytes that encode the `info` value, as the document
//! holds them. [`announce`] makes the request of one announce and says what
//! its reply means; sending it is left to the caller.

pub mod announce;
pub mod decoder_helper;
pub mod digest;
pub mod encoding;
pub mod meta_info;
pub mod parser;
pub mod syntax;
pub mod text;
pub mod tracker_response;
pub mod value;
