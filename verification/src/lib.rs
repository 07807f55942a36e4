//! A BitTorrent client library: bencode decoding, torrent metainfo and magnet
//! links, the peer wire protocol and tracker message handling.

pub mod bencode;
pub mod config;
pub mod num;
pub mod peer;
pub mod session;
pub mod text;
pub mod torrent;
pub mod tracker;
pub mod wire;

use vstd::prelude::*;

verus! {

/// `std::io::Error`, carried by the error types of the operations that read
/// or write a stream.
#[verifier::external_type_specification]
#[verifier::external_body]
pub struct ExIoError(std::io::Error);

} // verus!
