//! Wire-level data representation of a BitTorrent tracker: the bencode
//! value model with its encoder and parser, compact peer lists, and the
//! assembly of announce and scrape responses.

pub mod address;
pub mod buffer;
pub mod canonical;
pub mod dict_order;
pub mod encode;
pub mod equality;
pub mod keys;
pub mod order;
pub mod parse;
pub mod peer;
pub mod proto;
pub mod response;
pub mod round_trip;
pub mod text;
pub mod value;
