//! Core of a BitTorrent client: tracker announce encoding and compact-peer parsing,
//! a local announce proxy's request handling, and the torrent registry that maps
//! stable engine ids onto the torrents of a session.

use vstd::prelude::*;

pub mod announce;
pub mod bencode;
pub mod clock;
pub mod guard;
pub mod layout;
pub mod peers;
pub mod proxy;
pub mod registry;
pub mod textual;
pub mod torrent;
pub mod types;

verus! {

/// Liveness probe for the host application.
pub fn ping() -> (r: String)
    ensures
        r@ == "pong"@,
{
    String::from_str("pong")
}

} // verus!
