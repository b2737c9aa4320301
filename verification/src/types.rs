//! Plain records exchanged with the host application.

use vstd::prelude::*;

use crate::textual::{append_dec, append_text, ascii_chars, dec_digits};

verus! {

/// One file of a torrent as shown in the file-selection list.
#[derive(Clone, Debug)]
pub struct FileInfo {
    pub index: u32,
    pub path: String,
    pub size_bytes: u64,
    pub selected: bool,
}

/// Identity and size of a managed torrent.
#[derive(Clone, Debug)]
pub struct TorrentInfo {
    pub id: u64,
    pub info_hash: String,
    pub name: String,
    pub total_bytes: u64,
}

/// User-facing state of a torrent.
#[derive(Clone, Copy, Debug, PartialEq, Eq, Structural)]
pub enum TorrentState {
    Paused,
    Initializing,
    Downloading,
    Seeding,
    Error,
}

/// Snapshot of a torrent's progress counters.
#[derive(Clone, Debug)]
pub struct TorrentStats {
    pub id: u64,
    pub state: TorrentState,
    pub downloaded_bytes: u64,
    pub total_bytes: u64,
    pub download_speed_bps: u64,
    pub upload_speed_bps: u64,
    pub peer_count: u32,
}

/// Failures reported by the engine.
#[derive(Clone, Debug)]
pub enum EngineError {
    InvalidMagnet { reason: String },
    InvalidTorrent { reason: String },
    NotFound { id: u64 },
    Io { reason: String },
    Backend { reason: String },
}

/// The text shown for an engine error: the kind of failure, then its detail.
pub open spec fn error_message(e: EngineError) -> Seq<char> {
    match e {
        EngineError::InvalidMagnet { reason } => "invalid magnet link: "@ + reason@,
        EngineError::InvalidTorrent { reason } => "invalid torrent file: "@ + reason@,
        EngineError::NotFound { id } => "torrent not found: "@ + ascii_chars(dec_digits(id as nat)),
        EngineError::Io { reason } => "io error: "@ + reason@,
        EngineError::Backend { reason } => "backend error: "@ + reason@,
    }
}

impl EngineError {
    /// The error's message (see [`error_message`]).
    pub fn message(&self) -> (r: String)
        ensures
            r@ == error_message(*self),
    {
        match self {
            EngineError::InvalidMagnet { reason } => {
                let mut s = String::from_str("invalid magnet link: ");
                append_text(&mut s, reason.as_str());
                s
            },
            EngineError::InvalidTorrent { reason } => {
                let mut s = String::from_str("invalid torrent file: ");
                append_text(&mut s, reason.as_str());
                s
            },
            EngineError::NotFound { id } => {
                let mut s = String::from_str("torrent not found: ");
                append_dec(&mut s, *id);
                s
            },
            EngineError::Io { reason } => {
                let mut s = String::from_str("io error: ");
                append_text(&mut s, reason.as_str());
                s
            },
            EngineError::Backend { reason } => {
                let mut s = String::from_str("backend error: ");
                append_text(&mut s, reason.as_str());
                s
            },
        }
    }
}

} // verus!
