//! Per-torrent decisions of the engine: validating what is added, turning session
//! readings into the records shown to the host, file selection, and the outcomes of
//! pause/resume requests.

use vstd::prelude::*;
use vstd::string::StringSliceAdditionalSpecFns;

use crate::guard::{magnet_link_hazard, magnet_parts_hazardous, torrent_file_is_hazardous, torrent_hazard};
use crate::proxy::{parse_url, parsed_url};
use crate::registry::{has_id, id_index, Entry, Registry};
use crate::textual::{
    append_ascii, ascii_chars, hex_fixed, lemma_hex_fixed_shape, lemma_push_contains, push_hex_fixed,
};
use crate::types::{EngineError, FileInfo, TorrentInfo, TorrentState, TorrentStats};

verus! {

/// A torrent's state as the session reports it.
#[derive(Clone, Copy, Debug, PartialEq, Eq, Structural)]
pub enum SessionState {
    Initializing,
    Paused,
    Live,
    Error,
}

/// The user-facing state of a torrent: a live torrent is seeding once it has finished,
/// downloading before.
pub open spec fn torrent_state(state: SessionState, finished: bool) -> TorrentState {
    match state {
        SessionState::Initializing => TorrentState::Initializing,
        SessionState::Paused => TorrentState::Paused,
        SessionState::Live => if finished {
            TorrentState::Seeding
        } else {
            TorrentState::Downloading
        },
        SessionState::Error => TorrentState::Error,
    }
}

/// Maps the session's state of a torrent to the state shown to the user.
pub fn map_torrent_state(state: SessionState, finished: bool) -> (r: TorrentState)
    ensures
        r == torrent_state(state, finished),
{
    match state {
        SessionState::Initializing => TorrentState::Initializing,
        SessionState::Paused => TorrentState::Paused,
        SessionState::Live => if finished {
            TorrentState::Seeding
        } else {
            TorrentState::Downloading
        },
        SessionState::Error => TorrentState::Error,
    }
}

/// Counters of a live torrent: speeds in bytes per second and connected peers.
#[derive(Clone, Copy, Debug)]
pub struct LiveCounters {
    pub download_bps: u64,
    pub upload_bps: u64,
    pub live_peers: usize,
}

/// The stats record of torrent `id` from the session's reading. Speeds and the peer count
/// are zero unless the torrent is live; the peer count is kept in 32 bits.
pub fn torrent_stats(
    id: u64,
    state: SessionState,
    finished: bool,
    progress_bytes: u64,
    total_bytes: u64,
    live: Option<LiveCounters>,
) -> (r: TorrentStats)
    ensures
        r.id == id,
        r.state == torrent_state(state, finished),
        r.downloaded_bytes == progress_bytes,
        r.total_bytes == total_bytes,
        r.download_speed_bps == match live {
            Some(l) => l.download_bps,
            None => 0,
        },
        r.upload_speed_bps == match live {
            Some(l) => l.upload_bps,
            None => 0,
        },
        r.peer_count == match live {
            Some(l) => l.live_peers as u32,
            None => 0,
        },
{
    let (download_speed_bps, upload_speed_bps, peer_count) = match live {
        Some(l) => (l.download_bps, l.upload_bps, l.live_peers as u32),
        None => (0, 0, 0),
    };
    TorrentStats {
        id,
        state: map_torrent_state(state, finished),
        downloaded_bytes: progress_bytes,
        total_bytes,
        download_speed_bps,
        upload_speed_bps,
        peer_count,
    }
}

/// Lowercase hexadecimal spelling of a byte string, two digits per byte.
pub open spec fn hex_text(b: Seq<u8>) -> Seq<u8>
    decreases b.len(),
{
    if b.len() == 0 {
        seq![]
    } else {
        hex_text(b.drop_last()) + hex_fixed(b.last() as nat, 2)
    }
}

proof fn lemma_hex_text_ascii(b: Seq<u8>)
    ensures
        forall|i: int| 0 <= i < hex_text(b).len() ==> #[trigger] hex_text(b)[i] < 128,
    decreases b.len(),
{
    if b.len() > 0 {
        let f = hex_text(b.drop_last());
        let h = hex_fixed(b.last() as nat, 2);
        lemma_hex_text_ascii(b.drop_last());
        lemma_hex_fixed_shape(b.last() as nat, 2);
        assert forall|i: int| 0 <= i < hex_text(b).len() implies #[trigger] hex_text(b)[i] < 128 by {
            if i >= f.len() {
                assert(hex_text(b)[i] == h[i - f.len()]);
            } else {
                assert(hex_text(b)[i] == f[i]);
            }
        }
    }
}

/// The info hash as 40 lowercase hexadecimal digits.
pub fn info_hash_hex(info_hash: &[u8; 20]) -> (r: String)
    ensures
        r@ == ascii_chars(hex_text(info_hash@)),
{
    let mut b: Vec<u8> = Vec::new();
    let mut i: usize = 0;
    while i < 20
        invariant
            i <= 20,
            info_hash@.len() == 20,
            b@ == hex_text(info_hash@.take(i as int)),
        decreases 20 - i,
    {
        assert(info_hash@.take(i + 1).drop_last() =~= info_hash@.take(i as int));
        push_hex_fixed(&mut b, info_hash[i] as u64, 2);
        i = i + 1;
    }
    assert(info_hash@.take(20) =~= info_hash@);
    proof {
        lemma_hex_text_ascii(info_hash@);
    }
    let mut s = String::new();
    append_ascii(&mut s, b.as_slice());
    s
}

pub open spec fn opt_text(o: Option<String>) -> Option<Seq<char>> {
    match o {
        Some(s) => Some(s@),
        None => None,
    }
}

/// The name shown for a torrent: the session's name once metadata is known, else the
/// link's display name, else empty.
pub open spec fn shown_name(name: Option<String>, fallback: Option<String>) -> Seq<char> {
    match name {
        Some(n) => n@,
        None => match fallback {
            Some(f) => f@,
            None => seq![],
        },
    }
}

/// The info record of torrent `id`.
pub fn torrent_info(
    id: u64,
    info_hash: &[u8; 20],
    name: Option<String>,
    fallback_name: Option<String>,
    total_bytes: u64,
) -> (r: TorrentInfo)
    ensures
        r.id == id,
        r.info_hash@ == ascii_chars(hex_text(info_hash@)),
        r.name@ == shown_name(name, fallback_name),
        r.total_bytes == total_bytes,
{
    let name = match name {
        Some(n) => n,
        None => match fallback_name {
            Some(f) => f,
            None => String::new(),
        },
    };
    TorrentInfo { id, info_hash: info_hash_hex(info_hash), name, total_bytes }
}

} // verus!

verus! {

/// What `librqbit::Magnet::parse` reads from a link: the BitTorrent v1 info hash when the
/// link has one, and the display name; or the message of the parse error.
pub uninterp spec fn magnet_parse(link: Seq<char>) -> Result<(Option<Seq<u8>>, Option<Seq<char>>), Seq<char>>;

/// The message of the error of `librqbit::torrent_from_bytes` on a `.torrent` file, or
/// `None` when the file parses.
pub uninterp spec fn torrent_parse_error(bytes: Seq<u8>) -> Option<Seq<char>>;

pub open spec fn magnet_view(r: Result<(Option<[u8; 20]>, Option<String>), String>) -> Result<
    (Option<Seq<u8>>, Option<Seq<char>>),
    Seq<char>,
> {
    match r {
        Ok((h, n)) => Ok(
            (
                match h {
                    Some(a) => Some(a@),
                    None => None,
                },
                opt_text(n),
            ),
        ),
        Err(e) => Err(e@),
    }
}

/// `librqbit::Magnet::parse` on `link`: the v1 info hash (`as_id20`) and the `dn=` name,
/// or the error's message. The parser reads the link with `url::Url::parse` and its
/// `query_pairs`; it panics on a link whose hash decodes from base32 short or long, and on
/// one whose `so` selection cannot fit in a vector, so such links are excluded (see
/// [`magnet_refused`]). A selection that fits the vector's limits but not the machine's
/// memory ends the process when it is allocated; that is not excluded, since it depends on
/// the machine.
#[verifier::external_body]
fn parse_magnet(link: &str) -> (r: Result<(Option<[u8; 20]>, Option<String>), String>)
    requires
        !magnet_refused(link@),
    ensures
        magnet_view(r) == magnet_parse(link@),
{
    match librqbit::Magnet::parse(link) {
        Ok(m) => Ok(
            (
                match m.as_id20() {
                    Some(id) => Some(id.0),
                    None => None,
                },
                m.name,
            ),
        ),
        Err(e) => Err(e.to_string()),
    }
}

/// `librqbit::torrent_from_bytes` on a `.torrent` file: `Ok` when it parses, else the
/// error's message. The parser panics on a file that breaks off inside a container or
/// declares a string length overflowing its arithmetic, and recurses without limit into
/// nested containers; such files are excluded (see [`torrent_hazard`]).
#[verifier::external_body]
fn parse_torrent_file(bytes: &[u8]) -> (r: Result<(), String>)
    requires
        !torrent_hazard(bytes@),
    ensures
        r is Ok <==> torrent_parse_error(bytes@) is None,
        r matches Err(e) ==> torrent_parse_error(bytes@) == Some(e@),
{
    match librqbit::torrent_from_bytes::<librqbit::ByteBufOwned>(bytes) {
        Ok(_) => Ok(()),
        Err(e) => Err(e.to_string()),
    }
}

/// The verdict on what `librqbit::Magnet::parse` read from a link: the parse error, or a
/// link without a BitTorrent v1 info hash (v2-only), is an invalid magnet; otherwise the
/// link's display name.
pub fn magnet_verdict(parsed: Result<(Option<[u8; 20]>, Option<String>), String>) -> (r: Result<
    Option<String>,
    EngineError,
>)
    ensures
        match parsed {
            Err(msg) => r matches Err(EngineError::InvalidMagnet { reason }) && reason == msg,
            Ok((None, _)) => r matches Err(EngineError::InvalidMagnet { reason }) && reason@
                == "magnet link missing BTv1 infohash"@,
            Ok((Some(_), name)) => r == Ok::<Option<String>, EngineError>(name),
        },
{
    match parsed {
        Err(reason) => Err(EngineError::InvalidMagnet { reason }),
        Ok((None, _)) => Err(
            EngineError::InvalidMagnet {
                reason: String::from_str("magnet link missing BTv1 infohash"),
            },
        ),
        Ok((Some(_), name)) => Ok(name),
    }
}

/// A magnet link that the parser would panic or fail on, read as `url::Url::parse` reads
/// it (see [`magnet_link_hazard`]).
pub open spec fn magnet_refused(link: Seq<char>) -> bool {
    parsed_url(link) matches Some((_, _, _, scheme, pairs)) && magnet_link_hazard(scheme, pairs)
}

/// Validates a magnet link before it reaches the session (see [`magnet_verdict`]). A link
/// that the parser cannot read safely is refused first, as invalid.
pub fn check_magnet(link: &str) -> (r: Result<Option<String>, EngineError>)
    ensures
        magnet_refused(link@) ==> (r matches Err(EngineError::InvalidMagnet { reason })
            && reason@ == "magnet link has a malformed info hash or file selection"@),
        !magnet_refused(link@) ==> match magnet_parse(link@) {
            Err(msg) => r matches Err(EngineError::InvalidMagnet { reason }) && reason@ == msg,
            Ok((None, _)) => r matches Err(EngineError::InvalidMagnet { reason }) && reason@
                == "magnet link missing BTv1 infohash"@,
            Ok((Some(_), name)) => r matches Ok(n) && opt_text(n) == name,
        },
{
    if let Some(u) = parse_url(link) {
        if magnet_parts_hazardous(u.scheme.as_slice(), u.query_pairs.as_slice()) {
            return Err(
                EngineError::InvalidMagnet {
                    reason: String::from_str(
                        "magnet link has a malformed info hash or file selection",
                    ),
                },
            );
        }
    }
    magnet_verdict(parse_magnet(link))
}

/// The verdict on what `librqbit::torrent_from_bytes` answered for a `.torrent` file: its
/// error is an invalid torrent, with the error's message.
pub fn torrent_file_verdict(parsed: Result<(), String>) -> (r: Result<(), EngineError>)
    ensures
        match parsed {
            Ok(()) => r is Ok,
            Err(msg) => r matches Err(EngineError::InvalidTorrent { reason }) && reason == msg,
        },
{
    match parsed {
        Ok(()) => Ok(()),
        Err(reason) => Err(EngineError::InvalidTorrent { reason }),
    }
}

/// Validates a `.torrent` file before it reaches the session, so that a malformed file is
/// reported as such rather than as a session failure. A file that breaks off inside a
/// container, nests too deeply or declares an oversized string is refused first, as
/// invalid.
pub fn check_torrent_file(bytes: &[u8]) -> (r: Result<(), EngineError>)
    ensures
        torrent_hazard(bytes@) ==> (r matches Err(EngineError::InvalidTorrent { reason })
            && reason@ == "torrent file is truncated, nested too deeply or declares an oversized string"@),
        !torrent_hazard(bytes@) ==> match torrent_parse_error(bytes@) {
            None => r is Ok,
            Some(msg) => r matches Err(EngineError::InvalidTorrent { reason }) && reason@ == msg,
        },
{
    if torrent_file_is_hazardous(bytes) {
        return Err(
            EngineError::InvalidTorrent {
                reason: String::from_str("torrent file is truncated, nested too deeply or declares an oversized string"),
            },
        );
    }
    torrent_file_verdict(parse_torrent_file(bytes))
}

/// The error shown when a magnet's metadata could not be resolved in time.
pub fn magnet_resolve_timeout() -> (r: EngineError)
    ensures
        r matches EngineError::Backend { reason } && reason@ == "Couldn't find any peers for this magnet. The tracker may be unreachable on your network, or there are no seeders — adding the .torrent file instead is more reliable."@,
{
    EngineError::Backend {
        reason: String::from_str(
            "Couldn't find any peers for this magnet. The tracker may be unreachable on your network, or there are no seeders — adding the .torrent file instead is more reliable.",
        ),
    }
}

/// Outcome of a pause request: success, or a failure after which the torrent is paused
/// anyway (it already was), counts as done; other failures are reported.
pub fn settle_pause(result: Result<(), String>, paused_now: bool) -> (r: Result<(), EngineError>)
    ensures
        match result {
            Ok(()) => r is Ok,
            Err(msg) => if paused_now {
                r is Ok
            } else {
                r matches Err(EngineError::Backend { reason }) && reason == msg
            },
        },
{
    match result {
        Ok(()) => Ok(()),
        Err(msg) => if paused_now {
            Ok(())
        } else {
            Err(EngineError::Backend { reason: msg })
        },
    }
}

/// Outcome of an unpause request: success, or a failure after which the torrent is running
/// anyway (it already was), counts as done; other failures are reported.
pub fn settle_unpause(result: Result<(), String>, paused_now: bool) -> (r: Result<(), EngineError>)
    ensures
        match result {
            Ok(()) => r is Ok,
            Err(msg) => if !paused_now {
                r is Ok
            } else {
                r matches Err(EngineError::Backend { reason }) && reason == msg
            },
        },
{
    match result {
        Ok(()) => Ok(()),
        Err(msg) => if !paused_now {
            Ok(())
        } else {
            Err(EngineError::Backend { reason: msg })
        },
    }
}

/// How long to wait for a fresh torrent to leave `Initializing` before applying a file
/// selection.
pub const INIT_WAIT_LIMIT_MS: u64 = 30000;

/// Pause between two looks at a torrent that is still initializing.
pub const INIT_POLL_MS: u64 = 200;

/// The next step while waiting for a torrent to leave `Initializing`.
pub enum InitWait {
    Ready,
    Sleep(u64),
    GiveUp(EngineError),
}

/// One look at an initializing torrent after `elapsed_ms`: ready once the state is not
/// `Initializing`, give up after the limit, else sleep and look again.
pub fn init_wait_step(state: SessionState, elapsed_ms: u64) -> (r: InitWait)
    ensures
        state != SessionState::Initializing ==> r is Ready,
        state == SessionState::Initializing && elapsed_ms >= INIT_WAIT_LIMIT_MS ==> (
        r matches InitWait::GiveUp(EngineError::Backend { reason }) && reason@
            == "torrent is still initializing after 30s"@),
        state == SessionState::Initializing && elapsed_ms < INIT_WAIT_LIMIT_MS ==> r
            == InitWait::Sleep(INIT_POLL_MS),
{
    if state != SessionState::Initializing {
        InitWait::Ready
    } else if elapsed_ms >= INIT_WAIT_LIMIT_MS {
        InitWait::GiveUp(
            EngineError::Backend {
                reason: String::from_str("torrent is still initializing after 30s"),
            },
        )
    } else {
        InitWait::Sleep(INIT_POLL_MS)
    }
}

} // verus!

verus! {

/// The file indexes to keep in a selection: each selected index once, in the order given.
pub open spec fn distinct_in_order(s: Seq<u32>) -> Seq<usize>
    decreases s.len(),
{
    if s.len() == 0 {
        seq![]
    } else {
        let prev = distinct_in_order(s.drop_last());
        if prev.contains(s.last() as usize) {
            prev
        } else {
            prev.push(s.last() as usize)
        }
    }
}

/// What applying a file selection to torrent `id` works on: nothing for an empty selection
/// (whatever the id), `NotFound` for an unknown id, else the torrent's entry and the
/// indexes of the files to keep.
pub fn plan_file_selection<'a, H>(reg: &'a Registry<H>, id: u64, selected: &[u32]) -> (r: Result<
    Option<(&'a Entry<H>, Vec<usize>)>,
    EngineError,
>)
    requires
        reg.wf(),
    ensures
        selected@.len() == 0 ==> r matches Ok(None),
        selected@.len() > 0 && !has_id(reg@.entries, id) ==> r == Err::<
            Option<(&'a Entry<H>, Vec<usize>)>,
            EngineError,
        >(EngineError::NotFound { id }),
        selected@.len() > 0 && has_id(reg@.entries, id) ==> (r matches Ok(Some((e, files)))
            && *e == reg@.entries[id_index(reg@.entries, id)] && files@ == distinct_in_order(
            selected@,
        )),
{
    if selected.len() == 0 {
        return Ok(None);
    }
    let e = match reg.lookup(id) {
        Ok(e) => e,
        Err(err) => return Err(err),
    };
    let mut files: Vec<usize> = Vec::new();
    let mut i: usize = 0;
    while i < selected.len()
        invariant
            i <= selected@.len(),
            files@ == distinct_in_order(selected@.take(i as int)),
        decreases selected@.len() - i,
    {
        assert(selected@.take(i + 1).drop_last() =~= selected@.take(i as int));
        let f = selected[i] as usize;
        let mut present = false;
        let mut k: usize = 0;
        while k < files.len()
            invariant
                k <= files@.len(),
                present <==> files@.take(k as int).contains(f),
            decreases files@.len() - k,
        {
            assert(files@.take(k + 1) =~= files@.take(k as int).push(files@[k as int]));
            proof {
                lemma_push_contains(files@.take(k as int), files@[k as int], f);
            }
            if files[k] == f {
                present = true;
            }
            k = k + 1;
        }
        assert(files@.take(k as int) =~= files@);
        if !present {
            files.push(f);
        }
        i = i + 1;
    }
    assert(selected@.take(i as int) =~= selected@);
    Ok(Some((e, files)))
}

/// One file of a torrent's metadata: its path relative to the torrent's folder, its
/// length, and whether it is BEP 47 padding.
#[derive(Clone, Debug)]
pub struct MetaFile {
    pub path: String,
    pub len: u64,
    pub padding: bool,
}

/// Indexes of the files that are not padding, in order.
pub open spec fn listed_indexes(files: Seq<MetaFile>) -> Seq<int>
    decreases files.len(),
{
    if files.len() == 0 {
        seq![]
    } else if files.last().padding {
        listed_indexes(files.drop_last())
    } else {
        listed_indexes(files.drop_last()).push(files.len() - 1)
    }
}

proof fn lemma_listed_indexes_bound(files: Seq<MetaFile>)
    ensures
        forall|k: int|
            0 <= k < listed_indexes(files).len() ==> 0 <= #[trigger] listed_indexes(files)[k]
                < files.len(),
    decreases files.len(),
{
    if files.len() > 0 {
        let prev = listed_indexes(files.drop_last());
        lemma_listed_indexes_bound(files.drop_last());
        assert forall|k: int| 0 <= k < listed_indexes(files).len() implies 0
            <= #[trigger] listed_indexes(files)[k] < files.len() by {
            if k < prev.len() {
                assert(listed_indexes(files)[k] == prev[k]);
            }
        }
    }
}

/// The file list shown for selection: every file that is not padding, with its index in
/// the metadata; a file is selected when no selection was applied yet or it is in it.
pub fn list_files(files: &[MetaFile], only_files: &Option<Vec<usize>>) -> (r: Vec<FileInfo>)
    ensures
        r@.len() == listed_indexes(files@).len(),
        forall|k: int|
            0 <= k < r@.len() ==> {
                let i = listed_indexes(files@)[k];
                &&& 0 <= i < files@.len()
                &&& (#[trigger] r@[k]).index == i as u32
                &&& r@[k].path@ == files@[i].path@
                &&& r@[k].size_bytes == files@[i].len
                &&& r@[k].selected == match only_files {
                    None => true,
                    Some(sel) => sel@.contains(i as usize),
                }
            },
{
    let mut out: Vec<FileInfo> = Vec::new();
    let mut i: usize = 0;
    while i < files.len()
        invariant
            i <= files@.len(),
            out@.len() == listed_indexes(files@.take(i as int)).len(),
            forall|k: int|
                0 <= k < out@.len() ==> {
                    let j = listed_indexes(files@.take(i as int))[k];
                    &&& 0 <= j < i
                    &&& (#[trigger] out@[k]).index == j as u32
                    &&& out@[k].path@ == files@[j].path@
                    &&& out@[k].size_bytes == files@[j].len
                    &&& out@[k].selected == match only_files {
                        None => true,
                        Some(sel) => sel@.contains(j as usize),
                    }
                },
        decreases files@.len() - i,
    {
        let ghost before = listed_indexes(files@.take(i as int));
        assert(files@.take(i + 1).drop_last() =~= files@.take(i as int));
        proof {
            lemma_listed_indexes_bound(files@.take(i as int));
        }
        let f = &files[i];
        if !f.padding {
            let selected = match only_files {
                None => true,
                Some(sel) => {
                    let mut found = false;
                    let mut k: usize = 0;
                    while k < sel.len()
                        invariant
                            k <= sel@.len(),
                            found <==> sel@.take(k as int).contains(i),
                        decreases sel@.len() - k,
                    {
                        assert(sel@.take(k + 1) =~= sel@.take(k as int).push(sel@[k as int]));
                        proof {
                            lemma_push_contains(sel@.take(k as int), sel@[k as int], i);
                        }
                        if sel[k] == i {
                            found = true;
                        }
                        k = k + 1;
                    }
                    assert(sel@.take(k as int) =~= sel@);
                    found
                },
            };
            out.push(
                FileInfo {
                    index: i as u32,
                    path: f.path.clone(),
                    size_bytes: f.len,
                    selected,
                },
            );
            assert(listed_indexes(files@.take(i + 1)) =~= before.push(i as int));
        } else {
            assert(listed_indexes(files@.take(i + 1)) =~= before);
        }
        i = i + 1;
    }
    assert(files@.take(i as int) =~= files@);
    assert(listed_indexes(files@.take(i as int)) == listed_indexes(files@));
    proof {
        lemma_listed_indexes_bound(files@);
    }
    assert forall|k: int| 0 <= k < out@.len() implies {
        let j = listed_indexes(files@)[k];
        &&& 0 <= j < files@.len()
        &&& (#[trigger] out@[k]).index == j as u32
        &&& out@[k].path@ == files@[j].path@
        &&& out@[k].size_bytes == files@[j].len
        &&& out@[k].selected == match only_files {
            None => true,
            Some(sel) => sel@.contains(j as usize),
        }
    } by {
        let j = listed_indexes(files@.take(i as int))[k];
        assert(files@.take(i as int)[j] == files@[j]);
    }
    out
}

} // verus!

verus! {

/// A selection keeps exactly the file indexes it lists, each once.
pub proof fn law_selection_keeps_listed_indexes(s: Seq<u32>)
    ensures
        forall|i: u32|
            #![trigger distinct_in_order(s).contains(i as usize)]
            #![trigger s.contains(i)]
            distinct_in_order(s).contains(i as usize) <==> s.contains(i),
        distinct_in_order(s).no_duplicates(),
    decreases s.len(),
{
    let d = distinct_in_order(s);
    if s.len() == 0 {
        assert(d =~= Seq::<usize>::empty());
    } else {
        let front = s.drop_last();
        let prev = distinct_in_order(front);
        let last = s.last();
        law_selection_keeps_listed_indexes(front);
        assert forall|i: u32| #[trigger] s.contains(i) <==> front.contains(i) || i == last by {
            if s.contains(i) {
                let k = choose|k: int| 0 <= k < s.len() && s[k] == i;
                if k < s.len() - 1 {
                    assert(front[k] == i);
                }
            }
            if front.contains(i) {
                let k = choose|k: int| 0 <= k < front.len() && front[k] == i;
                assert(s[k] == i);
            }
            if i == last {
                assert(s[s.len() - 1] == i);
            }
        }
        if prev.contains(last as usize) {
            assert(d == prev);
        } else {
            assert(d == prev.push(last as usize));
            assert forall|i: u32| #[trigger] d.contains(i as usize) <==> prev.contains(i as usize)
                || i == last by {
                if d.contains(i as usize) {
                    let k = choose|k: int| 0 <= k < d.len() && d[k] == i as usize;
                    if k < prev.len() {
                        assert(prev[k] == i as usize);
                    }
                }
                if prev.contains(i as usize) {
                    let k = choose|k: int| 0 <= k < prev.len() && prev[k] == i as usize;
                    assert(d[k] == i as usize);
                }
                if i == last {
                    assert(d[d.len() - 1] == i as usize);
                }
            }
            assert forall|a: int, b: int| 0 <= a < d.len() && 0 <= b < d.len() && a != b implies d[a]
                != d[b] by {
                if a == d.len() - 1 && b < prev.len() {
                    assert(prev[b] == d[b]);
                }
                if b == d.len() - 1 && a < prev.len() {
                    assert(prev[a] == d[a]);
                }
            }
        }
    }
}

/// Once the session keeps the files of a selection `s`, the file list marks a file selected
/// exactly when `s` lists its index.
pub proof fn law_file_list_after_selection(files: Seq<MetaFile>, s: Seq<u32>)
    requires
        files.len() <= u32::MAX + 1,
    ensures
        forall|k: int|
            0 <= k < listed_indexes(files).len() ==> (distinct_in_order(s).contains(
                #[trigger] listed_indexes(files)[k] as usize,
            ) <==> s.contains(listed_indexes(files)[k] as u32)),
{
    lemma_listed_indexes_bound(files);
    law_selection_keeps_listed_indexes(s);
    assert forall|k: int| 0 <= k < listed_indexes(files).len() implies (distinct_in_order(
        s,
    ).contains(#[trigger] listed_indexes(files)[k] as usize) <==> s.contains(
        listed_indexes(files)[k] as u32,
    )) by {
        let idx = listed_indexes(files)[k];
        let i = idx as u32;
        assert(i as usize == idx as usize);
        assert(distinct_in_order(s).contains(i as usize) <==> s.contains(i));
    }
}

} // verus!
