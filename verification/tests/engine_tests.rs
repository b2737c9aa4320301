use bitrufus_core::ping;
use bitrufus_core::registry::{AddOutcome, Registry};
use bitrufus_core::torrent::{
    check_magnet, check_torrent_file, init_wait_step, list_files, magnet_resolve_timeout,
    magnet_verdict, map_torrent_state, plan_file_selection, settle_pause, settle_unpause,
    torrent_file_verdict, torrent_info, torrent_stats, InitWait, LiveCounters, MetaFile,
    SessionState,
};
use bitrufus_core::types::{EngineError, TorrentState};

fn minimal_torrent_bytes() -> Vec<u8> {
    let mut v = Vec::new();
    v.extend_from_slice(b"d4:infod6:lengthi1024e4:name8:test.txt12:piece lengthi16384e6:pieces20:");
    v.extend_from_slice(&[0u8; 20]);
    v.extend_from_slice(b"ee");
    v
}

fn added(reg: &mut Registry<&'static str>, sid: usize, h: &'static str) -> Result<u64, EngineError> {
    reg.register(AddOutcome::Added { session_id: sid, handle: h }, 1_000)
}

#[test]
fn ping_returns_pong() {
    assert_eq!(ping(), "pong");
}

#[test]
fn state_mapping_correctness() {
    let cases: &[(SessionState, bool, TorrentState)] = &[
        (SessionState::Initializing, false, TorrentState::Initializing),
        (SessionState::Initializing, true, TorrentState::Initializing),
        (SessionState::Paused, false, TorrentState::Paused),
        (SessionState::Paused, true, TorrentState::Paused),
        (SessionState::Live, false, TorrentState::Downloading),
        (SessionState::Live, true, TorrentState::Seeding),
        (SessionState::Error, false, TorrentState::Error),
        (SessionState::Error, true, TorrentState::Error),
    ];
    for (state, finished, expected) in cases {
        assert_eq!(map_torrent_state(*state, *finished), *expected, "state={state:?} finished={finished}");
    }
}

#[test]
fn invalid_magnet_returns_invalid_magnet_error() {
    let err = check_magnet("not-a-valid-magnet").unwrap_err();
    assert!(matches!(err, EngineError::InvalidMagnet { .. }));
}

#[test]
fn valid_magnet_gives_display_name() {
    let name = check_magnet(
        "magnet:?xt=urn:btih:dd8255ecdc7ca55fb0bbf81323d87062db1f6d1c&dn=Big+Buck+Bunny",
    )
    .unwrap();
    assert_eq!(name, Some("Big Buck Bunny".to_string()));
}

#[test]
fn magnet_verdict_cases() {
    assert!(matches!(
        magnet_verdict(Err("bad".to_string())),
        Err(EngineError::InvalidMagnet { reason }) if reason == "bad"
    ));
    assert!(matches!(
        magnet_verdict(Ok((None, Some("n".to_string())))),
        Err(EngineError::InvalidMagnet { reason }) if reason == "magnet link missing BTv1 infohash"
    ));
    assert_eq!(magnet_verdict(Ok((Some([0u8; 20]), None))).unwrap(), None);
}

#[test]
fn corrupt_torrent_bytes_returns_invalid_torrent() {
    let err = check_torrent_file(b"not a torrent").unwrap_err();
    assert!(matches!(err, EngineError::InvalidTorrent { .. }));
}

#[test]
fn minimal_torrent_file_is_accepted() {
    assert!(check_torrent_file(&minimal_torrent_bytes()).is_ok());
    assert!(matches!(
        torrent_file_verdict(Err("x".to_string())),
        Err(EngineError::InvalidTorrent { reason }) if reason == "x"
    ));
    assert!(torrent_file_verdict(Ok(())).is_ok());
}

#[test]
fn empty_selection_is_noop() {
    let reg: Registry<&'static str> = Registry::new();
    let result = plan_file_selection(&reg, 999, &[]);
    assert!(matches!(result, Ok(None)), "empty selection must be a no-op regardless of id");
}

#[test]
fn set_file_selection_not_found() {
    let reg: Registry<&'static str> = Registry::new();
    let err = plan_file_selection(&reg, 99, &[0]).unwrap_err();
    assert!(matches!(err, EngineError::NotFound { id: 99 }));
}

#[test]
fn set_file_selection_non_empty_duplicate_not_treated_as_empty() {
    let reg: Registry<&'static str> = Registry::new();
    let err = plan_file_selection(&reg, 77, &[0, 0, 0]).unwrap_err();
    assert!(matches!(err, EngineError::NotFound { id: 77 }));
}

#[test]
fn file_selection_keeps_distinct_indexes_in_order() {
    let mut reg: Registry<&'static str> = Registry::new();
    let id = added(&mut reg, 0, "a").unwrap();
    match plan_file_selection(&reg, id, &[3, 1, 3, 0, 1]) {
        Ok(Some((entry, files))) => {
            assert_eq!(entry.id, id);
            assert_eq!(entry.handle, "a");
            assert_eq!(files, vec![3, 1, 0]);
        }
        _ => panic!("expected a selection plan"),
    }
}

#[test]
fn torrent_info_not_found() {
    let reg: Registry<&'static str> = Registry::new();
    assert!(matches!(reg.lookup(42), Err(EngineError::NotFound { id: 42 })));
}

#[test]
fn list_torrents_empty() {
    let reg: Registry<&'static str> = Registry::new();
    assert_eq!(reg.handles().len(), 0);
    assert_eq!(reg.len(), 0);
}

#[test]
fn duplicate_torrent_file_returns_same_id() {
    let mut reg: Registry<&'static str> = Registry::new();
    let id1 = added(&mut reg, 0, "h").unwrap();
    let id2 = reg
        .register(AddOutcome::AlreadyManaged { session_id: 0, handle: "h" }, 2_000)
        .unwrap();
    assert_eq!(id1, id2, "duplicate add must return the same engine id");
    assert_eq!(reg.len(), 1, "duplicate add must not create a second handle");
}

#[test]
fn add_torrent_file_blocked_during_delete() {
    let mut reg: Registry<&'static str> = Registry::new();
    let id = added(&mut reg, 5, "h").unwrap();
    let entry = reg.begin_remove(id).unwrap();
    assert!(reg.is_deleting(5));
    let err = reg
        .register(AddOutcome::AlreadyManaged { session_id: 5, handle: "h" }, 2_000)
        .unwrap_err();
    assert!(matches!(err, EngineError::Backend { .. }), "expected Backend error for add-during-delete, got {err:?}");
    reg.finish_remove(entry, true);
    assert!(!reg.is_deleting(5));
    assert_eq!(reg.len(), 0);
}

#[test]
fn id_allocation_is_monotonic() {
    let mut reg: Registry<&'static str> = Registry::new();
    let id1 = added(&mut reg, 10, "a").unwrap();
    let id2 = added(&mut reg, 11, "b").unwrap();
    assert!(id2 > id1);
    assert_eq!((id1, id2), (1, 2));
    let e = reg.begin_remove(id1).unwrap();
    reg.finish_remove(e, true);
    let id3 = added(&mut reg, 12, "c").unwrap();
    assert_eq!(id3, 3);
}

#[test]
fn list_only_answer_is_refused() {
    let mut reg: Registry<&'static str> = Registry::new();
    let err = reg.register(AddOutcome::ListOnly, 0).unwrap_err();
    assert!(matches!(err, EngineError::Backend { reason } if reason == "unexpected list_only response"));
    assert_eq!(reg.next_id(), 1);
}

#[test]
fn remove_not_found() {
    let mut reg: Registry<&'static str> = Registry::new();
    assert!(matches!(reg.begin_remove(12345), Err(EngineError::NotFound { id: 12345 })));
}

#[test]
fn failed_delete_restores_the_torrent() {
    let mut reg: Registry<&'static str> = Registry::new();
    let id = added(&mut reg, 3, "h").unwrap();
    let e = reg.begin_remove(id).unwrap();
    assert!(reg.lookup(id).is_err());
    reg.finish_remove(e, false);
    let back = reg.lookup(id).unwrap();
    assert_eq!(back.session_id, 3);
    assert_eq!(back.added_at, Some(1_000));
    assert!(!reg.is_deleting(3));
}

#[test]
fn restore_pins_ids_to_session_ids() {
    let mut reg = Registry::restore(vec![(4, "x"), (0, "y"), (4, "z")]);
    assert_eq!(reg.len(), 2);
    assert_eq!(reg.lookup(5).unwrap().handle, "z");
    assert_eq!(reg.lookup(1).unwrap().added_at, None);
    assert_eq!(reg.next_id(), 6);
    assert_eq!(added(&mut reg, 9, "n").unwrap(), 6);
    let again = reg
        .register(AddOutcome::AlreadyManaged { session_id: 0, handle: "y" }, 0)
        .unwrap();
    assert_eq!(again, 1);
}

#[test]
fn torrent_info_record() {
    let mut hash = [0u8; 20];
    hash[0] = 0xab;
    hash[19] = 0x01;
    let info = torrent_info(7, &hash, None, Some("fallback".to_string()), 99);
    assert_eq!(info.id, 7);
    assert_eq!(info.info_hash, format!("ab{}01", "00".repeat(18)));
    assert_eq!(info.name, "fallback");
    assert_eq!(info.total_bytes, 99);
    let info = torrent_info(7, &hash, Some("real".to_string()), Some("fallback".to_string()), 0);
    assert_eq!(info.name, "real");
    assert_eq!(torrent_info(1, &hash, None, None, 0).name, "");
}

#[test]
fn torrent_stats_record() {
    let live = LiveCounters { download_bps: 10, upload_bps: 20, live_peers: 3 };
    let s = torrent_stats(2, SessionState::Live, false, 50, 100, Some(live));
    assert_eq!(s.state, TorrentState::Downloading);
    assert_eq!((s.download_speed_bps, s.upload_speed_bps, s.peer_count), (10, 20, 3));
    assert_eq!((s.downloaded_bytes, s.total_bytes), (50, 100));
    let s = torrent_stats(2, SessionState::Paused, true, 100, 100, None);
    assert_eq!(s.state, TorrentState::Paused);
    assert_eq!((s.download_speed_bps, s.upload_speed_bps, s.peer_count), (0, 0, 0));
}

#[test]
fn file_list_skips_padding() {
    let files = vec![
        MetaFile { path: "a/one.mkv".to_string(), len: 10, padding: false },
        MetaFile { path: ".pad/1".to_string(), len: 5, padding: true },
        MetaFile { path: "a/two.srt".to_string(), len: 3, padding: false },
    ];
    let all = list_files(&files, &None);
    assert_eq!(all.len(), 2);
    assert_eq!((all[0].index, all[0].path.as_str(), all[0].size_bytes, all[0].selected), (0, "a/one.mkv", 10, true));
    assert_eq!((all[1].index, all[1].path.as_str(), all[1].size_bytes, all[1].selected), (2, "a/two.srt", 3, true));
    let some = list_files(&files, &Some(vec![2]));
    assert!(!some[0].selected);
    assert!(some[1].selected);
}

#[test]
fn pause_and_resume_outcomes() {
    assert!(settle_pause(Ok(()), false).is_ok());
    assert!(settle_pause(Err("already".to_string()), true).is_ok());
    assert!(matches!(settle_pause(Err("boom".to_string()), false), Err(EngineError::Backend { reason }) if reason == "boom"));
    assert!(settle_unpause(Err("already".to_string()), false).is_ok());
    assert!(matches!(settle_unpause(Err("boom".to_string()), true), Err(EngineError::Backend { .. })));
}

#[test]
fn init_wait_steps() {
    assert!(matches!(init_wait_step(SessionState::Paused, 0), InitWait::Ready));
    assert!(matches!(init_wait_step(SessionState::Initializing, 0), InitWait::Sleep(200)));
    assert!(matches!(
        init_wait_step(SessionState::Initializing, 30_000),
        InitWait::GiveUp(EngineError::Backend { reason }) if reason == "torrent is still initializing after 30s"
    ));
}

#[test]
fn error_messages() {
    assert_eq!(EngineError::NotFound { id: 42 }.message(), "torrent not found: 42");
    assert_eq!(
        EngineError::InvalidMagnet { reason: "x".to_string() }.message(),
        "invalid magnet link: x"
    );
    assert_eq!(EngineError::InvalidTorrent { reason: "y".to_string() }.message(), "invalid torrent file: y");
    assert_eq!(EngineError::Io { reason: "z".to_string() }.message(), "io error: z");
    assert_eq!(EngineError::Backend { reason: "w".to_string() }.message(), "backend error: w");
    assert!(magnet_resolve_timeout().message().starts_with("backend error: Couldn't find any peers"));
}

#[test]
fn handles_map_unchanged_on_parse_failure() {
    let reg: Registry<&'static str> = Registry::new();
    let result = check_magnet("garbage://link");
    assert!(result.is_err(), "expected error for invalid magnet, got {:?}", result);
    assert_eq!(reg.len(), 0, "handles map must be empty when magnet parse fails");
}

#[test]
fn all_stats_empty_when_no_handles() {
    let reg: Registry<&'static str> = Registry::new();
    assert_eq!(reg.handles().len(), 0);
}

#[test]
fn torrent_files_not_found() {
    let reg: Registry<&'static str> = Registry::new();
    assert!(matches!(reg.lookup(42), Err(EngineError::NotFound { id: 42 })));
}

#[test]
fn pause_not_found() {
    let reg: Registry<&'static str> = Registry::new();
    assert!(matches!(reg.lookup(99), Err(EngineError::NotFound { id: 99 })));
}

#[test]
fn resume_not_found() {
    let reg: Registry<&'static str> = Registry::new();
    assert!(matches!(reg.lookup(42), Err(EngineError::NotFound { id: 42 })));
}

fn invalid_reason(r: Result<Option<String>, EngineError>) -> String {
    match r {
        Err(EngineError::InvalidMagnet { reason }) => reason,
        other => panic!("expected an invalid magnet, got {other:?}"),
    }
}

const REFUSED_MAGNET: &str = "magnet link has a malformed info hash or file selection";
const REFUSED_TORRENT: &str =
    "torrent file is truncated, nested too deeply or declares an oversized string";

fn is_unsafe_link(link: &str) -> bool {
    match url::Url::parse(link) {
        Ok(u) => {
            let pairs: Vec<(Vec<u8>, Vec<u8>)> = u
                .query_pairs()
                .map(|(k, v)| (k.as_bytes().to_vec(), v.as_bytes().to_vec()))
                .collect();
            bitrufus_core::guard::magnet_parts_hazardous(u.scheme().as_bytes(), &pairs)
        }
        Err(_) => false,
    }
}

#[test]
fn magnet_with_padded_base32_hash_is_refused() {
    let link = format!("magnet:?xt=urn:btih:{}=", "A".repeat(31));
    assert_eq!(invalid_reason(check_magnet(&link)), REFUSED_MAGNET);
    let encoded = format!("magnet:?xt=urn:btih:{}%3D", "A".repeat(31));
    assert_eq!(invalid_reason(check_magnet(&encoded)), REFUSED_MAGNET);
    let trailing = format!("magnet:?xt=urn:btih:{}= \t", "A".repeat(31));
    assert_eq!(invalid_reason(check_magnet(&trailing)), REFUSED_MAGNET);
    assert!(is_unsafe_link(&link));
}

#[test]
fn magnet_with_short_hash_keeps_parser_error() {
    let reason = invalid_reason(check_magnet("magnet:?xt=urn:btih:abc="));
    assert_ne!(reason, REFUSED_MAGNET);
}

#[test]
fn magnet_with_unpadded_base32_hash_is_accepted() {
    let link = format!("magnet:?xt=urn:btih:{}", "A".repeat(32));
    assert!(!is_unsafe_link(&link));
    assert_eq!(check_magnet(&link).unwrap(), None);
    let bare = format!("{}=", "A".repeat(31));
    assert!(!is_unsafe_link(&bare));
    assert!(matches!(check_magnet(&bare), Err(EngineError::InvalidMagnet { .. })));
}

#[test]
fn magnet_v2_hash_padding() {
    let unpadded = format!("magnet:?xt=urn:btmh:1220{}", "A".repeat(56));
    assert_eq!(invalid_reason(check_magnet(&unpadded)), REFUSED_MAGNET);
    let padded = format!("magnet:?xt=urn:btmh:1220{}====", "A".repeat(52));
    assert!(!is_unsafe_link(&padded));
    assert_eq!(invalid_reason(check_magnet(&padded)), "magnet link missing BTv1 infohash");
}

#[test]
fn magnet_hash_check_reads_only_xt_values() {
    let link = "magnet:?xt=urn:btih:dd8255ecdc7ca55fb0bbf81323d87062db1f6d1c&dn=urn:btih:x=y";
    assert!(!is_unsafe_link(link));
    assert_eq!(check_magnet(link).unwrap(), Some("urn:btih:x=y".to_string()));
    let in_fragment = format!(
        "magnet:?xt=urn:btih:dd8255ecdc7ca55fb0bbf81323d87062db1f6d1c#xt=urn:btih:{}=",
        "A".repeat(31)
    );
    assert!(!is_unsafe_link(&in_fragment));
    let other_scheme = format!("http://x/?xt=urn:btih:{}=", "A".repeat(31));
    assert!(!is_unsafe_link(&other_scheme));
}

#[test]
fn magnet_with_huge_file_selection_is_refused() {
    let link = "magnet:?xt=urn:btih:dd8255ecdc7ca55fb0bbf81323d87062db1f6d1c&so=0-18446744073709551615";
    assert!(is_unsafe_link(link));
    assert_eq!(invalid_reason(check_magnet(link)), REFUSED_MAGNET);
    let split = "magnet:?xt=urn:btih:dd8255ecdc7ca55fb0bbf81323d87062db1f6d1c&so=0-1152921504606846974,0&so=1";
    assert!(is_unsafe_link(split));
}

#[test]
fn magnet_with_small_file_selection_is_accepted() {
    let link = "magnet:?xt=urn:btih:dd8255ecdc7ca55fb0bbf81323d87062db1f6d1c&so=0-3,7,x-9,5-2&dn=n";
    assert!(!is_unsafe_link(link));
    assert_eq!(check_magnet(link).unwrap(), Some("n".to_string()));
}

#[test]
fn torrent_with_overflowing_length_is_refused() {
    let err = check_torrent_file(b"d18446744073709551615:xe").unwrap_err();
    assert!(matches!(err, EngineError::InvalidTorrent { reason } if reason == REFUSED_TORRENT));
    assert!(bitrufus_core::guard::torrent_file_is_hazardous(b"d18446744073709551615:xe"));
}

#[test]
fn truncated_torrent_is_refused() {
    assert!(bitrufus_core::guard::torrent_file_is_hazardous(b"d13:announce-list"));
    assert!(matches!(
        check_torrent_file(b"d13:announce-listl"),
        Err(EngineError::InvalidTorrent { reason }) if reason == REFUSED_TORRENT
    ));
    let mut cut = minimal_torrent_bytes();
    cut.pop();
    assert!(bitrufus_core::guard::torrent_file_is_hazardous(&cut));
}

#[test]
fn deeply_nested_torrent_is_refused() {
    let mut deep = b"d1:a".to_vec();
    deep.extend(std::iter::repeat(b'l').take(100_000));
    deep.extend(std::iter::repeat(b'e').take(100_000));
    deep.push(b'e');
    assert!(bitrufus_core::guard::torrent_file_is_hazardous(&deep));
    assert!(matches!(
        check_torrent_file(&deep),
        Err(EngineError::InvalidTorrent { reason }) if reason == REFUSED_TORRENT
    ));
    let mut shallow = b"d1:a".to_vec();
    shallow.extend(std::iter::repeat(b'l').take(100));
    shallow.extend(std::iter::repeat(b'e').take(100));
    shallow.push(b'e');
    assert!(!bitrufus_core::guard::torrent_file_is_hazardous(&shallow));
}

#[test]
fn overrunning_torrent_keeps_parser_error() {
    assert!(!bitrufus_core::guard::torrent_file_is_hazardous(b"d8:announce99:x"));
    assert!(!bitrufus_core::guard::torrent_file_is_hazardous(b"d1:ai5"));
    assert!(matches!(
        check_torrent_file(b"d8:announce99:x"),
        Err(EngineError::InvalidTorrent { reason }) if reason != REFUSED_TORRENT
    ));
}

#[test]
fn complete_torrent_is_not_hazardous() {
    let bytes = minimal_torrent_bytes();
    assert!(!bitrufus_core::guard::torrent_file_is_hazardous(&bytes));
    let mut trailing = bytes.clone();
    trailing.extend_from_slice(b"18446744073709551615:x");
    assert!(!bitrufus_core::guard::torrent_file_is_hazardous(&trailing));
    assert!(!bitrufus_core::guard::torrent_file_is_hazardous(b"not a torrent"));
}

#[test]
fn registry_knows_its_session_torrents() {
    let mut reg: Registry<&'static str> = Registry::new();
    assert!(!reg.manages_session(4));
    added(&mut reg, 4, "h").unwrap();
    assert!(reg.manages_session(4));
    assert!(!reg.manages_session(5));
}
