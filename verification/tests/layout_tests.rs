use bitrufus_core::layout::{
    folder_components, is_preallocated_stub, name_stem, path_components, path_file_name,
    stub_candidates,
};
use bitrufus_core::torrent::MetaFile;

fn file(path: &str, len: u64, padding: bool) -> MetaFile {
    MetaFile { path: path.to_string(), len, padding }
}

fn strs(v: &[String]) -> Vec<&str> {
    v.iter().map(|s| s.as_str()).collect()
}

#[test]
fn path_components_drop_traversal() {
    assert_eq!(strs(&path_components("../../etc/passwd")), vec!["etc", "passwd"]);
    assert_eq!(strs(&path_components("/abs/./x//y/")), vec!["abs", "x", "y"]);
    assert!(path_components("..").is_empty());
    assert!(path_components("").is_empty());
}

#[test]
fn file_name_and_stem() {
    let n: String = path_file_name("dir/movie.part.mkv").unwrap().into_iter().collect();
    assert_eq!(n, "movie.part.mkv");
    assert_eq!(name_stem(&n.chars().collect::<Vec<char>>()), "movie.part");
    assert_eq!(name_stem(&".hidden".chars().collect::<Vec<char>>()), ".hidden");
    assert_eq!(name_stem(&"plain".chars().collect::<Vec<char>>()), "plain");
    assert!(path_file_name("a/..").is_none());
    let dot: String = path_file_name("a/b/.").unwrap().into_iter().collect();
    assert_eq!(dot, "b");
}

#[test]
fn torrent_folder_choice() {
    let single = vec![file("only.bin", 5, false)];
    assert!(folder_components(&Some("Name".to_string()), &single).is_empty());
    let multi = vec![file("small.txt", 1, false), file("big.video.mkv", 9, false), file("pad", 100, true)];
    assert_eq!(strs(&folder_components(&Some("../Show/S1".to_string()), &multi)), vec!["Show", "S1"]);
    assert_eq!(strs(&folder_components(&None, &multi)), vec!["big.video"]);
}

#[test]
fn stub_candidates_pick_unselected_untouched_files() {
    let files = vec![
        file("a.mkv", 10, false),
        file("b.srt", 3, false),
        file(".pad/0", 4, true),
        file("../c.nfo", 2, false),
        file("..", 1, false),
    ];
    let cands = stub_candidates(&Some("T".to_string()), &files, &[0], &[0, 5]);
    assert_eq!(cands.len(), 1);
    assert_eq!(strs(&cands[0].components), vec!["T", "c.nfo"]);
    assert_eq!(cands[0].expected_len, 2);
    let cands = stub_candidates(&Some("T".to_string()), &files, &[0], &[0, 0]);
    assert_eq!(cands.len(), 2);
    assert_eq!(strs(&cands[0].components), vec!["T", "b.srt"]);
}

#[test]
fn stub_rule() {
    let t = 1_000_000_000_000i128;
    assert!(is_preallocated_stub(10, 10, Some(t + 2_000_000_000), Some(t)));
    assert!(!is_preallocated_stub(10, 10, Some(t + 2_000_000_001), Some(t)));
    assert!(is_preallocated_stub(10, 10, Some(t - 5), Some(t)));
    assert!(!is_preallocated_stub(10, 11, Some(t), Some(t)));
    assert!(!is_preallocated_stub(0, 0, Some(t), Some(t)));
    assert!(!is_preallocated_stub(10, 10, Some(t), None));
    assert!(!is_preallocated_stub(10, 10, None, Some(t)));
    assert!(is_preallocated_stub(10, 10, Some(i128::MAX), Some(i128::MAX - 1)));
}
