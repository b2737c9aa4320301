//! Where a torrent's files lie under the download folder, and which untouched,
//! unselected files may be removed after a file selection.

use vstd::prelude::*;

use crate::textual::{chars_of, push_char};
use crate::torrent::MetaFile;

verus! {

/// The pieces of `s` between occurrences of `sep`, empty pieces included (as `str::split`).
pub open spec fn segments(s: Seq<char>, sep: char) -> Seq<Seq<char>>
    decreases s.len(),
{
    if s.len() == 0 {
        seq![seq![]]
    } else {
        let p = segments(s.drop_last(), sep);
        if s.last() == sep {
            p.push(seq![])
        } else {
            p.update(p.len() - 1, p.last().push(s.last()))
        }
    }
}

pub open spec fn is_dot(c: Seq<char>) -> bool {
    c == seq!['.']
}

pub open spec fn is_dot_dot(c: Seq<char>) -> bool {
    c == seq!['.', '.']
}

/// The named parts of a list of segments: neither empty, `.`, nor `..`.
pub open spec fn named_parts(segs: Seq<Seq<char>>) -> Seq<Seq<char>>
    decreases segs.len(),
{
    if segs.len() == 0 {
        seq![]
    } else {
        let p = named_parts(segs.drop_last());
        let c = segs.last();
        if c.len() == 0 || is_dot(c) || is_dot_dot(c) {
            p
        } else {
            p.push(c)
        }
    }
}

/// The normal components of a `/`-separated path: root, `.` and `..` parts are dropped, so
/// the path cannot climb out of the folder it is joined to.
pub open spec fn safe_components(path: Seq<char>) -> Seq<Seq<char>> {
    named_parts(segments(path, '/'))
}

/// The components of a path that `Path::components` keeps apart from a leading `.`: all
/// non-empty segments other than `.`.
pub open spec fn kept_parts(segs: Seq<Seq<char>>) -> Seq<Seq<char>>
    decreases segs.len(),
{
    if segs.len() == 0 {
        seq![]
    } else {
        let p = kept_parts(segs.drop_last());
        let c = segs.last();
        if c.len() == 0 || is_dot(c) {
            p
        } else {
            p.push(c)
        }
    }
}

/// `Path::file_name`: the last component when it is a name (not `..`).
pub open spec fn file_name(path: Seq<char>) -> Option<Seq<char>> {
    let k = kept_parts(segments(path, '/'));
    if k.len() == 0 || is_dot_dot(k.last()) {
        None
    } else {
        Some(k.last())
    }
}

/// Index of the last occurrence of `c` in `s`.
pub open spec fn last_index_of(s: Seq<char>, c: char) -> Option<int>
    decreases s.len(),
{
    if s.len() == 0 {
        None
    } else if s.last() == c {
        Some(s.len() - 1)
    } else {
        last_index_of(s.drop_last(), c)
    }
}

/// `Path::file_stem` of a file name: the part before the last `.`, unless that `.` starts
/// the name or there is none.
pub open spec fn file_stem(name: Seq<char>) -> Seq<char> {
    match last_index_of(name, '.') {
        Some(p) => if p == 0 {
            name
        } else {
            name.take(p)
        },
        None => name,
    }
}

/// Index of the largest file that is not padding; among equals, the last one.
pub open spec fn largest_file(files: Seq<MetaFile>) -> Option<int>
    decreases files.len(),
{
    if files.len() == 0 {
        None
    } else {
        let prev = largest_file(files.drop_last());
        let l = files.last();
        if l.padding {
            prev
        } else {
            match prev {
                Some(i) => if files[i].len <= l.len {
                    Some(files.len() - 1)
                } else {
                    prev
                },
                None => Some(files.len() - 1),
            }
        }
    }
}

/// The folder of a torrent's files, as components under the download folder: a torrent
/// of several files gets its own folder, named after the torrent (made safe), or after the
/// stem of its largest file when it has no name; a single file lies in the download folder.
pub open spec fn torrent_folder(name: Option<Seq<char>>, files: Seq<MetaFile>) -> Seq<Seq<char>> {
    if files.len() >= 2 {
        match name {
            Some(n) => safe_components(n),
            None => match largest_file(files) {
                Some(i) => match file_name(files[i].path@) {
                    Some(f) => seq![file_stem(f)],
                    None => seq![],
                },
                None => seq![],
            },
        }
    } else {
        seq![]
    }
}

pub proof fn lemma_largest_file_bound(files: Seq<MetaFile>)
    ensures
        largest_file(files) matches Some(i) ==> 0 <= i < files.len() && !files[i].padding,
    decreases files.len(),
{
    if files.len() > 0 {
        lemma_largest_file_bound(files.drop_last());
    }
}

/// The text of a sequence of characters.
pub fn string_of(chars: &[char]) -> (r: String)
    ensures
        r@ == chars@,
{
    let mut s = String::new();
    let mut i: usize = 0;
    while i < chars.len()
        invariant
            i <= chars@.len(),
            s@ == chars@.take(i as int),
        decreases chars@.len() - i,
    {
        push_char(&mut s, chars[i]);
        i = i + 1;
        assert(s@ =~= chars@.take(i as int));
    }
    assert(chars@.take(i as int) =~= chars@);
    s
}

pub open spec fn texts_of(v: Seq<String>) -> Seq<Seq<char>> {
    v.map_values(|s: String| s@)
}

fn split_slashes(p: &str) -> (r: Vec<Vec<char>>)
    ensures
        r@.len() == segments(p@, '/').len(),
        forall|k: int| 0 <= k < r@.len() ==> (#[trigger] r@[k])@ == segments(p@, '/')[k],
{
    let cs = chars_of(p);
    let mut out: Vec<Vec<char>> = Vec::new();
    let mut cur: Vec<char> = Vec::new();
    let mut i: usize = 0;
    while i < cs.len()
        invariant
            cs@ == p@,
            i <= cs@.len(),
            out@.len() + 1 == segments(cs@.take(i as int), '/').len(),
            forall|k: int| 0 <= k < out@.len() ==> (#[trigger] out@[k])@ == segments(cs@.take(i as int), '/')[k],
            cur@ == segments(cs@.take(i as int), '/').last(),
        decreases cs@.len() - i,
    {
        assert(cs@.take(i + 1).drop_last() =~= cs@.take(i as int));
        let c = cs[i];
        if c == '/' {
            out.push(cur);
            cur = Vec::new();
        } else {
            cur.push(c);
        }
        i = i + 1;
    }
    assert(cs@.take(i as int) =~= cs@);
    out.push(cur);
    out
}

/// The normal components of a `/`-separated path (see [`safe_components`]).
pub fn path_components(p: &str) -> (r: Vec<String>)
    ensures
        texts_of(r@) == safe_components(p@),
{
    let segs = split_slashes(p);
    let ghost s = segments(p@, '/');
    let mut out: Vec<String> = Vec::new();
    let mut i: usize = 0;
    while i < segs.len()
        invariant
            segs@.len() == s.len(),
            forall|k: int| 0 <= k < segs@.len() ==> (#[trigger] segs@[k])@ == s[k],
            i <= s.len(),
            texts_of(out@) == named_parts(s.take(i as int)),
        decreases s.len() - i,
    {
        assert(s.take(i + 1).drop_last() =~= s.take(i as int));
        let c = &segs[i];
        let dot = c.len() == 1 && c[0] == '.';
        let dot_dot = c.len() == 2 && c[0] == '.' && c[1] == '.';
        proof {
            assert(dot <==> is_dot(c@)) by {
                if c@.len() == 1 && c@[0] == '.' {
                    assert(c@ =~= seq!['.']);
                }
            }
            assert(dot_dot <==> is_dot_dot(c@)) by {
                if c@.len() == 2 && c@[0] == '.' && c@[1] == '.' {
                    assert(c@ =~= seq!['.', '.']);
                }
            }
        }
        if c.len() > 0 && !dot && !dot_dot {
            let t = string_of(c.as_slice());
            out.push(t);
            assert(texts_of(out@) =~= named_parts(s.take(i as int)).push(c@));
        }
        i = i + 1;
    }
    assert(s.take(i as int) =~= s);
    out
}

} // verus!

verus! {

/// `Path::file_name` of a `/`-separated path (see [`file_name`]).
pub fn path_file_name(p: &str) -> (r: Option<Vec<char>>)
    ensures
        match file_name(p@) {
            Some(n) => r matches Some(v) && v@ == n,
            None => r is None,
        },
{
    let segs = split_slashes(p);
    let ghost s = segments(p@, '/');
    let mut last: Option<usize> = None;
    let mut i: usize = 0;
    while i < segs.len()
        invariant
            segs@.len() == s.len(),
            forall|k: int| 0 <= k < segs@.len() ==> (#[trigger] segs@[k])@ == s[k],
            i <= s.len(),
            last is None <==> kept_parts(s.take(i as int)).len() == 0,
            last matches Some(j) ==> j < i && kept_parts(s.take(i as int)).last() == s[j as int],
        decreases s.len() - i,
    {
        assert(s.take(i + 1).drop_last() =~= s.take(i as int));
        let c = &segs[i];
        let dot = c.len() == 1 && c[0] == '.';
        proof {
            assert(dot <==> is_dot(c@)) by {
                if c@.len() == 1 && c@[0] == '.' {
                    assert(c@ =~= seq!['.']);
                }
            }
        }
        if c.len() > 0 && !dot {
            last = Some(i);
        }
        i = i + 1;
    }
    assert(s.take(i as int) =~= s);
    match last {
        None => None,
        Some(j) => {
            let c = &segs[j];
            if c.len() == 2 && c[0] == '.' && c[1] == '.' {
                assert(c@ =~= seq!['.', '.']);
                None
            } else {
                assert(!is_dot_dot(c@)) by {
                    if c@ == seq!['.', '.'] {
                        assert(c@.len() == 2 && c@[0] == '.' && c@[1] == '.');
                    }
                }
                let mut v: Vec<char> = Vec::new();
                let mut k: usize = 0;
                while k < c.len()
                    invariant
                        k <= c@.len(),
                        v@ == c@.take(k as int),
                    decreases c@.len() - k,
                {
                    v.push(c[k]);
                    k = k + 1;
                    assert(v@ =~= c@.take(k as int));
                }
                assert(c@.take(k as int) =~= c@);
                Some(v)
            }
        },
    }
}

/// `Path::file_stem` of a file name (see [`file_stem`]).
pub fn name_stem(name: &[char]) -> (r: String)
    ensures
        r@ == file_stem(name@),
{
    let mut dot: Option<usize> = None;
    let mut i: usize = name.len();
    assert(name@.take(i as int) =~= name@);
    while i > 0
        invariant
            i <= name@.len(),
            last_index_of(name@, '.') == match dot {
                Some(p) => Some(p as int),
                None => last_index_of(name@.take(i as int), '.'),
            },
            dot matches Some(p) ==> p < name@.len(),
        decreases i,
    {
        if dot.is_none() {
            assert(name@.take(i as int).drop_last() =~= name@.take(i - 1));
            if name[i - 1] == '.' {
                dot = Some(i - 1);
            }
        }
        i = i - 1;
    }
    match dot {
        Some(p) => if p == 0 {
            string_of(name)
        } else {
            let r = string_of(vstd::slice::slice_subrange(name, 0, p));
            assert(r@ =~= name@.take(p as int));
            r
        },
        None => {
            assert(name@.take(0) =~= seq![]);
            string_of(name)
        },
    }
}

} // verus!

verus! {

pub open spec fn opt_text(o: Option<String>) -> Option<Seq<char>> {
    match o {
        Some(s) => Some(s@),
        None => None,
    }
}

fn largest_file_index(files: &[MetaFile]) -> (r: Option<usize>)
    ensures
        match largest_file(files@) {
            Some(i) => r == Some(i as usize),
            None => r is None,
        },
{
    let mut best: Option<usize> = None;
    let mut i: usize = 0;
    while i < files.len()
        invariant
            i <= files@.len(),
            match largest_file(files@.take(i as int)) {
                Some(j) => best == Some(j as usize) && j < i,
                None => best is None,
            },
        decreases files@.len() - i,
    {
        assert(files@.take(i + 1).drop_last() =~= files@.take(i as int));
        proof {
            lemma_largest_file_bound(files@.take(i as int));
        }
        if !files[i].padding {
            match best {
                Some(j) => {
                    assert(files@.take(i + 1)[j as int] == files@[j as int]);
                    if files[j].len <= files[i].len {
                        best = Some(i);
                    }
                },
                None => {
                    best = Some(i);
                },
            }
        }
        i = i + 1;
    }
    assert(files@.take(i as int) =~= files@);
    best
}

proof fn lemma_texts_push(s: Seq<String>, x: String)
    ensures
        texts_of(s.push(x)) == texts_of(s).push(x@),
{
    assert(texts_of(s.push(x)) =~= texts_of(s).push(x@));
}

fn copy_texts(v: &Vec<String>) -> (r: Vec<String>)
    ensures
        r@ == v@,
{
    let mut out: Vec<String> = Vec::new();
    let mut i: usize = 0;
    while i < v.len()
        invariant
            i <= v@.len(),
            out@ == v@.take(i as int),
        decreases v@.len() - i,
    {
        out.push(v[i].clone());
        i = i + 1;
        assert(out@ =~= v@.take(i as int));
    }
    assert(v@.take(i as int) =~= v@);
    out
}

/// The folder of a torrent's files under the download folder (see [`torrent_folder`]).
pub fn folder_components(name: &Option<String>, files: &[MetaFile]) -> (r: Vec<String>)
    ensures
        texts_of(r@) == torrent_folder(opt_text(*name), files@),
{
    if files.len() < 2 {
        let none: Vec<String> = Vec::new();
        assert(texts_of(none@) =~= seq![]);
        return none;
    }
    match name {
        Some(n) => path_components(n.as_str()),
        None => {
            proof {
                lemma_largest_file_bound(files@);
            }
            let mut out: Vec<String> = Vec::new();
            match largest_file_index(files) {
                Some(i) => match path_file_name(files[i].path.as_str()) {
                    Some(f) => {
                        let stem = name_stem(f.as_slice());
                        out.push(stem);
                        assert(texts_of(out@) =~= seq![file_stem(f@)]);
                    },
                    None => {
                        assert(texts_of(out@) =~= seq![]);
                    },
                },
                None => {
                    assert(texts_of(out@) =~= seq![]);
                },
            }
            out
        },
    }
}

/// A file that may be an untouched stub: where it lies (components under the download
/// folder) and the length the torrent declares for it.
#[derive(Clone, Debug)]
pub struct StubCandidate {
    pub components: Vec<String>,
    pub expected_len: u64,
}

pub open spec fn candidate_view(c: StubCandidate) -> (Seq<Seq<char>>, u64) {
    (texts_of(c.components@), c.expected_len)
}

/// Verified bytes of file `i`; a file the progress list does not reach counts as 0.
pub open spec fn progress_at(progress: Seq<u64>, i: int) -> u64 {
    if 0 <= i < progress.len() {
        progress[i]
    } else {
        0
    }
}

/// The files to consider for removal after a selection: not padding, not selected, with
/// no verified byte, and with a path that keeps at least one component once made safe.
pub open spec fn stub_list(
    folder: Seq<Seq<char>>,
    files: Seq<MetaFile>,
    selected: Seq<usize>,
    progress: Seq<u64>,
) -> Seq<(Seq<Seq<char>>, u64)>
    decreases files.len(),
{
    if files.len() == 0 {
        seq![]
    } else {
        let prev = stub_list(folder, files.drop_last(), selected, progress);
        let i = files.len() - 1;
        let f = files.last();
        if !f.padding && !selected.contains(i as usize) && progress_at(progress, i) == 0
            && safe_components(f.path@).len() > 0 {
            prev.push((folder + safe_components(f.path@), f.len))
        } else {
            prev
        }
    }
}

/// The unselected files that may be stubs left by preallocation, with where they lie.
pub fn stub_candidates(
    torrent_name: &Option<String>,
    files: &[MetaFile],
    selected: &[usize],
    file_progress: &[u64],
) -> (r: Vec<StubCandidate>)
    ensures
        r@.map_values(|c: StubCandidate| candidate_view(c)) == stub_list(
            torrent_folder(opt_text(*torrent_name), files@),
            files@,
            selected@,
            file_progress@,
        ),
{
    let folder = folder_components(torrent_name, files);
    let ghost fv = torrent_folder(opt_text(*torrent_name), files@);
    let mut out: Vec<StubCandidate> = Vec::new();
    let mut i: usize = 0;
    while i < files.len()
        invariant
            texts_of(folder@) == fv,
            i <= files@.len(),
            out@.map_values(|c: StubCandidate| candidate_view(c)) == stub_list(
                fv,
                files@.take(i as int),
                selected@,
                file_progress@,
            ),
        decreases files@.len() - i,
    {
        assert(files@.take(i + 1).drop_last() =~= files@.take(i as int));
        let ghost prev = out@;
        let f = &files[i];
        let mut chosen = false;
        let mut k: usize = 0;
        while k < selected.len()
            invariant
                k <= selected@.len(),
                chosen <==> selected@.take(k as int).contains(i),
            decreases selected@.len() - k,
        {
            assert(selected@.take(k + 1) =~= selected@.take(k as int).push(selected@[k as int]));
            proof {
                crate::textual::lemma_push_contains(selected@.take(k as int), selected@[k as int], i);
            }
            if selected[k] == i {
                chosen = true;
            }
            k = k + 1;
        }
        assert(selected@.take(k as int) =~= selected@);
        let progress = if i < file_progress.len() {
            file_progress[i]
        } else {
            0
        };
        if !f.padding && !chosen && progress == 0 {
            let rel = path_components(f.path.as_str());
            if rel.len() > 0 {
                let mut comps = copy_texts(&folder);
                let mut m: usize = 0;
                while m < rel.len()
                    invariant
                        m <= rel@.len(),
                        texts_of(comps@) == fv + texts_of(rel@).take(m as int),
                    decreases rel@.len() - m,
                {
                    let ghost before = comps@;
                    comps.push(rel[m].clone());
                    proof {
                        lemma_texts_push(before, rel@[m as int]);
                        assert(texts_of(rel@).take(m + 1) =~= texts_of(rel@).take(m as int).push(
                            rel@[m as int]@,
                        ));
                    }
                    m = m + 1;
                    assert(texts_of(comps@) =~= fv + texts_of(rel@).take(m as int));
                }
                assert(texts_of(rel@).take(m as int) =~= texts_of(rel@));
                out.push(StubCandidate { components: comps, expected_len: f.len });
                assert(out@.map_values(|c: StubCandidate| candidate_view(c)) =~= prev.map_values(
                    |c: StubCandidate| candidate_view(c),
                ).push((fv + safe_components(f.path@), f.len)));
            }
        }
        i = i + 1;
    }
    assert(files@.take(i as int) =~= files@);
    out
}

/// A file on disk is an untouched stub of the torrent when the torrent declares a
/// non-zero length, the file has exactly that length, and it was last modified no later
/// than two seconds after this engine added the torrent. Without an add time (a torrent
/// restored from an earlier run) or a modification time, nothing is a stub.
pub open spec fn is_stub(on_disk_len: u64, expected_len: u64, modified: Option<i128>, added_at: Option<
    i128,
>) -> bool {
    &&& on_disk_len == expected_len
    &&& expected_len != 0
    &&& added_at matches Some(t) && modified matches Some(m) && m <= t + 2_000_000_000
}

/// Whether a file found on disk is an untouched stub (see [`is_stub`]).
pub fn is_preallocated_stub(
    on_disk_len: u64,
    expected_len: u64,
    modified: Option<i128>,
    added_at: Option<i128>,
) -> (r: bool)
    ensures
        r == is_stub(on_disk_len, expected_len, modified, added_at),
{
    if on_disk_len != expected_len || expected_len == 0 {
        return false;
    }
    match (added_at, modified) {
        (Some(t), Some(m)) => {
            match t.checked_add(2_000_000_000) {
                Some(cutoff) => m <= cutoff,
                None => true,
            }
        },
        _ => false,
    }
}

} // verus!

verus! {

proof fn lemma_segments_shape(s: Seq<char>, sep: char)
    ensures
        segments(s, sep).len() >= 1,
        forall|k: int|
            0 <= k < segments(s, sep).len() ==> !(#[trigger] segments(s, sep)[k]).contains(sep),
    decreases s.len(),
{
    if s.len() > 0 {
        let p = segments(s.drop_last(), sep);
        lemma_segments_shape(s.drop_last(), sep);
        let r = segments(s, sep);
        if s.last() == sep {
            assert forall|k: int| 0 <= k < r.len() implies !(#[trigger] r[k]).contains(sep) by {
                if k < p.len() {
                    assert(r[k] == p[k]);
                } else {
                    assert(r[k] =~= seq![]);
                }
            }
        } else {
            let last = p.last().push(s.last());
            assert forall|k: int| 0 <= k < r.len() implies !(#[trigger] r[k]).contains(sep) by {
                if k < p.len() - 1 {
                    assert(r[k] == p[k]);
                } else {
                    assert(r[k] == last);
                    assert(!p[p.len() - 1].contains(sep));
                    if last.contains(sep) {
                        let j = choose|j: int| 0 <= j < last.len() && last[j] == sep;
                        assert(j < last.len() - 1);
                        assert(p.last()[j] == sep);
                    }
                }
            }
        }
    }
}

proof fn lemma_named_parts_from(segs: Seq<Seq<char>>)
    ensures
        forall|k: int|
            0 <= k < named_parts(segs).len() ==> {
                let c = #[trigger] named_parts(segs)[k];
                &&& c.len() > 0
                &&& !is_dot(c)
                &&& !is_dot_dot(c)
                &&& exists|j: int| 0 <= j < segs.len() && segs[j] == c
            },
    decreases segs.len(),
{
    if segs.len() > 0 {
        let p = named_parts(segs.drop_last());
        lemma_named_parts_from(segs.drop_last());
        let r = named_parts(segs);
        assert forall|k: int| 0 <= k < r.len() implies {
            let c = #[trigger] r[k];
            &&& c.len() > 0
            &&& !is_dot(c)
            &&& !is_dot_dot(c)
            &&& exists|j: int| 0 <= j < segs.len() && segs[j] == c
        } by {
            if k < p.len() {
                assert(r[k] == p[k]);
                let j = choose|j: int| 0 <= j < segs.len() - 1 && segs.drop_last()[j] == p[k];
                assert(segs[j] == p[k]);
            } else {
                assert(segs[segs.len() - 1] == r[k]);
            }
        }
    }
}

/// The components a path is reduced to are plain names: none is empty, `.` or `..`, and
/// none holds a `/`, so joining them under a folder never leaves that folder.
pub proof fn law_safe_components_are_names(path: Seq<char>)
    ensures
        forall|k: int|
            0 <= k < safe_components(path).len() ==> {
                let c = #[trigger] safe_components(path)[k];
                &&& c.len() > 0
                &&& !is_dot(c)
                &&& !is_dot_dot(c)
                &&& !c.contains('/')
            },
{
    let segs = segments(path, '/');
    lemma_segments_shape(path, '/');
    lemma_named_parts_from(segs);
    assert forall|k: int| 0 <= k < safe_components(path).len() implies {
        let c = #[trigger] safe_components(path)[k];
        &&& c.len() > 0
        &&& !is_dot(c)
        &&& !is_dot_dot(c)
        &&& !c.contains('/')
    } by {
        let c = safe_components(path)[k];
        let j = choose|j: int| 0 <= j < segs.len() && segs[j] == c;
        assert(!segs[j].contains('/'));
    }
}

/// Only files that may safely go are ever considered for removal: each candidate is a
/// file of the torrent that is not padding, not selected and has no verified byte, and
/// lies at the torrent's folder followed by the file's own path reduced to plain names.
pub proof fn law_stub_candidates_are_unselected_untouched(
    folder: Seq<Seq<char>>,
    files: Seq<MetaFile>,
    selected: Seq<usize>,
    progress: Seq<u64>,
)
    ensures
        forall|k: int|
            0 <= k < stub_list(folder, files, selected, progress).len() ==> exists|i: int|
                0 <= i < files.len() && !files[i].padding && !selected.contains(i as usize)
                    && progress_at(progress, i) == 0 && safe_components(files[i].path@).len() > 0
                    && #[trigger] stub_list(folder, files, selected, progress)[k] == (
                    folder + safe_components(files[i].path@),
                    files[i].len,
                ),
    decreases files.len(),
{
    if files.len() > 0 {
        let prev = stub_list(folder, files.drop_last(), selected, progress);
        law_stub_candidates_are_unselected_untouched(folder, files.drop_last(), selected, progress);
        let r = stub_list(folder, files, selected, progress);
        assert forall|k: int| 0 <= k < r.len() implies exists|i: int|
            0 <= i < files.len() && !files[i].padding && !selected.contains(i as usize)
                && progress_at(progress, i) == 0 && safe_components(files[i].path@).len() > 0
                && #[trigger] r[k] == (folder + safe_components(files[i].path@), files[i].len) by {
            if k < prev.len() {
                assert(r[k] == prev[k]);
                let i = choose|i: int|
                    0 <= i < files.len() - 1 && !files.drop_last()[i].padding && !selected.contains(
                        i as usize,
                    ) && progress_at(progress, i) == 0 && safe_components(
                        files.drop_last()[i].path@,
                    ).len() > 0 && #[trigger] prev[k] == (
                        folder + safe_components(files.drop_last()[i].path@),
                        files.drop_last()[i].len,
                    );
                assert(files[i] == files.drop_last()[i]);
            } else {
                let i = files.len() - 1;
                assert(files[i] == files.last());
            }
        }
    }
}

} // verus!

verus! {

/// A torrent of two or more files lies in a folder of its own: the torrent's name made
/// safe, or, without a name, a single folder named after one of its files. Only a torrent
/// of one file (or none) lies directly in the download folder.
pub proof fn law_multi_file_torrents_get_own_folder(name: Option<Seq<char>>, files: Seq<MetaFile>)
    ensures
        name matches Some(n) ==> (files.len() >= 2 ==> torrent_folder(name, files)
            == safe_components(n)),
        name is None && files.len() >= 2 ==> torrent_folder(name, files).len() <= 1,
        files.len() < 2 ==> torrent_folder(name, files) == Seq::<Seq<char>>::empty(),
{
}

} // verus!
