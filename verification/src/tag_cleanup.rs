//! Media tag cleanup: whose name goes into the Artist tags of each file, which
//! files can be cleaned, and how each file of a run is recorded.
use vstd::prelude::*;
use crate::ids::new_uuid;
use crate::metadata::{media_type_of, MediaType};
use crate::models::{
    KeywordAlias, MediaTagCleanupExecuteRequest, MediaTagCleanupFile, MediaTagCleanupResult, Operation,
    OperationStatus, UndoStatus, ExecutionSummary,
};
use crate::paths::{extension_of, join_chars_on, join_path_on, author_folder_name, author_folder_of, key_of, path_key, selected_root_folder_name, selected_root_name_of};
use crate::classify::pair_views;
use crate::text::{
    concat_chars, decimal, decimal_chars, chars_of, concat_str, contains_str, match_key, normalize_match_text, owned, str_eq, string_of, sviews, trim, trim_ws,
};

use crate::execution::{size_changed_message, size_verdict};

verus! {

// ---------------------------------------------------------- folder mode

/// Where the author's name is read from the folders.
#[derive(Debug, Clone, Copy, PartialEq, Eq, Structural)]
pub enum AuthorFolderMode {
    /// The first folder below the scan root.
    Children,
    /// The scan root itself.
    Selected,
}

impl AuthorFolderMode {
    pub fn parse(value: &str) -> (r: Result<AuthorFolderMode, String>)
        ensures
            value@ == "children"@ ==> r == Ok::<AuthorFolderMode, String>(AuthorFolderMode::Children),
            value@ == "selected"@ ==> r == Ok::<AuthorFolderMode, String>(AuthorFolderMode::Selected),
            value@ != "children"@ && value@ != "selected"@ ==> (r matches Err(m) && m@ == "作者目录层级无效，请重新选择"@),
    {
        proof {
            reveal_strlit("children");
            reveal_strlit("selected");
            assert("children"@[0] != "selected"@[0]);
        }
        if str_eq(value, "children") {
            Ok(AuthorFolderMode::Children)
        } else if str_eq(value, "selected") {
            Ok(AuthorFolderMode::Selected)
        } else {
            Err(owned("作者目录层级无效，请重新选择"))
        }
    }

    pub fn as_str(self) -> (r: &'static str)
        ensures
            r@ == (match self {
                AuthorFolderMode::Children => "children"@,
                AuthorFolderMode::Selected => "selected"@,
            }),
    {
        match self {
            AuthorFolderMode::Children => "children",
            AuthorFolderMode::Selected => "selected",
        }
    }
}

// -------------------------------------------------------------- authors

/// The key two spellings of an author share: trimmed, lowercased, without whitespace.
pub fn normalize_author_key(value: &str) -> (r: String)
    ensures
        r@ == match_key(value@),
{
    normalize_match_text(value)
}

/// The author for each alias key: the canonical name of the last alias with
/// that key, among aliases whose key and canonical name are not blank.
pub open spec fn author_alias(aliases: Seq<(Seq<char>, Seq<char>)>, key: Seq<char>) -> Option<Seq<char>>
    decreases aliases.len(),
{
    if aliases.len() == 0 {
        None
    } else if aliases.last().0 == key {
        Some(aliases.last().1)
    } else {
        author_alias(aliases.drop_last(), key)
    }
}

/// The alias pairs of the knowledge base that can name an author.
pub open spec fn author_pairs(aliases: Seq<KeywordAlias>) -> Seq<(Seq<char>, Seq<char>)>
    decreases aliases.len(),
{
    if aliases.len() == 0 {
        Seq::empty()
    } else {
        let prev = author_pairs(aliases.drop_last());
        let a = aliases.last();
        let k = match_key(a.alias@);
        if k.len() > 0 && trim(a.canonical@).len() > 0 { prev.push((k, a.canonical@)) } else { prev }
    }
}

pub fn build_author_aliases(aliases: &Vec<KeywordAlias>) -> (r: Vec<(String, String)>)
    ensures
        pair_views(r@) == author_pairs(aliases@),
{
    let mut r: Vec<(String, String)> = Vec::new();
    let mut i: usize = 0;
    while i < aliases.len()
        invariant
            i <= aliases.len(),
            pair_views(r@) == author_pairs(aliases@.take(i as int)),
        decreases aliases.len() - i,
    {
        assert(aliases@.take(i + 1).drop_last() =~= aliases@.take(i as int));
        let k = normalize_author_key(aliases[i].alias.as_str());
        let kc = chars_of(k.as_str());
        let cv = chars_of(aliases[i].canonical.as_str());
        let ct = trim_ws(&cv);
        if kc.len() > 0 && ct.len() > 0 {
            let ghost r0 = r@;
            r.push((k, aliases[i].canonical.clone()));
            assert(pair_views(r@) =~= pair_views(r0).push((match_key(aliases@[i as int].alias@), aliases@[i as int].canonical@)));
        }
        i = i + 1;
    }
    assert(aliases@.take(aliases.len() as int) =~= aliases@);
    r
}

/// The author's canonical name: from the aliases when its key is known, else trimmed.
pub open spec fn canonical_author_of(author: Seq<char>, aliases: Seq<(Seq<char>, Seq<char>)>) -> Seq<char> {
    match author_alias(aliases, match_key(author)) {
        Some(c) => c,
        None => trim(author),
    }
}

pub fn canonical_author(author: &str, aliases: &Vec<(String, String)>) -> (r: String)
    ensures
        r@ == canonical_author_of(author@, pair_views(aliases@)),
{
    let key = normalize_author_key(author);
    let ghost a = pair_views(aliases@);
    let mut i: usize = aliases.len();
    assert(a.take(i as int) =~= a);
    while i > 0
        invariant
            i <= aliases.len(),
            a == pair_views(aliases@),
            key@ == match_key(author@),
            author_alias(a, key@) == author_alias(a.take(i as int), key@),
        decreases i,
    {
        assert(a.take(i as int).drop_last() =~= a.take(i - 1));
        assert(a.take(i as int).last() == (aliases@[i - 1].0@, aliases@[i - 1].1@));
        if str_eq(aliases[i - 1].0.as_str(), key.as_str()) {
            return owned(aliases[i - 1].1.as_str());
        }
        i = i - 1;
    }
    assert(a.take(0) =~= Seq::<(Seq<char>, Seq<char>)>::empty());
    let v = chars_of(author);
    let t = trim_ws(&v);
    string_of(&t)
}

/// The author a file's tags should name, and where it was found: the author
/// folder first, then the file's own Artist tag.
pub open spec fn target_artist_of(
    path: Seq<char>,
    roots: Seq<Seq<char>>,
    aliases: Seq<(Seq<char>, Seq<char>)>,
    current: Option<Seq<char>>,
    mode: AuthorFolderMode,
) -> (Option<Seq<char>>, Seq<char>) {
    let folder = match mode {
        AuthorFolderMode::Children => author_folder_of(path, roots),
        AuthorFolderMode::Selected => selected_root_name_of(path, roots),
    };
    match folder {
        Some(f) => (Some(canonical_author_of(f, aliases)), match mode {
            AuthorFolderMode::Children => "一级作者目录"@,
            AuthorFolderMode::Selected => "所选作者目录"@,
        }),
        None => match current {
            Some(a) => if trim(a).len() > 0 {
                (Some(canonical_author_of(trim(a), aliases)), "现有 Artist 标签"@)
            } else {
                (None, "未识别"@)
            },
            None => (None, "未识别"@),
        },
    }
}

pub fn infer_target_artist(
    path: &str,
    roots: &Vec<String>,
    aliases: &Vec<(String, String)>,
    current_artist: Option<&str>,
    folder_mode: AuthorFolderMode,
) -> (r: (Option<String>, String))
    ensures
        ({
            let t = target_artist_of(path@, sviews(roots@), pair_views(aliases@), match current_artist {
                Some(a) => Some(a@),
                None => None,
            }, folder_mode);
            &&& r.1@ == t.1
            &&& match t.0 {
                Some(a) => r.0 matches Some(x) && x@ == a,
                None => r.0 is None,
            }
        }),
{
    let folder = match folder_mode {
        AuthorFolderMode::Children => author_folder_name(path, roots),
        AuthorFolderMode::Selected => selected_root_folder_name(path, roots),
    };
    if let Some(f) = folder {
        let label = match folder_mode {
            AuthorFolderMode::Children => owned("一级作者目录"),
            AuthorFolderMode::Selected => owned("所选作者目录"),
        };
        return (Some(canonical_author(f.as_str(), aliases)), label);
    }
    if let Some(a) = current_artist {
        let v = chars_of(a);
        let t = trim_ws(&v);
        if t.len() > 0 {
            let ts = string_of(&t);
            return (Some(canonical_author(ts.as_str(), aliases)), owned("现有 Artist 标签"));
        }
    }
    (None, owned("未识别"))
}

// ---------------------------------------------------------------- scan

/// Audio and video files carry the tags a cleanup rewrites.
pub open spec fn is_tagged_media(path: Seq<char>) -> bool {
    media_type_of(path) == Some(MediaType::Audio) || media_type_of(path) == Some(MediaType::Video)
}

pub open spec fn raw_views(v: Seq<(String, u64)>) -> Seq<(Seq<char>, u64)> {
    Seq::new(v.len(), |i: int| (v[i].0@, v[i].1))
}

/// The audio and video files, each path key once (the first kept), in order.
pub open spec fn tag_files_of(raw: Seq<(Seq<char>, u64)>, windows: bool) -> Seq<(Seq<char>, u64)>
    decreases raw.len(),
{
    if raw.len() == 0 {
        Seq::empty()
    } else {
        let prev = tag_files_of(raw.drop_last(), windows);
        let f = raw.last();
        if is_tagged_media(f.0) && !prev.map_values(|p: (Seq<char>, u64)| key_of(p.0, windows)).contains(key_of(f.0, windows)) {
            prev.push(f)
        } else {
            prev
        }
    }
}

/// The files a tag cleanup scans are the audio and video files found, each
/// path key once: every one of them is a found audio or video file, no two
/// share a key, and every found audio or video file has its key among them.
pub proof fn lemma_tag_files(raw: Seq<(Seq<char>, u64)>, windows: bool)
    ensures
        ({
            let t = tag_files_of(raw, windows);
            &&& forall|i: int| 0 <= i < t.len() ==> is_tagged_media((#[trigger] t[i]).0) && raw.contains(t[i])
            &&& forall|i: int, j: int| 0 <= i < j < t.len() ==> key_of((#[trigger] t[i]).0, windows) != key_of((#[trigger] t[j]).0, windows)
            &&& forall|k: int| 0 <= k < raw.len() && is_tagged_media((#[trigger] raw[k]).0)
                ==> exists|i: int| 0 <= i < t.len() && key_of(t[i].0, windows) == key_of(raw[k].0, windows)
        }),
    decreases raw.len(),
{
    if raw.len() > 0 {
        let r0 = raw.drop_last();
        lemma_tag_files(r0, windows);
        let p = tag_files_of(r0, windows);
        let f = raw.last();
        let t = tag_files_of(raw, windows);
        let keys = p.map_values(|q: (Seq<char>, u64)| key_of(q.0, windows));
        assert forall|k: int| 0 <= k < r0.len() implies #[trigger] r0[k] == raw[k] by {}
        assert(raw[raw.len() - 1] == f);
        if is_tagged_media(f.0) && !keys.contains(key_of(f.0, windows)) {
            assert(t == p.push(f));
            assert forall|i: int| 0 <= i < t.len() implies is_tagged_media((#[trigger] t[i]).0) && raw.contains(t[i]) by {
                if i < p.len() {
                    assert(t[i] == p[i]);
                    let k = choose|k: int| 0 <= k < r0.len() && r0[k] == p[i];
                    assert(raw[k] == r0[k]);
                } else {
                    assert(raw[raw.len() - 1] == t[i]);
                }
            }
            assert forall|i: int, j: int| 0 <= i < j < t.len() implies key_of((#[trigger] t[i]).0, windows) != key_of((#[trigger] t[j]).0, windows) by {
                if j == p.len() {
                    assert(t[i] == p[i]);
                    assert(keys[i] == key_of(p[i].0, windows));
                } else {
                    assert(t[i] == p[i] && t[j] == p[j]);
                }
            }
            assert forall|k: int| 0 <= k < raw.len() && is_tagged_media((#[trigger] raw[k]).0)
                implies exists|i: int| 0 <= i < t.len() && key_of(t[i].0, windows) == key_of(raw[k].0, windows) by {
                if k < r0.len() {
                    assert(r0[k] == raw[k]);
                    let i = choose|i: int| 0 <= i < p.len() && key_of(p[i].0, windows) == key_of(r0[k].0, windows);
                    assert(t[i] == p[i]);
                } else {
                    assert(t[p.len() as int] == f);
                }
            }
        } else {
            assert(t == p);
            assert forall|i: int| 0 <= i < t.len() implies is_tagged_media((#[trigger] t[i]).0) && raw.contains(t[i]) by {
                let k = choose|k: int| 0 <= k < r0.len() && r0[k] == p[i];
                assert(raw[k] == r0[k]);
            }
            assert forall|k: int| 0 <= k < raw.len() && is_tagged_media((#[trigger] raw[k]).0)
                implies exists|i: int| 0 <= i < t.len() && key_of(t[i].0, windows) == key_of(raw[k].0, windows) by {
                if k < r0.len() {
                    assert(r0[k] == raw[k]);
                } else {
                    assert(keys.contains(key_of(f.0, windows)));
                    let i = choose|i: int| 0 <= i < keys.len() && keys[i] == key_of(f.0, windows);
                    assert(keys[i] == key_of(p[i].0, windows));
                }
            }
        }
    }
}

pub fn select_tag_files(raw: &Vec<(String, u64)>, windows: bool) -> (r: Vec<(String, u64)>)
    ensures
        raw_views(r@) == tag_files_of(raw_views(raw@), windows),
{
    let ghost f = raw_views(raw@);
    let mut r: Vec<(String, u64)> = Vec::new();
    let mut keys: Vec<String> = Vec::new();
    let mut i: usize = 0;
    while i < raw.len()
        invariant
            i <= raw.len(),
            f == raw_views(raw@),
            raw_views(r@) == tag_files_of(f.take(i as int), windows),
            sviews(keys@) == tag_files_of(f.take(i as int), windows).map_values(|p: (Seq<char>, u64)| key_of(p.0, windows)),
        decreases raw.len() - i,
    {
        assert(f.take(i + 1).drop_last() =~= f.take(i as int));
        assert(f.take(i + 1).last() == (raw@[i as int].0@, raw@[i as int].1));
        let p = raw[i].0.as_str();
        let t = crate::metadata::get_media_type(p);
        let tagged = match t {
            Some(MediaType::Audio) => true,
            Some(MediaType::Video) => true,
            _ => false,
        };
        let key = path_key(p, windows);
        if tagged && !contains_str(&keys, key.as_str()) {
            let ghost r0 = r@;
            let ghost k0 = keys@;
            let ghost prev = tag_files_of(f.take(i as int), windows);
            r.push((raw[i].0.clone(), raw[i].1));
            keys.push(key);
            assert(raw_views(r@) =~= raw_views(r0).push((raw@[i as int].0@, raw@[i as int].1)));
            assert(sviews(keys@) =~= sviews(k0).push(key_of(raw@[i as int].0@, windows)));
            assert(prev.push((raw@[i as int].0@, raw@[i as int].1)).map_values(|p: (Seq<char>, u64)| key_of(p.0, windows))
                =~= prev.map_values(|p: (Seq<char>, u64)| key_of(p.0, windows)).push(key_of(raw@[i as int].0@, windows)));
        }
        i = i + 1;
    }
    assert(f.take(raw.len() as int) =~= f);
    r
}

/// The reason a file is left out of a cleanup, if any: the write check, a
/// missing content snapshot, or no author found.
pub open spec fn skip_reason_of(write_check: Result<(), String>, verify: bool, sha256: Seq<char>, artist: Option<Seq<char>>) -> Option<Seq<char>> {
    match write_check {
        Err(e) => Some(e@),
        Ok(()) => if verify && sha256.len() == 0 {
            Some("无法生成文件内容快照，请检查文件是否可读取"@)
        } else if artist is None {
            Some("未找到一级作者目录，且文件没有可用的 Artist 标签"@)
        } else {
            None
        },
    }
}

/// The scan's entry for one file. `write_check` says whether its tags can be
/// written; `sha256` is its content hash (empty when not taken or not available).
pub fn cleanup_file_entry(
    path: &str,
    size_bytes: u64,
    current_artist: Option<String>,
    target: (Option<String>, String),
    write_check: Result<(), String>,
    verify_content_hash: bool,
    sha256: String,
) -> (r: MediaTagCleanupFile)
    ensures
        r.path@ == path@,
        r.file_name@ == crate::paths::name_or_empty(path@),
        r.size_bytes == size_bytes,
        r.sha256 == sha256,
        r.media_type@ == crate::media_scan::media_type_or_unknown(path@),
        r.current_artist == current_artist,
        r.target_artist == target.0,
        r.author_source == target.1,
        r.supported == (write_check is Ok),
        match skip_reason_of(write_check, verify_content_hash, sha256@, match target.0 { Some(a) => Some(a@), None => None }) {
            Some(m) => r.skip_reason matches Some(x) && x@ == m,
            None => r.skip_reason is None,
        },
        r.checked == (write_check is Ok && target.0 is Some && (!verify_content_hash || sha256@.len() > 0)),
        r.checked <==> r.skip_reason is None,
        r.checked ==> r.supported && r.target_artist is Some,
{
    let supported = write_check.is_ok();
    let sv = chars_of(sha256.as_str());
    let has_artist = target.0.is_some();
    let skip_reason = match write_check {
        Err(e) => Some(e),
        Ok(()) => {
            if verify_content_hash && sv.len() == 0 {
                Some(owned("无法生成文件内容快照，请检查文件是否可读取"))
            } else if !has_artist {
                Some(owned("未找到一级作者目录，且文件没有可用的 Artist 标签"))
            } else {
                None
            }
        },
    };
    let pv = chars_of(path);
    let (name, _stem, _ext) = crate::paths::name_parts(&pv);
    let media_type = match crate::metadata::media_type_label(path) {
        Some(l) => owned(l),
        None => owned("unknown"),
    };
    MediaTagCleanupFile {
        path: owned(path),
        file_name: string_of(&name),
        size_bytes,
        sha256,
        media_type,
        current_artist,
        target_artist: target.0,
        author_source: target.1,
        supported,
        skip_reason,
        checked: supported && has_artist && (!verify_content_hash || sv.len() > 0),
    }
}

/// How many entries are ready to clean.
pub open spec fn ready_count_of(files: Seq<MediaTagCleanupFile>) -> nat
    decreases files.len(),
{
    if files.len() == 0 {
        0
    } else {
        ready_count_of(files.drop_last()) + if files.last().checked { 1nat } else { 0nat }
    }
}

/// The scan result over the entries; a scan needs at least one directory.
pub fn cleanup_scan_result(
    task_id: String,
    paths: Vec<String>,
    mode: AuthorFolderMode,
    cleanup_mode: String,
    verify_content_hash: bool,
    files: Vec<MediaTagCleanupFile>,
) -> (r: Result<MediaTagCleanupResult, String>)
    ensures
        paths@.len() == 0 ==> (r matches Err(m) && m@ == "请至少选择一个扫描目录"@),
        paths@.len() > 0 ==> (r matches Ok(res) && res.task_id == task_id && res.source_paths == paths
            && res.author_folder_mode@ == (match mode { AuthorFolderMode::Children => "children"@, AuthorFolderMode::Selected => "selected"@ })
            && res.cleanup_mode == cleanup_mode && res.verify_content_hash == verify_content_hash
            && res.scanned_count == files@.len() && res.ready_count == ready_count_of(files@) && res.files == files),
{
    if paths.len() == 0 {
        return Err(owned("请至少选择一个扫描目录"));
    }
    let mut ready: u64 = 0;
    let mut i: usize = 0;
    while i < files.len()
        invariant
            i <= files.len(),
            ready == ready_count_of(files@.take(i as int)),
            ready <= i,
        decreases files.len() - i,
    {
        assert(files@.take(i + 1).drop_last() =~= files@.take(i as int));
        if files[i].checked {
            ready = ready + 1;
        }
        i = i + 1;
    }
    assert(files@.take(files.len() as int) =~= files@);
    let n = files.len() as u64;
    Ok(MediaTagCleanupResult {
        task_id,
        source_paths: paths,
        author_folder_mode: owned(mode.as_str()),
        cleanup_mode,
        verify_content_hash,
        scanned_count: n,
        ready_count: ready,
        files,
    })
}

// ------------------------------------------------------------- execution

/// The values of `s`, each once, in the order first seen.
pub open spec fn distinct_texts(s: Seq<Seq<char>>) -> Seq<Seq<char>>
    decreases s.len(),
{
    if s.len() == 0 {
        Seq::empty()
    } else {
        let prev = distinct_texts(s.drop_last());
        if prev.contains(s.last()) { prev } else { prev.push(s.last()) }
    }
}

/// The indices of the scanned files whose paths were selected, in order.
pub open spec fn selected_files_of(files: Seq<MediaTagCleanupFile>, sel: Seq<Seq<char>>, n: int) -> Seq<int>
    decreases n,
{
    if n <= 0 {
        Seq::empty()
    } else {
        let prev = selected_files_of(files, sel, n - 1);
        if sel.contains(files[n - 1].path@) { prev.push(n - 1) } else { prev }
    }
}

proof fn lemma_distinct_texts(s: Seq<Seq<char>>)
    ensures
        distinct_texts(s).no_duplicates(),
        forall|x: Seq<char>| #[trigger] distinct_texts(s).contains(x) <==> s.contains(x),
    decreases s.len(),
{
    if s.len() > 0 {
        let s0 = s.drop_last();
        lemma_distinct_texts(s0);
        let d0 = distinct_texts(s0);
        let d = distinct_texts(s);
        assert forall|x: Seq<char>| #[trigger] d.contains(x) <==> s.contains(x) by {
            if s.contains(x) {
                let k = choose|k: int| 0 <= k < s.len() && s[k] == x;
                if k < s.len() - 1 {
                    assert(s0[k] == x);
                    assert(d0.contains(x));
                    let m = choose|m: int| 0 <= m < d0.len() && d0[m] == x;
                    if !d0.contains(s.last()) {
                        assert(d[m] == x);
                    }
                } else if !d0.contains(s.last()) {
                    assert(d[d0.len() as int] == x);
                }
            }
            if d.contains(x) {
                let m = choose|m: int| 0 <= m < d.len() && d[m] == x;
                if m < d0.len() {
                    assert(d0[m] == x);
                    assert(d0.contains(x));
                    let k = choose|k: int| 0 <= k < s0.len() && s0[k] == x;
                    assert(s[k] == x);
                } else {
                    assert(s[s.len() - 1] == x);
                }
            }
        }
    }
}

proof fn lemma_selected_files(files: Seq<MediaTagCleanupFile>, sel: Seq<Seq<char>>, n: int)
    requires
        0 <= n <= files.len(),
    ensures
        forall|a: int, b: int| 0 <= a < b < selected_files_of(files, sel, n).len() ==>
            #[trigger] selected_files_of(files, sel, n)[a] < #[trigger] selected_files_of(files, sel, n)[b],
        forall|j: int| 0 <= j < selected_files_of(files, sel, n).len() ==> 0 <= #[trigger] selected_files_of(files, sel, n)[j] < n
            && sel.contains(files[selected_files_of(files, sel, n)[j]].path@),
        forall|i: int| 0 <= i < n && sel.contains(#[trigger] files[i].path@) ==>
            exists|j: int| 0 <= j < selected_files_of(files, sel, n).len() && selected_files_of(files, sel, n)[j] == i,
    decreases n,
{
    if n > 0 {
        lemma_selected_files(files, sel, n - 1);
        let prev = selected_files_of(files, sel, n - 1);
        let cur = selected_files_of(files, sel, n);
        assert forall|i: int| 0 <= i < n && sel.contains(#[trigger] files[i].path@) implies
            exists|j: int| 0 <= j < cur.len() && cur[j] == i by {
            if i < n - 1 {
                let j = choose|j: int| 0 <= j < prev.len() && prev[j] == i;
                assert(cur[j] == prev[j]);
            } else {
                assert(cur[prev.len() as int] == i);
            }
        }
    }
}

/// When the scan lists each path once, the count check of a cleanup run does
/// what it stands for: a selected path that is not a file of the scan makes the
/// count of chosen files fall short of the distinct selected paths (the run is
/// refused), and when every selected path is a file of the scan the counts are
/// equal, one chosen file per distinct selected path.
pub proof fn lemma_cleanup_selection(files: Seq<MediaTagCleanupFile>, sel: Seq<Seq<char>>)
    requires
        forall|a: int, b: int| 0 <= a < b < files.len() ==> (#[trigger] files[a]).path@ != (#[trigger] files[b]).path@,
    ensures
        (exists|t: int| #![trigger sel[t]] 0 <= t < sel.len() && forall|i: int| 0 <= i < files.len() ==> (#[trigger] files[i]).path@ != sel[t])
            ==> selected_files_of(files, sel, files.len() as int).len() < distinct_texts(sel).len(),
        (forall|t: int| #![trigger sel[t]] 0 <= t < sel.len() ==> exists|i: int| 0 <= i < files.len() && (#[trigger] files[i]).path@ == sel[t])
            ==> selected_files_of(files, sel, files.len() as int).len() == distinct_texts(sel).len(),
{
    broadcast use vstd::set::group_set_axioms, vstd::seq_lib::seq_to_set_is_finite;
    let n = files.len() as int;
    let chosen = selected_files_of(files, sel, n);
    lemma_selected_files(files, sel, n);
    lemma_distinct_texts(sel);
    let d = distinct_texts(sel);
    let ps = Seq::new(chosen.len(), |j: int| files[chosen[j]].path@);
    assert forall|a: int, b: int| 0 <= a < ps.len() && 0 <= b < ps.len() && a != b implies ps[a] != ps[b] by {
        if a < b {
            assert(chosen[a] < chosen[b]);
            assert(files[chosen[a]].path@ != files[chosen[b]].path@);
        } else {
            assert(chosen[b] < chosen[a]);
            assert(files[chosen[b]].path@ != files[chosen[a]].path@);
        }
    }
    assert(ps.no_duplicates());
    ps.unique_seq_to_set();
    d.unique_seq_to_set();
    assert forall|x: Seq<char>| ps.to_set().contains(x) implies d.to_set().contains(x) by {
        let j = choose|j: int| 0 <= j < ps.len() && ps[j] == x;
        assert(sel.contains(files[chosen[j]].path@));
        assert(d.contains(x));
    }
    if exists|t: int| #![trigger sel[t]] 0 <= t < sel.len() && forall|i: int| 0 <= i < files.len() ==> (#[trigger] files[i]).path@ != sel[t] {
        let t = choose|t: int| #![trigger sel[t]] 0 <= t < sel.len() && forall|i: int| 0 <= i < files.len() ==> (#[trigger] files[i]).path@ != sel[t];
        let x = sel[t];
        assert(d.contains(x));
        assert forall|y: Seq<char>| ps.to_set().contains(y) implies d.to_set().remove(x).contains(y) by {
            let j = choose|j: int| 0 <= j < ps.len() && ps[j] == y;
            assert(files[chosen[j]].path@ != sel[t]);
        }
        vstd::set_lib::lemma_len_subset(ps.to_set(), d.to_set().remove(x));
    }
    if forall|t: int| #![trigger sel[t]] 0 <= t < sel.len() ==> exists|i: int| 0 <= i < files.len() && (#[trigger] files[i]).path@ == sel[t] {
        assert forall|x: Seq<char>| d.to_set().contains(x) implies ps.to_set().contains(x) by {
            assert(sel.contains(x));
            let t = choose|t: int| 0 <= t < sel.len() && sel[t] == x;
            let i = choose|i: int| 0 <= i < files.len() && (#[trigger] files[i]).path@ == sel[t];
            assert(sel.contains(files[i].path@));
            let j = choose|j: int| 0 <= j < chosen.len() && chosen[j] == i;
            assert(ps[j] == x);
        }
        vstd::set_lib::lemma_len_subset(ps.to_set(), d.to_set());
        vstd::set_lib::lemma_len_subset(d.to_set(), ps.to_set());
    }
}

/// The files a cleanup run works on: every selected path must be a file of
/// this scan, and at least one must be selected.
pub fn select_cleanup_files(result: &MediaTagCleanupResult, request: &MediaTagCleanupExecuteRequest) -> (r: Result<Vec<usize>, String>)
    ensures
        result.task_id@ != request.task_id@ ==> (r matches Err(m) && m@ == "任务 ID 不匹配，请重新扫描"@),
        result.task_id@ == request.task_id@ && request.selected_paths@.len() == 0 ==> (r matches Err(m) && m@ == "请至少选择一个可清洗的媒体文件"@),
        result.task_id@ == request.task_id@ && request.selected_paths@.len() > 0 ==> ({
            let sel = sviews(request.selected_paths@);
            let chosen = selected_files_of(result.files@, sel, result.files@.len() as int);
            if chosen.len() != distinct_texts(sel).len() {
                r matches Err(m) && m@ == "包含不属于当前扫描结果的文件，请重新扫描"@
            } else {
                r matches Ok(v) && v@.len() == chosen.len() && forall|k: int| 0 <= k < v@.len() ==> #[trigger] v@[k] as int == chosen[k]
            }
        }),
{
    if !str_eq(result.task_id.as_str(), request.task_id.as_str()) {
        return Err(owned("任务 ID 不匹配，请重新扫描"));
    }
    if request.selected_paths.len() == 0 {
        return Err(owned("请至少选择一个可清洗的媒体文件"));
    }
    let ghost sel = sviews(request.selected_paths@);
    let mut distinct: Vec<String> = Vec::new();
    let mut j: usize = 0;
    while j < request.selected_paths.len()
        invariant
            j <= request.selected_paths.len(),
            sel == sviews(request.selected_paths@),
            sviews(distinct@) == distinct_texts(sel.take(j as int)),
            distinct@.len() <= j,
        decreases request.selected_paths.len() - j,
    {
        assert(sel.take(j + 1).drop_last() =~= sel.take(j as int));
        assert(sel.take(j + 1).last() == request.selected_paths@[j as int]@);
        if !contains_str(&distinct, request.selected_paths[j].as_str()) {
            let ghost d0 = distinct@;
            distinct.push(request.selected_paths[j].clone());
            assert(sviews(distinct@) =~= sviews(d0).push(request.selected_paths@[j as int]@));
        }
        j = j + 1;
    }
    assert(sel.take(request.selected_paths.len() as int) =~= sel);
    let files = &result.files;
    let mut chosen: Vec<usize> = Vec::new();
    let mut i: usize = 0;
    while i < files.len()
        invariant
            i <= files.len(),
            files@ == result.files@,
            sel == sviews(request.selected_paths@),
            chosen@.len() == selected_files_of(files@, sel, i as int).len(),
            forall|k: int| 0 <= k < chosen@.len() ==> #[trigger] chosen@[k] as int == selected_files_of(files@, sel, i as int)[k],
            chosen@.len() <= i,
        decreases files.len() - i,
    {
        if contains_str(&request.selected_paths, files[i].path.as_str()) {
            chosen.push(i);
        }
        i = i + 1;
    }
    if chosen.len() != distinct.len() {
        return Err(owned("包含不属于当前扫描结果的文件，请重新扫描"));
    }
    Ok(chosen)
}

/// The author to write for a file: the user's choice, else the one found,
/// trimmed; none when blank.
pub open spec fn cleanup_artist_of(file: MediaTagCleanupFile, asg: Seq<(Seq<char>, Seq<char>)>) -> Option<Seq<char>> {
    let chosen = match crate::media_plan::assignment_of(asg, file.path@) {
        Some(a) => Some(a),
        None => match file.target_artist {
            Some(t) => Some(t@),
            None => None,
        },
    };
    match chosen {
        Some(a) => if trim(a).len() > 0 { Some(trim(a)) } else { None },
        None => None,
    }
}

pub fn cleanup_artist(file: &MediaTagCleanupFile, assignments: &Vec<(String, String)>) -> (r: Option<String>)
    ensures
        match cleanup_artist_of(*file, pair_views(assignments@)) {
            Some(a) => r matches Some(x) && x@ == a,
            None => r is None,
        },
{
    let chosen = match crate::media_plan::find_assignment(assignments, file.path.as_str()) {
        Some(a) => Some(a),
        None => match &file.target_artist {
            Some(t) => Some(owned(t.as_str())),
            None => None,
        },
    };
    match chosen {
        Some(a) => {
            let v = chars_of(a.as_str());
            let t = trim_ws(&v);
            if t.len() > 0 { Some(string_of(&t)) } else { None }
        },
        None => None,
    }
}

/// The status and message for a file that stops before its size is checked.
pub open spec fn cleanup_precheck_of(file: MediaTagCleanupFile, artist: Option<Seq<char>>, verify: bool) -> Option<(OperationStatus, Seq<char>)> {
    if !file.supported {
        Some((OperationStatus::Skipped, match file.skip_reason { Some(m) => m@, None => "文件格式不支持"@ }))
    } else if artist is None {
        Some((OperationStatus::Skipped, "缺少作者名称"@))
    } else if verify && file.sha256@.len() == 0 {
        Some((OperationStatus::Failed, "文件缺少内容快照，请重新扫描后再执行标签清洗"@))
    } else {
        None
    }
}

pub fn cleanup_precheck(file: &MediaTagCleanupFile, artist: Option<&str>, verify: bool) -> (r: Option<(OperationStatus, String)>)
    ensures
        match cleanup_precheck_of(*file, match artist { Some(a) => Some(a@), None => None }, verify) {
            Some((st, m)) => r matches Some((rs, rm)) && rs == st && rm@ == m,
            None => r is None,
        },
{
    if !file.supported {
        let m = match &file.skip_reason {
            Some(x) => owned(x.as_str()),
            None => owned("文件格式不支持"),
        };
        return Some((OperationStatus::Skipped, m));
    }
    if artist.is_none() {
        return Some((OperationStatus::Skipped, owned("缺少作者名称")));
    }
    let sv = chars_of(file.sha256.as_str());
    if verify && sv.len() == 0 {
        return Some((OperationStatus::Failed, owned("文件缺少内容快照，请重新扫描后再执行标签清洗")));
    }
    None
}

/// The record of a file that the checks before any work stop: a skipped file
/// is recorded with no artist written, a failed one with the artist it was to
/// get; `None` when the file goes on to be cleaned.
pub fn precheck_record(file: &MediaTagCleanupFile, artist: Option<&str>, verify: bool) -> (r: Option<Operation>)
    ensures
        match cleanup_precheck_of(*file, match artist { Some(a) => Some(a@), None => None }, verify) {
            Some((st, m)) => r matches Some(op) && op.action@ == "tag_cleanup"@ && op.source_path@ == file.path@
                && op.status == st && (op.error_message matches Some(e) && e@ == m)
                && op.target_path@ == written_label(if st == OperationStatus::Skipped { Seq::<char>::empty() } else {
                    match artist { Some(a) => a@, None => Seq::<char>::empty() }
                })
                && !op.reversible && op.target_hash is None && op.backup_path is None && op.backup_hash is None,
            None => r is None,
        },
{
    match cleanup_precheck(file, artist, verify) {
        None => None,
        Some((status, message)) => {
            let label: &str = if status == OperationStatus::Skipped {
                ""
            } else {
                match artist {
                    Some(a) => a,
                    None => "",
                }
            };
            proof {
                reveal_strlit("");
            }
            Some(cleanup_record(file.path.as_str(), label, status, Some(message), None, None, None))
        },
    }
}

/// The hash the cleaner checks the file against, given the backup just made:
/// with content checks on, the backup must match the scanned hash.
pub fn backup_verdict(file: &MediaTagCleanupFile, verify: bool, backup: Result<(String, String), String>) -> (r: Result<String, String>)
    ensures
        match backup {
            Err(e) => r matches Err(m) && m@ == "创建原文件备份失败，未执行标签清洗: "@ + e@,
            Ok((_, h)) => if verify && h@ != file.sha256@ {
                r matches Err(m) && m@ == "文件内容在扫描后发生变化，已拒绝执行标签清洗"@
            } else if verify {
                r matches Ok(x) && x@ == file.sha256@
            } else {
                r matches Ok(x) && x@ == h@
            },
        },
{
    match backup {
        Err(e) => Err(concat_str("创建原文件备份失败，未执行标签清洗: ", e.as_str())),
        Ok((_, h)) => {
            if verify && !str_eq(h.as_str(), file.sha256.as_str()) {
                Err(owned("文件内容在扫描后发生变化，已拒绝执行标签清洗"))
            } else if verify {
                Ok(owned(file.sha256.as_str()))
            } else {
                Ok(h)
            }
        },
    }
}

/// The status and message once the tags were written (or not), and the
/// cleaned file hashed for the undo.
pub fn cleaned_verdict(cleaned: Result<(), String>, cleaned_hash: Result<String, String>, backup: &str) -> (r: (OperationStatus, Option<String>, Option<String>))
    ensures
        match cleaned {
            Err(e) => r.0 == OperationStatus::Failed && r.2 is None && (r.1 matches Some(m) && m@ == e@ + "；原文件备份保留在 "@ + backup@),
            Ok(()) => match cleaned_hash {
                Ok(h) => r.0 == OperationStatus::Success && r.1 is None && r.2 == Some(h),
                Err(e) => r.0 == OperationStatus::Failed && r.2 is None && (r.1 matches Some(m)
                    && m@ == "标签已写入，但无法生成撤销校验哈希；原文件备份保留在 "@ + backup@ + ": "@ + e@),
            },
        },
{
    match cleaned {
        Err(e) => {
            let a = concat_str(e.as_str(), "；原文件备份保留在 ");
            (OperationStatus::Failed, Some(concat_str(a.as_str(), backup)), None)
        },
        Ok(()) => match cleaned_hash {
            Ok(h) => (OperationStatus::Success, None, Some(h)),
            Err(e) => {
                let a = concat_str("标签已写入，但无法生成撤销校验哈希；原文件备份保留在 ", backup);
                let b = concat_str(a.as_str(), ": ");
                (OperationStatus::Failed, Some(concat_str(b.as_str(), e.as_str())), None)
            },
        },
    }
}

/// What the record of a cleanup says was written.
pub open spec fn written_label(artist: Seq<char>) -> Seq<char> {
    if artist.len() == 0 { "未写入标签"@ } else { "Artist / AlbumArtist = "@ + artist }
}

/// The record of one file of a cleanup run; it can be undone exactly when it succeeded.
pub fn cleanup_record(
    path: &str,
    artist: &str,
    status: OperationStatus,
    error_message: Option<String>,
    target_hash: Option<String>,
    backup_path: Option<String>,
    backup_hash: Option<String>,
) -> (r: Operation)
    ensures
        r.action@ == "tag_cleanup"@,
        r.source_path@ == path@,
        r.target_path@ == written_label(artist@),
        r.status == status,
        r.error_message == error_message,
        r.reversible == (status == OperationStatus::Success),
        r.target_hash == target_hash,
        r.backup_path == backup_path,
        r.backup_hash == backup_hash,
{
    let av = chars_of(artist);
    let label = if av.len() == 0 { owned("未写入标签") } else { concat_str("Artist / AlbumArtist = ", artist) };
    Operation {
        op_id: new_uuid(),
        action: owned("tag_cleanup"),
        source_path: owned(path),
        target_path: label,
        status,
        error_message,
        reversible: status == OperationStatus::Success,
        target_hash,
        backup_path,
        backup_hash,
    }
}

/// A backup's file name: an id, with the source's extension.
pub open spec fn backup_name(id: Seq<char>, source: Seq<char>) -> Seq<char> {
    id + match extension_of(source) {
        Some(e) => "."@ + e,
        None => Seq::<char>::empty(),
    }
}

/// Where a file's backup goes: `<data>/media_tag_backups/<task>/<id><.ext>`,
/// joined as the host joins paths (`windows` tells whether it is Windows).
pub fn tag_backup_path(data_dir: &str, task_id: &str, source: &str, windows: bool) -> (r: String)
    ensures
        exists|id: Seq<char>| r@ == join_path_on(join_path_on(join_path_on(data_dir@, "media_tag_backups"@, windows), task_id@, windows),
            #[trigger] backup_name(id, source@), windows),
{
    let dv = chars_of(data_dir);
    let bd = chars_of("media_tag_backups");
    let tv = chars_of(task_id);
    let a = join_chars_on(&dv, &bd, windows);
    let b = join_chars_on(&a, &tv, windows);
    let id = new_uuid();
    let sv = chars_of(source);
    let ext: Option<Vec<char>> = match crate::paths::file_name_chars(&sv) {
        Some(n) => crate::paths::split_name(&n).1,
        None => None,
    };
    let idv = chars_of(id.as_str());
    let name = match ext {
        None => {
            assert(idv@ =~= idv@ + Seq::<char>::empty());
            idv
        },
        Some(e) => {
            let dot = chars_of(".");
            let x = concat_chars(&idv, &dot);
            let y = concat_chars(&x, &e);
            assert(y@ =~= idv@ + ("."@ + e@));
            y
        },
    };
    let full = join_chars_on(&b, &name, windows);
    assert(name@ == backup_name(idv@, source@));
    string_of(&full)
}

/// A cleanup run can be undone when any file was cleaned.
pub fn cleanup_undo_status(ops: &Vec<Operation>) -> (r: UndoStatus)
    ensures
        (exists|i: int| 0 <= i < ops@.len() && (#[trigger] ops@[i]).status == OperationStatus::Success) ==> r == UndoStatus::Available,
        !(exists|i: int| 0 <= i < ops@.len() && (#[trigger] ops@[i]).status == OperationStatus::Success) ==> r == UndoStatus::Expired,
{
    let mut i: usize = 0;
    while i < ops.len()
        invariant
            i <= ops.len(),
            forall|k: int| 0 <= k < i ==> (#[trigger] ops@[k]).status != OperationStatus::Success,
        decreases ops.len() - i,
    {
        if ops[i].status == OperationStatus::Success {
            return UndoStatus::Available;
        }
        i = i + 1;
    }
    UndoStatus::Expired
}

/// What a cleanup run reports.
pub fn cleanup_message(summary: &ExecutionSummary) -> (r: String)
    ensures
        r@ == "标签清洗完成：成功 "@ + decimal(summary.succeeded as nat) + "，失败 "@ + decimal(summary.failed as nat)
            + "，跳过 "@ + decimal(summary.skipped as nat),
{
    let s = string_of(&decimal_chars(summary.succeeded));
    let f = string_of(&decimal_chars(summary.failed));
    let k = string_of(&decimal_chars(summary.skipped));
    let a = concat_str("标签清洗完成：成功 ", s.as_str());
    let b = concat_str(a.as_str(), "，失败 ");
    let c = concat_str(b.as_str(), f.as_str());
    let d = concat_str(c.as_str(), "，跳过 ");
    concat_str(d.as_str(), k.as_str())
}

/// A file about to be cleaned must still have the size the scan saw.
pub fn cleanup_size_verdict(expected: u64, actual: Result<u64, String>) -> (r: Result<(), String>)
    ensures
        match actual {
            Err(e) => r matches Err(m) && m@ == "读取待清洗文件失败: "@ + e@,
            Ok(a) => if a == expected { r is Ok } else {
                r matches Err(m) && m@ == size_changed_message("文件大小在扫描后发生变化（"@, "扫描"@, expected, a, "，请重新扫描"@)
            },
        },
{
    size_verdict(expected, actual, "读取待清洗文件失败: ", "文件大小在扫描后发生变化（", "扫描", "，请重新扫描")
}

// ------------------------------------------------------------------ laws

/// Trimming twice is trimming once.
pub proof fn lemma_trim_twice(s: Seq<char>)
    ensures
        trim(trim(s)) == trim(s),
{
    let ws = crate::text::trim_pred(seq![], true);
    crate::metadata::lemma_trim_start_part(s, ws);
    let a1 = crate::text::trim_start_by(s, ws);
    crate::metadata::lemma_trim_end_part(a1, ws);
    let t = crate::text::trim_end_by(a1, ws);
    assert(t == trim(s));
    if t.len() > 0 {
        assert(t[0] == a1[0]);
        assert(crate::text::trim_start_by(t, ws) == t);
        assert(t.last() == t[t.len() - 1]);
        assert(crate::text::trim_end_by(t, ws) == t);
    } else {
        assert(crate::text::trim_start_by(t, ws) == t);
        assert(crate::text::trim_end_by(t, ws) == t);
    }
}

proof fn lemma_author_alias_last(aliases: Seq<(Seq<char>, Seq<char>)>, key: Seq<char>)
    ensures
        (forall|j: int| 0 <= j < aliases.len() ==> (#[trigger] aliases[j]).0 != key) ==> author_alias(aliases, key) is None,
        forall|j: int| 0 <= j < aliases.len() && (#[trigger] aliases[j]).0 == key
            && (forall|j2: int| j < j2 < aliases.len() ==> (#[trigger] aliases[j2]).0 != key)
            ==> author_alias(aliases, key) == Some(aliases[j].1),
    decreases aliases.len(),
{
    if aliases.len() > 0 {
        let a0 = aliases.drop_last();
        lemma_author_alias_last(a0, key);
        assert forall|j: int| 0 <= j < a0.len() implies #[trigger] a0[j] == aliases[j] by {}
        assert forall|j: int| 0 <= j < aliases.len() && (#[trigger] aliases[j]).0 == key
            && (forall|j2: int| j < j2 < aliases.len() ==> (#[trigger] aliases[j2]).0 != key)
            implies author_alias(aliases, key) == Some(aliases[j].1) by {
            if j < aliases.len() - 1 {
                assert(aliases[aliases.len() - 1].0 != key);
                assert(a0[j] == aliases[j]);
                assert forall|j2: int| j < j2 < a0.len() implies (#[trigger] a0[j2]).0 != key by {
                    assert(a0[j2] == aliases[j2]);
                }
            }
        }
        if forall|j: int| 0 <= j < aliases.len() ==> (#[trigger] aliases[j]).0 != key {
            assert(aliases[aliases.len() - 1].0 != key);
            assert forall|j: int| 0 <= j < a0.len() implies (#[trigger] a0[j]).0 != key by {
                assert(a0[j] == aliases[j]);
            }
        }
    }
}

/// The canonical name of an author name through the alias pairs: the canonical
/// name of the last pair whose key is the name's match key; the name trimmed
/// when no pair has that key.
pub open spec fn named_through(name: Seq<char>, aliases: Seq<(Seq<char>, Seq<char>)>, result: Seq<char>) -> bool {
    &&& (forall|j: int| 0 <= j < aliases.len() ==> (#[trigger] aliases[j]).0 != match_key(name)) ==> result == trim(name)
    &&& forall|j: int| 0 <= j < aliases.len() && (#[trigger] aliases[j]).0 == match_key(name)
        && (forall|j2: int| j < j2 < aliases.len() ==> (#[trigger] aliases[j2]).0 != match_key(name))
        ==> result == aliases[j].1
}

/// The author that tag cleanup infers for a file. An author folder, when one is
/// found, decides, whatever the file's Artist tag says, and its name is taken
/// through the aliases. With no author folder, a non-blank Artist tag is taken
/// through the aliases by the same rule (its alias's canonical name, else the
/// tag trimmed), with the label of an existing tag; a blank or missing tag
/// gives no author.
pub proof fn lemma_inferred_artist(
    path: Seq<char>,
    roots: Seq<Seq<char>>,
    aliases: Seq<(Seq<char>, Seq<char>)>,
    tag: Option<Seq<char>>,
    other: Option<Seq<char>>,
    mode: AuthorFolderMode,
)
    ensures
        ({
            let folder = match mode {
                AuthorFolderMode::Children => author_folder_of(path, roots),
                AuthorFolderMode::Selected => selected_root_name_of(path, roots),
            };
            let r = target_artist_of(path, roots, aliases, tag, mode);
            &&& folder is Some ==> r == target_artist_of(path, roots, aliases, other, mode)
            &&& folder matches Some(f) ==> (r.0 matches Some(a) && named_through(f, aliases, a))
            &&& folder is Some ==> r.1 == match mode {
                AuthorFolderMode::Children => "一级作者目录"@,
                AuthorFolderMode::Selected => "所选作者目录"@,
            }
            &&& folder is None ==> match tag {
                Some(t) => if trim(t).len() > 0 {
                    r.1 == "现有 Artist 标签"@ && (r.0 matches Some(a) && named_through(t, aliases, a))
                } else {
                    r.0 is None
                },
                None => r.0 is None,
            }
        }),
{
    let folder = match mode {
        AuthorFolderMode::Children => author_folder_of(path, roots),
        AuthorFolderMode::Selected => selected_root_name_of(path, roots),
    };
    if let Some(f) = folder {
        lemma_author_alias_last(aliases, match_key(f));
    }
    if let Some(t) = tag {
        lemma_trim_twice(t);
        assert(match_key(trim(t)) == match_key(t));
        lemma_author_alias_last(aliases, match_key(t));
    }
}

/// The ready count of a scan adds up over its parts: the files of two lists
/// together count the ready files of each, and one file counts one exactly when
/// it is ready (checked); so a scan's ready count is the number of its ready
/// files, at most the number scanned.
pub proof fn lemma_ready_count(a: Seq<MediaTagCleanupFile>, b: Seq<MediaTagCleanupFile>, f: MediaTagCleanupFile)
    ensures
        ready_count_of(a + b) == ready_count_of(a) + ready_count_of(b),
        ready_count_of(seq![f]) == if f.checked { 1nat } else { 0nat },
        ready_count_of(a) <= a.len(),
        ready_count_of(a) == a.len() <==> forall|k: int| 0 <= k < a.len() ==> (#[trigger] a[k]).checked,
    decreases b.len(),
{
    assert(seq![f].drop_last() =~= Seq::<MediaTagCleanupFile>::empty());
    assert(ready_count_of(Seq::<MediaTagCleanupFile>::empty()) == 0);
    assert(seq![f].last() == f);
    assert(ready_count_of(seq![f]) == ready_count_of(seq![f].drop_last()) + if f.checked { 1nat } else { 0nat });
    if b.len() > 0 {
        lemma_ready_count(a, b.drop_last(), f);
        assert((a + b).drop_last() =~= a + b.drop_last());
        assert((a + b).last() == b.last());
    } else {
        assert(a + b =~= a);
    }
    lemma_ready_all(a);
}

proof fn lemma_ready_all(a: Seq<MediaTagCleanupFile>)
    ensures
        ready_count_of(a) <= a.len(),
        ready_count_of(a) == a.len() <==> forall|k: int| 0 <= k < a.len() ==> (#[trigger] a[k]).checked,
    decreases a.len(),
{
    if a.len() > 0 {
        let a0 = a.drop_last();
        lemma_ready_all(a0);
        if ready_count_of(a) == a.len() {
            assert forall|k: int| 0 <= k < a.len() implies (#[trigger] a[k]).checked by {
                if k < a.len() - 1 {
                    assert(a0[k] == a[k]);
                }
            }
        }
        if forall|k: int| 0 <= k < a.len() ==> (#[trigger] a[k]).checked {
            assert forall|k: int| 0 <= k < a0.len() implies (#[trigger] a0[k]).checked by {
                assert(a0[k] == a[k]);
            }
            assert(a[a.len() - 1].checked);
        }
    }
}

} // verus!
