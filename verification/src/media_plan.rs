//! Turning a classification into moves: target names, unique targets, the
//! keyword each selected file goes under, and the preview of the moves.
use vstd::prelude::*;
use crate::classify::pair_views;
use crate::classify::{append_learning_hints, hint_views, learning_hints_for};
use crate::models::{AliasLearningHint, ClassifyExecuteRequest, ClassifyPreviewItem, ClassifyPreviewResult, KeywordGroup, KeywordInfo, MediaClassifyResult, MediaFile};
use crate::paths::{join_chars_on, join_path_on, find_root_dir, paths_same, same_path, root_dir_of, key_of, name_parts, parent_chars, parent_of, path_key, stem_or_empty, ext_or_empty};
use crate::text::{
    byte_len, chars_of, concat_chars, find_from, lemma_byte_len_bounds, lowercase, occurs_at, str_to_lowercase,
    string_of, trim_by, trimmed, trim_start_by, trim_end_by, trim_pred, utf8_len, char_width, utf8_width, decimal, decimal_chars, sviews, contains_str, str_eq, owned, concat_str,
};

verus! {

// ------------------------------------------------------------ sanitising

/// Characters that a path segment may not hold.
pub open spec fn forbidden_in_segment(c: char) -> bool {
    c == '<' || c == '>' || c == ':' || c == '"' || c == '/' || c == '\\' || c == '|' || c == '?' || c == '*'
}

/// A folder or file name made safe: forbidden characters become `_`, then
/// whitespace is trimmed and trailing dots dropped; `未命名` when nothing is left.
pub open spec fn sanitized(value: Seq<char>) -> Seq<char> {
    let m = Seq::new(value.len(), |i: int| if forbidden_in_segment(value[i]) { '_' } else { value[i] });
    let t = trimmed(trimmed(m, seq![], true, true, true), seq!['.'], false, false, true);
    if t.len() == 0 { "未命名"@ } else { t }
}

proof fn lemma_trim_start_keeps(s: Seq<char>, p: spec_fn(char) -> bool, q: spec_fn(char) -> bool)
    requires
        forall|i: int| 0 <= i < s.len() ==> q(#[trigger] s[i]),
    ensures
        forall|i: int| 0 <= i < trim_start_by(s, p).len() ==> q(#[trigger] trim_start_by(s, p)[i]),
    decreases s.len(),
{
    if s.len() > 0 && p(s[0]) {
        let t = s.drop_first();
        assert forall|i: int| 0 <= i < t.len() implies q(#[trigger] t[i]) by {
            assert(t[i] == s[i + 1]);
        }
        lemma_trim_start_keeps(t, p, q);
        assert(trim_start_by(s, p) == trim_start_by(t, p));
    }
}

proof fn lemma_trim_end_keeps(s: Seq<char>, p: spec_fn(char) -> bool, q: spec_fn(char) -> bool)
    requires
        forall|i: int| 0 <= i < s.len() ==> q(#[trigger] s[i]),
    ensures
        forall|i: int| 0 <= i < trim_end_by(s, p).len() ==> q(#[trigger] trim_end_by(s, p)[i]),
        trim_end_by(s, p).len() == 0 || !p(trim_end_by(s, p).last()),
    decreases s.len(),
{
    if s.len() > 0 && p(s.last()) {
        let t = s.drop_last();
        assert forall|i: int| 0 <= i < t.len() implies q(#[trigger] t[i]) by {
            assert(t[i] == s[i]);
        }
        lemma_trim_end_keeps(t, p, q);
        assert(trim_end_by(s, p) == trim_end_by(t, p));
    }
}

/// A sanitised name is never empty, holds none of `< > : " / \ | ? *`, and does
/// not end with a dot.
pub proof fn lemma_sanitized_is_safe(value: Seq<char>)
    ensures
        sanitized(value).len() > 0,
        forall|i: int| 0 <= i < sanitized(value).len() ==> !forbidden_in_segment(#[trigger] sanitized(value)[i]),
        sanitized(value).last() != '.',
{
    let m = Seq::new(value.len(), |i: int| if forbidden_in_segment(value[i]) { '_' } else { value[i] });
    let q = |c: char| !forbidden_in_segment(c);
    assert forall|i: int| 0 <= i < m.len() implies q(#[trigger] m[i]) by {}
    let p1 = trim_pred(seq![], true);
    let p2 = trim_pred(seq!['.'], false);
    lemma_trim_start_keeps(m, p1, q);
    let a = trim_start_by(m, p1);
    lemma_trim_end_keeps(a, p1, q);
    let t1 = trim_end_by(a, p1);
    assert(t1 == trimmed(m, seq![], true, true, true));
    lemma_trim_end_keeps(t1, p2, q);
    let t2 = trim_end_by(t1, p2);
    assert(t2 == trimmed(t1, seq!['.'], false, false, true));
    if t2.len() == 0 {
        reveal_strlit("未命名");
        assert("未命名"@.last() != '.');
    } else {
        assert(seq!['.'][0] == '.');
        assert(seq!['.'].contains('.'));
        assert(!p2(t2.last()));
    }
}

/// A name that is already safe is kept as it is: one that is not empty, holds
/// none of `< > : " / \ | ? *`, neither starts nor ends with whitespace and does
/// not end with a dot.
pub proof fn lemma_safe_name_kept(value: Seq<char>)
    requires
        value.len() > 0,
        forall|i: int| 0 <= i < value.len() ==> !forbidden_in_segment(#[trigger] value[i]),
        !crate::text::white_space(value[0]),
        !crate::text::white_space(value.last()),
        value.last() != '.',
    ensures
        sanitized(value) == value,
{
    let m = Seq::new(value.len(), |i: int| if forbidden_in_segment(value[i]) { '_' } else { value[i] });
    assert(m =~= value);
    let p1 = trim_pred(seq![], true);
    let p2 = trim_pred(seq!['.'], false);
    assert(!seq![].contains(value[0]));
    assert(!p1(value[0]));
    assert(trim_start_by(value, p1) == value);
    assert(!seq![].contains(value.last()));
    assert(!p1(value.last()));
    assert(trim_end_by(value, p1) == value);
    assert(trimmed(value, seq![], true, true, true) == value);
    assert(seq!['.'][0] == '.');
    assert(!seq!['.'].contains(value.last())) by {
        if seq!['.'].contains(value.last()) {
            let k = choose|k: int| 0 <= k < 1 && seq!['.'][k] == value.last();
            assert(k == 0);
        }
    }
    assert(!p2(value.last()));
    assert(trim_end_by(value, p2) == value);
}

pub fn sanitize_segment(value: &str) -> (r: String)
    ensures
        r@ == sanitized(value@),
{
    let v = chars_of(value);
    let mut m: Vec<char> = Vec::new();
    let mut i: usize = 0;
    while i < v.len()
        invariant
            i <= v.len(),
            m@ =~= Seq::new(i as nat, |k: int| if forbidden_in_segment(v@[k]) { '_' } else { v@[k] }),
        decreases v.len() - i,
    {
        let c = v[i];
        if c == '<' || c == '>' || c == ':' || c == '"' || c == '/' || c == '\\' || c == '|' || c == '?' || c == '*' {
            m.push('_');
        } else {
            m.push(c);
        }
        i = i + 1;
    }
    let none: Vec<char> = Vec::new();
    assert(none@ =~= seq![]);
    let t1 = trim_by(&m, &none, true, true, true);
    let mut dot: Vec<char> = Vec::new();
    dot.push('.');
    assert(dot@ =~= seq!['.']);
    let t2 = trim_by(&t1, &dot, false, false, true);
    if t2.len() == 0 {
        let u = chars_of("未命名");
        string_of(&u)
    } else {
        string_of(&t2)
    }
}

// ------------------------------------------------ removing the keyword text

/// The first index at or after `i` where `p` occurs in `s`.
pub open spec fn first_from(s: Seq<char>, p: Seq<char>, i: int) -> Option<int>
    decreases s.len() + 1 - i,
{
    if i < 0 || i > s.len() {
        None
    } else if occurs_at(s, p, i) {
        Some(i)
    } else {
        first_from(s, p, i + 1)
    }
}

proof fn lemma_first_from(s: Seq<char>, p: Seq<char>, from: int, found: Option<int>)
    requires
        0 <= from,
        match found {
            Some(i) => from <= i && occurs_at(s, p, i) && forall|j: int| from <= j < i ==> !occurs_at(s, p, j),
            None => forall|j: int| from <= j ==> !occurs_at(s, p, j),
        },
    ensures
        first_from(s, p, from) == found,
    decreases s.len() + 1 - from,
{
    if from <= s.len() && !occurs_at(s, p, from) {
        lemma_first_from(s, p, from + 1, found);
    }
    if from > s.len() {
        assert(!occurs_at(s, p, from));
        if let Some(i) = found {
            assert(i + p.len() <= s.len());
        }
    }
}

/// The character index of `s` at which its UTF-8 encoding reaches `b` bytes, if
/// `b` falls on a character boundary.
pub open spec fn char_at_byte(s: Seq<char>, b: int, a: int) -> Option<int>
    decreases s.len() + 1 - a,
{
    if a < 0 || a > s.len() {
        None
    } else if byte_len(s.take(a)) == b {
        Some(a)
    } else {
        char_at_byte(s, b, a + 1)
    }
}

/// `s` without the first occurrence of `p`, found case-insensitively; the byte
/// offsets found in the lowercase text are applied to `s` itself, and `s` is
/// left whole when they do not fall on its character boundaries.
pub open spec fn ci_removed(s: Seq<char>, p: Seq<char>) -> Seq<char> {
    let sl = lowercase(s);
    let pl = lowercase(p);
    match first_from(sl, pl, 0) {
        Some(i) => {
            let st = byte_len(sl.take(i));
            let en = st + byte_len(pl);
            match (char_at_byte(s, st, 0), char_at_byte(s, en, 0)) {
                (Some(a), Some(b)) => s.take(a) + s.skip(b),
                _ => s,
            }
        },
        None => s,
    }
}

/// Removing a keyword that does not occur in the text (both lowercased) leaves
/// the text as it is; where it occurs, what is removed is cut at the first
/// occurrence.
pub proof fn lemma_keyword_removal(s: Seq<char>, p: Seq<char>)
    ensures
        (forall|j: int| !occurs_at(lowercase(s), lowercase(p), j)) ==> ci_removed(s, p) == s,
        forall|i: int| 0 <= i && #[trigger] occurs_at(lowercase(s), lowercase(p), i)
            && (forall|j: int| 0 <= j < i ==> !occurs_at(lowercase(s), lowercase(p), j))
            ==> first_from(lowercase(s), lowercase(p), 0) == Some(i),
{
    if forall|j: int| !occurs_at(lowercase(s), lowercase(p), j) {
        lemma_first_from(lowercase(s), lowercase(p), 0, None);
    }
    assert forall|i: int| 0 <= i && #[trigger] occurs_at(lowercase(s), lowercase(p), i)
        && (forall|j: int| 0 <= j < i ==> !occurs_at(lowercase(s), lowercase(p), j))
        implies first_from(lowercase(s), lowercase(p), 0) == Some(i) by {
        lemma_first_from(lowercase(s), lowercase(p), 0, Some(i));
    }
}

fn prefix_bytes(v: &Vec<char>, n: usize) -> (r: u128)
    requires
        n <= v.len(),
    ensures
        r == byte_len(v@.take(n as int)),
{
    let mut total: u128 = 0;
    let mut i: usize = 0;
    while i < n
        invariant
            i <= n <= v.len(),
            total == byte_len(v@.take(i as int)),
        decreases n - i,
    {
        assert(v@.take(i + 1).drop_last() =~= v@.take(i as int));
        proof { lemma_byte_len_bounds(v@.take(i as int)); }
        total = total + char_width(v[i]);
        i = i + 1;
    }
    total
}

fn find_char_at_byte(v: &Vec<char>, b: u128) -> (r: Option<usize>)
    ensures
        match r {
            Some(a) => char_at_byte(v@, b as int, 0) == Some(a as int),
            None => char_at_byte(v@, b as int, 0) is None,
        },
{
    let mut a: usize = 0;
    let mut total: u128 = 0;
    while a < v.len()
        invariant
            a <= v.len(),
            total == byte_len(v@.take(a as int)),
            char_at_byte(v@, b as int, 0) == char_at_byte(v@, b as int, a as int),
        decreases v.len() - a,
    {
        if total == b {
            return Some(a);
        }
        assert(v@.take(a + 1).drop_last() =~= v@.take(a as int));
        proof { lemma_byte_len_bounds(v@.take(a as int)); }
        total = total + char_width(v[a]);
        a = a + 1;
    }
    if total == b {
        Some(a)
    } else {
        assert(char_at_byte(v@, b as int, a + 1) is None);
        None
    }
}

fn slice_range(v: &Vec<char>, from: usize, to: usize) -> (r: Vec<char>)
    requires
        from <= to <= v.len(),
    ensures
        r@ == v@.subrange(from as int, to as int),
{
    let mut r: Vec<char> = Vec::new();
    let mut k: usize = from;
    while k < to
        invariant
            from <= k <= to <= v.len(),
            r@ == v@.subrange(from as int, k as int),
        decreases to - k,
    {
        r.push(v[k]);
        k = k + 1;
        assert(r@ =~= v@.subrange(from as int, k as int));
    }
    r
}

pub fn ci_remove_first(s: &str, pattern: &str) -> (r: String)
    ensures
        r@ == ci_removed(s@, pattern@),
{
    let sv = chars_of(s);
    let ls = str_to_lowercase(s);
    let lp = str_to_lowercase(pattern);
    let sl = chars_of(ls.as_str());
    let pl = chars_of(lp.as_str());
    let found = find_from(&sl, &pl, 0);
    proof { lemma_first_from(sl@, pl@, 0, match found { Some(i) => Some(i as int), None => None }); }
    match found {
        Some(i) => {
            let st = prefix_bytes(&sl, i);
            proof { lemma_byte_len_bounds(sl@.take(i as int)); lemma_byte_len_bounds(pl@); }
            let en = st + utf8_len(&pl);
            match (find_char_at_byte(&sv, st), find_char_at_byte(&sv, en)) {
                (Some(a), Some(b)) => {
                    proof { lemma_char_at_byte_range(sv@, st as int, 0); lemma_char_at_byte_range(sv@, en as int, 0); }
                    if a <= b {
                        let head = slice_range(&sv, 0, a);
                        let tail = slice_range(&sv, b, sv.len());
                        assert(head@ =~= sv@.take(a as int));
                        assert(tail@ =~= sv@.skip(b as int));
                        let joined = concat_chars(&head, &tail);
                        string_of(&joined)
                    } else {
                        proof { lemma_char_at_byte_mono(sv@, st as int, en as int, a as int, b as int); }
                        string_of(&sv)
                    }
                },
                _ => string_of(&sv),
            }
        },
        None => string_of(&sv),
    }
}

proof fn lemma_char_at_byte_range(s: Seq<char>, b: int, a: int)
    ensures
        char_at_byte(s, b, a) matches Some(x) ==> a <= x <= s.len() && byte_len(s.take(x)) == b,
    decreases s.len() + 1 - a,
{
    if 0 <= a <= s.len() && byte_len(s.take(a)) != b {
        lemma_char_at_byte_range(s, b, a + 1);
    }
}

proof fn lemma_prefix_bytes_mono(s: Seq<char>, x: int, y: int)
    requires
        0 <= y < x <= s.len(),
    ensures
        byte_len(s.take(y)) < byte_len(s.take(x)),
    decreases x - y,
{
    assert(s.take(x).drop_last() =~= s.take(x - 1));
    if y < x - 1 {
        lemma_prefix_bytes_mono(s, x - 1, y);
    }
}

proof fn lemma_char_at_byte_mono(s: Seq<char>, st: int, en: int, a: int, b: int)
    requires
        st <= en,
        0 <= a <= s.len(),
        0 <= b <= s.len(),
        byte_len(s.take(a)) == st,
        byte_len(s.take(b)) == en,
    ensures
        a <= b,
{
    if b < a {
        lemma_prefix_bytes_mono(s, a, b);
    }
}

// ------------------------------------------------------------ target paths

/// What is left of the stem once the keyword is taken out and separators are
/// trimmed; the whole stem when nothing is left.
pub open spec fn topic_of(stem: Seq<char>, keyword: Seq<char>) -> Seq<char> {
    let t = trimmed(ci_removed(stem, keyword), seq!['-', '_', ' ', '\u{3000}'], false, true, true);
    if t.len() == 0 { stem } else { t }
}

/// The new file name: `keyword-topic.ext`, both parts sanitised.
pub open spec fn target_name(stem: Seq<char>, ext: Seq<char>, keyword: Seq<char>) -> Seq<char> {
    let base = sanitized(keyword) + "-"@ + sanitized(topic_of(stem, keyword));
    if ext.len() == 0 { base } else { base + "."@ + ext }
}

/// Where a file goes: `root/keyword/keyword-topic.ext`, joined as the host joins
/// paths (`windows` tells whether it is Windows).
pub open spec fn target_path_of(source: Seq<char>, keyword: Seq<char>, root: Seq<char>, windows: bool) -> Seq<char> {
    join_path_on(join_path_on(root, sanitized(keyword), windows), target_name(stem_or_empty(source), ext_or_empty(source), keyword), windows)
}

proof fn lemma_name_shape(k: Seq<char>, topic: Seq<char>, ext: Seq<char>)
    ensures
        ({
            let base = k + "-"@ + topic;
            let name = if ext.len() == 0 { base } else { base + "."@ + ext };
            let a: int = k.len() as int;
            let b: int = a + 1 + topic.len();
            &&& a < name.len() && name.subrange(0, a) == k && name[a] == '-'
            &&& b <= name.len() && name.subrange(a + 1, b) == topic
            &&& ext.len() == 0 ==> name.len() == b
            &&& ext.len() > 0 ==> name.len() == b + 1 + ext.len() && name[b] == '.' && name.subrange(name.len() - ext.len(), name.len() as int) == ext
        }),
{
    reveal_strlit("-");
    reveal_strlit(".");
    let base = k + "-"@ + topic;
    let a: int = k.len() as int;
    let b: int = a + 1 + topic.len();
    assert(base.subrange(0, a) =~= k);
    assert(base[a] == '-');
    assert(base.subrange(a + 1, b) =~= topic);
    if ext.len() > 0 {
        let name = base + "."@ + ext;
        assert(name.subrange(0, a) =~= base.subrange(0, a));
        assert(name.subrange(a + 1, b) =~= base.subrange(a + 1, b));
        assert(name[b] == '.');
        assert(name.subrange(name.len() - ext.len(), name.len() as int) =~= ext);
    }
}

/// Where a classified file goes: into the keyword's folder below the root, as
/// a name that starts with the sanitised keyword and `-`, goes on with the
/// sanitised topic, and ends with `.` and the file's extension when it has one.
pub proof fn lemma_target_layout(source: Seq<char>, keyword: Seq<char>, root: Seq<char>, windows: bool)
    ensures
        ({
            let k = sanitized(keyword);
            let stem = stem_or_empty(source);
            let ext = ext_or_empty(source);
            let name = target_name(stem, ext, keyword);
            let dir = join_path_on(root, k, windows);
            let t = target_path_of(source, keyword, root, windows);
            let topic = sanitized(topic_of(stem, keyword));
            let a: int = k.len() as int;
            let b: int = a + 1 + topic.len();
            &&& dir.len() <= t.len() && t.subrange(0, dir.len() as int) == dir
            &&& root.len() <= dir.len() && dir.subrange(0, root.len() as int) == root
            &&& k.len() <= dir.len() && dir.subrange(dir.len() - k.len(), dir.len() as int) == k
            &&& name.len() <= t.len() && t.subrange(t.len() - name.len(), t.len() as int) == name
            &&& a < name.len() && name.subrange(0, a) == k && name[a] == '-'
            &&& b <= name.len() && name.subrange(a + 1, b) == topic
            &&& ext.len() == 0 ==> name.len() == b
            &&& ext.len() > 0 ==> name.len() == b + 1 + ext.len() && name[b] == '.'
                && name.subrange(name.len() - ext.len(), name.len() as int) == ext
        }),
{
    let k = sanitized(keyword);
    let stem = stem_or_empty(source);
    let ext = ext_or_empty(source);
    let name = target_name(stem, ext, keyword);
    let dir = join_path_on(root, k, windows);
    let topic = sanitized(topic_of(stem, keyword));
    crate::transformer::lemma_join_parts(root, k, windows);
    crate::transformer::lemma_join_parts(dir, name, windows);
    lemma_name_shape(k, topic, ext);
    assert(target_path_of(source, keyword, root, windows) == join_path_on(dir, name, windows));
}

/// The target of a file under a keyword, below the given root.
pub fn build_target_path(source: &str, keyword: &str, root_dir: &str, windows: bool) -> (r: Result<String, String>)
    ensures
        r matches Ok(t) && t@ == target_path_of(source@, keyword@, root_dir@, windows),
{
    let sv = chars_of(source);
    let (_name, stem_v, ext_v) = name_parts(&sv);
    let stem = string_of(&stem_v);
    let safe_keyword = sanitize_segment(keyword);
    let removed = ci_remove_first(stem.as_str(), keyword);
    let rv = chars_of(removed.as_str());
    let mut set: Vec<char> = Vec::new();
    set.push('-');
    set.push('_');
    set.push(' ');
    set.push('\u{3000}');
    assert(set@ =~= seq!['-', '_', ' ', '\u{3000}']);
    let tv = trim_by(&rv, &set, false, true, true);
    let topic = if tv.len() == 0 { stem_v } else { tv };
    let topic_s = string_of(&topic);
    let safe_topic = sanitize_segment(topic_s.as_str());
    let kv = chars_of(safe_keyword.as_str());
    let dash = chars_of("-");
    let tpv = chars_of(safe_topic.as_str());
    let a = concat_chars(&kv, &dash);
    let base = concat_chars(&a, &tpv);
    let name = if ext_v.len() == 0 {
        base
    } else {
        let dot = chars_of(".");
        let b = concat_chars(&base, &dot);
        concat_chars(&b, &ext_v)
    };
    let rootv = chars_of(root_dir);
    let dir = join_chars_on(&rootv, &kv, windows);
    let full = join_chars_on(&dir, &name, windows);
    Ok(string_of(&full))
}

/// The `k`-th alternative of a target: `stem (k).ext` beside it.
pub open spec fn numbered_path(initial: Seq<char>, k: nat, windows: bool) -> Seq<char> {
    let stem = stem_or_empty(initial);
    let ext = ext_or_empty(initial);
    let name = if ext.len() == 0 {
        stem + " ("@ + decimal(k) + ")"@
    } else {
        stem + " ("@ + decimal(k) + ")."@ + ext
    };
    let parent = match parent_of(initial) {
        Some(p) => p,
        None => seq!['.'],
    };
    join_path_on(parent, name, windows)
}

pub(crate) fn numbered_candidate(parent: &Vec<char>, stem: &Vec<char>, ext: &Vec<char>, k: u64, windows: bool) -> (r: String)
    ensures
        r@ == join_path_on(parent@, if ext@.len() == 0 {
            stem@ + " ("@ + decimal(k as nat) + ")"@
        } else {
            stem@ + " ("@ + decimal(k as nat) + ")."@ + ext@
        }, windows),
{
    let open_p = chars_of(" (");
    let d = decimal_chars(k);
    let a = concat_chars(stem, &open_p);
    let b = concat_chars(&a, &d);
    let name = if ext.len() == 0 {
        let close = chars_of(")");
        concat_chars(&b, &close)
    } else {
        let close = chars_of(").");
        let c = concat_chars(&b, &close);
        concat_chars(&c, ext)
    };
    let full = join_chars_on(parent, &name, windows);
    string_of(&full)
}

/// The numbered variant `k` of `initial` was unavailable: the batch held its key
/// or the disk was reported to hold it.
pub open spec fn variant_taken<F: Fn(&str) -> bool>(on_disk: F, used: Seq<Seq<char>>, initial: Seq<char>, k: nat, windows: bool) -> bool {
    ||| used.contains(key_of(numbered_path(initial, k, windows), windows))
    ||| exists|p: &str| #[trigger] call_ensures(on_disk, (p,), true) && p@ == numbered_path(initial, k, windows)
}

/// A target that neither the disk (as `on_disk` reports it) nor this batch holds:
/// `initial` if free, else the first free of `stem (2).ext` to `stem (9999).ext`,
/// else `initial` all the same. Its key is recorded in `used`. The batch never gets
/// a key it held already, unless all 9998 numbered variants were unavailable.
pub fn resolve_unique_target<F: Fn(&str) -> bool>(initial: String, used: &mut Vec<String>, on_disk: &F, windows: bool) -> (r: String)
    requires
        forall|p: &str| #[trigger] on_disk.requires((p,)),
    ensures
        sviews(final(used)@) == sviews(old(used)@).push(key_of(r@, windows)),
        sviews(old(used)@).contains(key_of(r@, windows)) ==> r@ == initial@
            && forall|k: nat| 2 <= k <= 9999 ==> #[trigger] variant_taken(*on_disk, sviews(old(used)@), initial@, k, windows),
        r@ == initial@ || exists|k: nat| 2 <= k <= 9999 && r@ == numbered_path(initial@, k, windows),
        r@ != initial@ ==> !sviews(old(used)@).contains(key_of(r@, windows)),
        r@ != initial@ ==> exists|p: &str| #[trigger] call_ensures(on_disk, (p,), false) && p@ == r@,
        !sviews(old(used)@).contains(key_of(initial@, windows)) && r@ != initial@ ==> (exists|p: &str| #[trigger] call_ensures(on_disk, (p,), true) && p@ == initial@),
{
    let ghost u0 = sviews(used@);
    let k0 = path_key(initial.as_str(), windows);
    let s0 = initial.as_str();
    let d0 = on_disk(s0);
    if !d0 && !contains_str(used, k0.as_str()) {
        assert(call_ensures(on_disk, (s0,), false) && s0@ == initial@);
        used.push(k0);
        assert(sviews(used@) =~= u0.push(key_of(initial@, windows)));
        return initial;
    }
    let iv = chars_of(initial.as_str());
    let (_name, stem, ext) = name_parts(&iv);
    let parent = match parent_chars(&iv) {
        Some(p) => p,
        None => {
            let mut d: Vec<char> = Vec::new();
            d.push('.');
            assert(d@ =~= seq!['.']);
            d
        },
    };
    assert(!u0.contains(key_of(initial@, windows)) ==> call_ensures(on_disk, (s0,), true) && s0@ == initial@);
    let mut counter: u64 = 2;
    while counter <= 9999
        invariant
            2 <= counter <= 10000,
            sviews(used@) == u0,
            u0 == sviews(old(used)@),
            k0@ == key_of(initial@, windows),
            !u0.contains(key_of(initial@, windows)) ==> (exists|p: &str| #[trigger] call_ensures(on_disk, (p,), true) && p@ == initial@),
            forall|p: &str| #[trigger] on_disk.requires((p,)),
            forall|k: nat| 2 <= k < counter ==> #[trigger] variant_taken(*on_disk, u0, initial@, k, windows),
            parent@ == (match parent_of(initial@) { Some(p) => p, None => seq!['.'] }),
            stem@ == stem_or_empty(initial@),
            ext@ == ext_or_empty(initial@),
        decreases 10000 - counter,
    {
        let candidate = numbered_candidate(&parent, &stem, &ext, counter, windows);
        assert(candidate@ == numbered_path(initial@, counter as nat, windows));
        let key = path_key(candidate.as_str(), windows);
        let cs = candidate.as_str();
        let taken = on_disk(cs);
        if !taken && !contains_str(used, key.as_str()) {
            assert(call_ensures(on_disk, (cs,), false) && cs@ == candidate@);
            used.push(key);
            assert(sviews(used@) =~= u0.push(key_of(candidate@, windows)));
            return candidate;
        }
        assert(variant_taken(*on_disk, u0, initial@, counter as nat, windows)) by {
            if taken {
                assert(call_ensures(on_disk, (cs,), true) && cs@ == numbered_path(initial@, counter as nat, windows));
            }
        }
        counter = counter + 1;
    }
    used.push(k0);
    assert(sviews(used@) =~= u0.push(key_of(initial@, windows)));
    initial
}

// ------------------------------------------------------ choosing keywords

/// The keyword assigned to a path: that of the first pair for it.
pub open spec fn assignment_of(asg: Seq<(Seq<char>, Seq<char>)>, path: Seq<char>) -> Option<Seq<char>>
    decreases asg.len(),
{
    if asg.len() == 0 {
        None
    } else if asg[0].0 == path {
        Some(asg[0].1)
    } else {
        assignment_of(asg.drop_first(), path)
    }
}

pub(crate) fn find_assignment(asg: &Vec<(String, String)>, path: &str) -> (r: Option<String>)
    ensures
        match assignment_of(pair_views(asg@), path@) {
            Some(k) => r matches Some(s) && s@ == k,
            None => r is None,
        },
{
    let ghost a = pair_views(asg@);
    let mut i: usize = 0;
    assert(a.skip(0) =~= a);
    while i < asg.len()
        invariant
            i <= asg.len(),
            a == pair_views(asg@),
            assignment_of(a, path@) == assignment_of(a.skip(i as int), path@),
        decreases asg.len() - i,
    {
        assert(a.skip(i as int)[0] == (asg@[i as int].0@, asg@[i as int].1@));
        assert(a.skip(i as int).drop_first() =~= a.skip(i + 1));
        if str_eq(asg[i].0.as_str(), path) {
            return Some(asg[i].1.clone());
        }
        i = i + 1;
    }
    None
}

/// The keyword a file goes under and whether the user chose it, or why it
/// cannot go: a grouped file (`group` is its group's keyword) may keep its only
/// match; an unmatched one needs a choice among its matches, or among all the
/// scan's keywords when it has none.
pub open spec fn entry_choice(
    path: Seq<char>,
    matched: Seq<Seq<char>>,
    group: Option<Seq<char>>,
    asg: Seq<(Seq<char>, Seq<char>)>,
    available: Seq<Seq<char>>,
) -> Result<(Seq<char>, bool), Seq<char>> {
    match group {
        Some(g) => match assignment_of(asg, path) {
            Some(k) => if matched.contains(k) { Ok((k, true)) } else { Err("文件 "@ + path + " 的归属关键字无效"@) },
            None => if matched.len() == 1 { Ok((g, false)) } else { Err("文件 "@ + path + " 存在多个匹配关键字，请先选择归属"@) },
        },
        None => match assignment_of(asg, path) {
            None => Err("未匹配文件 "@ + path + " 尚未选择归属关键字"@),
            Some(k) => if matched.len() == 0 {
                if available.contains(k) { Ok((k, true)) } else { Err("文件 "@ + path + " 的归属关键字无效"@) }
            } else if matched.contains(k) {
                Ok((k, true))
            } else {
                Err("文件 "@ + path + " 的归属关键字不在匹配候选中"@)
            },
        },
    }
}

/// How a file's keyword is chosen: the user's choice, when there is one, wins
/// and must be one of the file's matches (one of all the scan's keywords for a
/// file with no match); without a choice a grouped file with exactly one match
/// keeps its group's keyword and any other file is refused. The choice for a
/// path is the first one given for it.
pub proof fn lemma_entry_choice(
    path: Seq<char>,
    matched: Seq<Seq<char>>,
    group: Option<Seq<char>>,
    asg: Seq<(Seq<char>, Seq<char>)>,
    available: Seq<Seq<char>>,
)
    ensures
        ({
            let r = entry_choice(path, matched, group, asg, available);
            let a = assignment_of(asg, path);
            &&& (r matches Ok((k, true)) ==> a == Some(k) && (matched.contains(k) || (matched.len() == 0 && available.contains(k))))
            &&& (r matches Ok((k, false)) ==> a is None && group == Some(k) && matched.len() == 1)
            &&& (a matches Some(k) ==> (matched.contains(k) ==> r == Ok::<(Seq<char>, bool), Seq<char>>((k, true))))
            &&& (a matches Some(k) ==> (matched.len() == 0 && available.contains(k) && group is None
                ==> r == Ok::<(Seq<char>, bool), Seq<char>>((k, true))))
            &&& (a matches Some(k) ==> (!matched.contains(k) && (matched.len() > 0 || !available.contains(k) || group is Some) ==> r is Err))
            &&& (a is None && (group is None || matched.len() != 1) ==> r is Err)
        }),
        forall|i: int| 0 <= i < asg.len() && (#[trigger] asg[i]).0 == path && (forall|j: int| 0 <= j < i ==> asg[j].0 != path)
            ==> assignment_of(asg, path) == Some(asg[i].1),
        (forall|i: int| 0 <= i < asg.len() ==> (#[trigger] asg[i]).0 != path) ==> assignment_of(asg, path) is None,
{
    lemma_assignment_first(asg, path);
}

proof fn lemma_assignment_first(asg: Seq<(Seq<char>, Seq<char>)>, path: Seq<char>)
    ensures
        forall|i: int| 0 <= i < asg.len() && (#[trigger] asg[i]).0 == path && (forall|j: int| 0 <= j < i ==> asg[j].0 != path)
            ==> assignment_of(asg, path) == Some(asg[i].1),
        (forall|i: int| 0 <= i < asg.len() ==> (#[trigger] asg[i]).0 != path) ==> assignment_of(asg, path) is None,
    decreases asg.len(),
{
    if asg.len() > 0 {
        let t = asg.drop_first();
        lemma_assignment_first(t, path);
        assert forall|i: int| 0 <= i < t.len() implies #[trigger] t[i] == asg[i + 1] by {}
        assert forall|i: int| 0 <= i < asg.len() && (#[trigger] asg[i]).0 == path && (forall|j: int| 0 <= j < i ==> asg[j].0 != path)
            implies assignment_of(asg, path) == Some(asg[i].1) by {
            if i > 0 {
                assert(asg[0].0 != path);
                assert(t[i - 1] == asg[i]);
                assert forall|j: int| 0 <= j < i - 1 implies t[j].0 != path by {
                    assert(t[j] == asg[j + 1]);
                }
            }
        }
        if forall|i: int| 0 <= i < asg.len() ==> (#[trigger] asg[i]).0 != path {
            assert(asg[0].0 != path);
            assert forall|i: int| 0 <= i < t.len() implies (#[trigger] t[i]).0 != path by {
                assert(t[i] == asg[i + 1]);
            }
        }
    }
}

fn message3(a: &str, b: &str, c: &str) -> (r: String)
    ensures
        r@ == a@ + b@ + c@,
{
    let x = concat_str(a, b);
    concat_str(x.as_str(), c)
}

/// The keyword chosen for a file, as `entry_choice` says.
pub fn choose_keyword(
    file: &MediaFile,
    group: Option<&str>,
    asg: &Vec<(String, String)>,
    available: &Vec<String>,
) -> (r: Result<(String, bool), String>)
    ensures
        match entry_choice(file.path@, sviews(file.matched_keywords@), match group { Some(g) => Some(g@), None => None }, pair_views(asg@), sviews(available@)) {
            Ok((k, learn)) => r matches Ok((rk, rl)) && rk@ == k && rl == learn,
            Err(e) => r matches Err(re) && re@ == e,
        },
{
    let p = file.path.as_str();
    let a = find_assignment(asg, p);
    match group {
        Some(g) => match a {
            Some(k) => {
                if contains_str(&file.matched_keywords, k.as_str()) {
                    Ok((k, true))
                } else {
                    Err(message3("文件 ", p, " 的归属关键字无效"))
                }
            },
            None => {
                if file.matched_keywords.len() == 1 {
                    Ok((owned(g), false))
                } else {
                    Err(message3("文件 ", p, " 存在多个匹配关键字，请先选择归属"))
                }
            },
        },
        None => match a {
            None => Err(message3("未匹配文件 ", p, " 尚未选择归属关键字")),
            Some(k) => {
                if file.matched_keywords.len() == 0 {
                    if contains_str(available, k.as_str()) {
                        Ok((k, true))
                    } else {
                        Err(message3("文件 ", p, " 的归属关键字无效"))
                    }
                } else if contains_str(&file.matched_keywords, k.as_str()) {
                    Ok((k, true))
                } else {
                    Err(message3("文件 ", p, " 的归属关键字不在匹配候选中"))
                }
            },
        },
    }
}

// ----------------------------------------------------------------- preview

/// The files of the groups, each with its group's keyword, in order.
pub open spec fn group_entries(gs: Seq<KeywordGroup>) -> Seq<(MediaFile, Option<Seq<char>>)>
    decreases gs.len(),
{
    if gs.len() == 0 {
        Seq::empty()
    } else {
        let g = gs.last();
        group_entries(gs.drop_last()) + Seq::new(g.files@.len(), |i: int| (g.files@[i], Some(g.keyword@)))
    }
}

/// Every file of a scan in the order a preview visits them: grouped, then unmatched.
pub open spec fn preview_entries(res: MediaClassifyResult) -> Seq<(MediaFile, Option<Seq<char>>)> {
    group_entries(res.groups@) + Seq::new(res.unmatched_files@.len(), |i: int| (res.unmatched_files@[i], None::<Seq<char>>))
}

/// The refusal for the first selected file whose keyword cannot be chosen.
pub open spec fn first_error(
    es: Seq<(MediaFile, Option<Seq<char>>)>,
    selected: Seq<Seq<char>>,
    asg: Seq<(Seq<char>, Seq<char>)>,
    available: Seq<Seq<char>>,
) -> Option<Seq<char>>
    decreases es.len(),
{
    if es.len() == 0 {
        None
    } else {
        match first_error(es.drop_last(), selected, asg, available) {
            Some(e) => Some(e),
            None => {
                let f = es.last().0;
                if selected.contains(f.path@) {
                    match entry_choice(f.path@, sviews(f.matched_keywords@), es.last().1, asg, available) {
                        Err(e) => Some(e),
                        Ok(_) => None,
                    }
                } else {
                    None
                }
            },
        }
    }
}

proof fn lemma_first_error_prefix(
    es: Seq<(MediaFile, Option<Seq<char>>)>,
    n: int,
    selected: Seq<Seq<char>>,
    asg: Seq<(Seq<char>, Seq<char>)>,
    available: Seq<Seq<char>>,
)
    requires
        0 <= n <= es.len(),
        first_error(es.take(n), selected, asg, available) is Some,
    ensures
        first_error(es, selected, asg, available) == first_error(es.take(n), selected, asg, available),
    decreases es.len() - n,
{
    if n < es.len() {
        assert(es.take(n + 1).drop_last() =~= es.take(n));
        lemma_first_error_prefix(es, n + 1, selected, asg, available);
    } else {
        assert(es.take(n) =~= es);
    }
}

/// The move of a file, its keyword and its place among the scan's roots.
pub open spec fn item_fits(item: ClassifyPreviewItem, f: MediaFile, kw: Seq<char>, roots: Seq<Seq<char>>, windows: bool) -> bool {
    let initial = target_path_of(f.path@, kw, root_dir_of(f.path@, roots), windows);
    &&& item.source_path@ == f.path@
    &&& item.size_bytes == f.size_bytes
    &&& item.action_desc@ == "移动到 "@ + kw + " 并重命名"@
    &&& (item.target_path@ == initial || exists|k: nat| 2 <= k <= 9999 && item.target_path@ == numbered_path(initial, k, windows))
    &&& !same_path(item.target_path@, f.path@, windows)
}

/// One of the targets the file could be given under `kw` (the first one or a
/// numbered variant of it) is the file's own path.
pub open spec fn in_place(f: MediaFile, kw: Seq<char>, roots: Seq<Seq<char>>, windows: bool) -> bool {
    let initial = target_path_of(f.path@, kw, root_dir_of(f.path@, roots), windows);
    same_path(initial, f.path@, windows)
        || exists|k: nat| 2 <= k <= 9999 && #[trigger] same_path(numbered_path(initial, k, windows), f.path@, windows)
}

/// A selected entry with a valid keyword is moved by one of the items, unless
/// the target it was given is its own path.
pub open spec fn entry_handled(
    items: Seq<ClassifyPreviewItem>,
    e: (MediaFile, Option<Seq<char>>),
    selected: Seq<Seq<char>>,
    asg: Seq<(Seq<char>, Seq<char>)>,
    available: Seq<Seq<char>>,
    roots: Seq<Seq<char>>,
    windows: bool,
) -> bool {
    selected.contains(e.0.path@) ==> match entry_choice(e.0.path@, sviews(e.0.matched_keywords@), e.1, asg, available) {
        Ok((kw, _)) => moved_by(items, e.0.path@) || in_place(e.0, kw, roots, windows),
        Err(_) => true,
    }
}

proof fn lemma_handled_grow(
    before: Seq<ClassifyPreviewItem>,
    after: Seq<ClassifyPreviewItem>,
    e: (MediaFile, Option<Seq<char>>),
    selected: Seq<Seq<char>>,
    asg: Seq<(Seq<char>, Seq<char>)>,
    available: Seq<Seq<char>>,
    roots: Seq<Seq<char>>,
    windows: bool,
)
    requires
        before.len() <= after.len(),
        forall|i: int| 0 <= i < before.len() ==> #[trigger] after[i] == before[i],
        entry_handled(before, e, selected, asg, available, roots, windows),
    ensures
        entry_handled(after, e, selected, asg, available, roots, windows),
{
    if moved_by(before, e.0.path@) {
        let m = choose|m: int| 0 <= m < before.len() && #[trigger] before[m].source_path@ == e.0.path@;
        assert(after[m] == before[m]);
    }
}

/// The item comes from a selected file with a valid keyword.
pub open spec fn item_from(
    item: ClassifyPreviewItem,
    es: Seq<(MediaFile, Option<Seq<char>>)>,
    selected: Seq<Seq<char>>,
    asg: Seq<(Seq<char>, Seq<char>)>,
    available: Seq<Seq<char>>,
    roots: Seq<Seq<char>>,
    windows: bool,
) -> bool {
    exists|k: int| 0 <= k < es.len() && selected.contains(#[trigger] es[k].0.path@) && (match entry_choice(
        es[k].0.path@, sviews(es[k].0.matched_keywords@), es[k].1, asg, available,
    ) {
        Ok((kw, _)) => item_fits(item, es[k].0, kw, roots, windows),
        Err(_) => false,
    })
}

/// Every hint is about a file that one of the items moves.
/// The alias hints a moved entry gives: when its keyword was assigned by hand,
/// one hint per other matched keyword, naming the assigned one; none otherwise.
pub open spec fn entry_hints(
    e: (MediaFile, Option<Seq<char>>),
    asg: Seq<(Seq<char>, Seq<char>)>,
    available: Seq<Seq<char>>,
) -> Seq<(Seq<char>, Seq<char>, Seq<char>)> {
    match entry_choice(e.0.path@, sviews(e.0.matched_keywords@), e.1, asg, available) {
        Ok((kw, learn)) => if learn { learning_hints_for(e.0.path@, sviews(e.0.matched_keywords@), kw) } else { Seq::empty() },
        Err(_) => Seq::empty(),
    }
}

/// The hints of the entries at `eidx`, in order.
pub open spec fn hints_along(
    es: Seq<(MediaFile, Option<Seq<char>>)>,
    eidx: Seq<int>,
    asg: Seq<(Seq<char>, Seq<char>)>,
    available: Seq<Seq<char>>,
) -> Seq<(Seq<char>, Seq<char>, Seq<char>)>
    decreases eidx.len(),
{
    if eidx.len() == 0 {
        Seq::empty()
    } else {
        hints_along(es, eidx.drop_last(), asg, available) + entry_hints(es[eidx.last()], asg, available)
    }
}

/// Item `k` moves entry `eidx[k]`, the entries in their order, and the hints are
/// those of the moved entries, in the same order.
pub open spec fn items_along(
    items: Seq<ClassifyPreviewItem>,
    hints: Seq<(Seq<char>, Seq<char>, Seq<char>)>,
    es: Seq<(MediaFile, Option<Seq<char>>)>,
    selected: Seq<Seq<char>>,
    asg: Seq<(Seq<char>, Seq<char>)>,
    available: Seq<Seq<char>>,
    roots: Seq<Seq<char>>,
    windows: bool,
    eidx: Seq<int>,
) -> bool {
    &&& eidx.len() == items.len()
    &&& forall|k: int| 0 <= k < eidx.len() ==> 0 <= #[trigger] eidx[k] < es.len() && selected.contains(es[eidx[k]].0.path@)
        && match entry_choice(es[eidx[k]].0.path@, sviews(es[eidx[k]].0.matched_keywords@), es[eidx[k]].1, asg, available) {
            Ok((kw, _)) => item_fits(items[k], es[eidx[k]].0, kw, roots, windows),
            Err(_) => false,
        }
    &&& forall|a: int, b: int| 0 <= a < b < eidx.len() ==> #[trigger] eidx[a] < #[trigger] eidx[b]
    &&& hints == hints_along(es, eidx, asg, available)
}

proof fn lemma_along_step(
    before: Seq<ClassifyPreviewItem>,
    items: Seq<ClassifyPreviewItem>,
    hints0: Seq<(Seq<char>, Seq<char>, Seq<char>)>,
    hints: Seq<(Seq<char>, Seq<char>, Seq<char>)>,
    es: Seq<(MediaFile, Option<Seq<char>>)>,
    selected: Seq<Seq<char>>,
    asg: Seq<(Seq<char>, Seq<char>)>,
    available: Seq<Seq<char>>,
    roots: Seq<Seq<char>>,
    windows: bool,
    eidx: Seq<int>,
    k: int,
) -> (eidx2: Seq<int>)
    requires
        items_along(before, hints0, es, selected, asg, available, roots, windows, eidx),
        forall|q: int| 0 <= q < eidx.len() ==> #[trigger] eidx[q] < k,
        0 <= k < es.len(),
        items.len() == before.len() || items.len() == before.len() + 1,
        forall|i: int| 0 <= i < before.len() ==> #[trigger] items[i] == before[i],
        items.len() == before.len() ==> hints == hints0,
        items.len() == before.len() + 1 ==> selected.contains(es[k].0.path@)
            && (match entry_choice(es[k].0.path@, sviews(es[k].0.matched_keywords@), es[k].1, asg, available) {
                Ok((kw, _)) => item_fits(items.last(), es[k].0, kw, roots, windows),
                Err(_) => false,
            })
            && hints == hints0 + entry_hints(es[k], asg, available),
    ensures
        items_along(items, hints, es, selected, asg, available, roots, windows, eidx2),
        forall|q: int| 0 <= q < eidx2.len() ==> #[trigger] eidx2[q] < k + 1,
{
    if items.len() == before.len() {
        assert(items =~= before);
        eidx
    } else {
        let e2 = eidx.push(k);
        assert(e2.drop_last() =~= eidx);
        assert forall|q: int| 0 <= q < e2.len() implies 0 <= #[trigger] e2[q] < es.len() && selected.contains(es[e2[q]].0.path@)
            && match entry_choice(es[e2[q]].0.path@, sviews(es[e2[q]].0.matched_keywords@), es[e2[q]].1, asg, available) {
                Ok((kw, _)) => item_fits(items[q], es[e2[q]].0, kw, roots, windows),
                Err(_) => false,
            } by {
            if q < eidx.len() {
                assert(e2[q] == eidx[q]);
                assert(items[q] == before[q]);
            }
        }
        assert forall|a: int, b: int| 0 <= a < b < e2.len() implies #[trigger] e2[a] < #[trigger] e2[b] by {
            assert(e2[a] == eidx[a]);
            if b < eidx.len() {
                assert(e2[b] == eidx[b]);
            }
        }
        e2
    }
}

pub open spec fn hints_from_items(hints: Seq<(Seq<char>, Seq<char>, Seq<char>)>, items: Seq<ClassifyPreviewItem>) -> bool {
    forall|h: int| 0 <= h < hints.len() ==> #[trigger] moved_by(items, hints[h].0)
}

/// One of the items moves the file at `path`.
pub open spec fn moved_by(items: Seq<ClassifyPreviewItem>, path: Seq<char>) -> bool {
    exists|k: int| 0 <= k < items.len() && #[trigger] items[k].source_path@ == path
}

proof fn lemma_hints_path(path: Seq<char>, matched: Seq<Seq<char>>, canonical: Seq<char>)
    ensures
        forall|i: int| 0 <= i < learning_hints_for(path, matched, canonical).len() ==> (#[trigger] learning_hints_for(path, matched, canonical)[i]).0 == path,
    decreases matched.len(),
{
    if matched.len() > 0 {
        lemma_hints_path(path, matched.drop_last(), canonical);
        let prev = learning_hints_for(path, matched.drop_last(), canonical);
        let all = learning_hints_for(path, matched, canonical);
        assert forall|i: int| 0 <= i < all.len() implies (#[trigger] all[i]).0 == path by {
            if i < prev.len() {
                assert(all[i] == prev[i]);
            }
        }
    }
}

/// One step of a preview: the move of `file`, if it is selected and not already in place.
fn preview_step<F: Fn(&str) -> bool>(
    file: &MediaFile,
    group: Option<&str>,
    request: &ClassifyExecuteRequest,
    available: &Vec<String>,
    roots: &Vec<String>,
    used: &mut Vec<String>,
    items: &mut Vec<ClassifyPreviewItem>,
    hints: &mut Vec<AliasLearningHint>,
    on_disk: &F,
    windows: bool,
) -> (r: Result<(), String>)
    requires
        forall|p: &str| #[trigger] on_disk.requires((p,)),
    ensures
        sviews(request.selected_paths@).contains(file.path@) ==> match entry_choice(file.path@, sviews(file.matched_keywords@),
            match group { Some(g) => Some(g@), None => None }, pair_views(request.keyword_assignments@), sviews(available@)) {
            Ok(_) => r is Ok,
            Err(e) => r matches Err(re) && re@ == e,
        },
        !sviews(request.selected_paths@).contains(file.path@) ==> r is Ok && final(items)@ == old(items)@,
        r is Ok ==> old(items)@.len() <= final(items)@.len() <= old(items)@.len() + 1,
        r is Ok ==> forall|i: int| 0 <= i < old(items)@.len() ==> #[trigger] final(items)@[i] == old(items)@[i],
        hint_views(final(hints)@).len() >= hint_views(old(hints)@).len(),
        forall|h: int| 0 <= h < hint_views(old(hints)@).len() ==> #[trigger] hint_views(final(hints)@)[h] == hint_views(old(hints)@)[h],
        hint_views(final(hints)@).len() > hint_views(old(hints)@).len() ==> r is Ok && final(items)@.len() == old(items)@.len() + 1
            && final(items)@.last().source_path@ == file.path@,
        forall|h: int| hint_views(old(hints)@).len() <= h < hint_views(final(hints)@).len() ==> (#[trigger] hint_views(final(hints)@)[h]).0 == file.path@,
        r is Ok && final(items)@.len() == old(items)@.len() + 1 ==> sviews(request.selected_paths@).contains(file.path@)
            && (match entry_choice(file.path@, sviews(file.matched_keywords@), match group { Some(g) => Some(g@), None => None },
                pair_views(request.keyword_assignments@), sviews(available@)) {
                Ok((kw, _)) => item_fits(final(items)@.last(), *file, kw, sviews(roots@), windows),
                Err(_) => false,
            }),
        r is Ok && sviews(request.selected_paths@).contains(file.path@) ==> match entry_choice(file.path@, sviews(file.matched_keywords@),
            match group { Some(g) => Some(g@), None => None }, pair_views(request.keyword_assignments@), sviews(available@)) {
            Ok((kw, _)) => (final(items)@.len() == old(items)@.len() + 1 && final(items)@.last().source_path@ == file.path@)
                || in_place(*file, kw, sviews(roots@), windows),
            Err(_) => true,
        },
        r is Ok ==> hint_views(final(hints)@) == hint_views(old(hints)@) + (if final(items)@.len() == old(items)@.len() + 1 {
            entry_hints((*file, match group { Some(g) => Some(g@), None => None }), pair_views(request.keyword_assignments@), sviews(available@))
        } else {
            Seq::empty()
        }),
{
    if !contains_str(&request.selected_paths, file.path.as_str()) {
        return Ok(());
    }
    let (keyword, learn) = match choose_keyword(file, group, &request.keyword_assignments, available) {
        Ok(c) => c,
        Err(e) => { return Err(e); },
    };
    let root_dir = find_root_dir(file.path.as_str(), roots);
    let base_target = match build_target_path(file.path.as_str(), keyword.as_str(), root_dir.as_str(), windows) {
        Ok(t) => t,
        Err(e) => { return Err(e); },
    };
    let ghost initial = base_target@;
    let target = resolve_unique_target(base_target, used, on_disk, windows);
    if paths_same(target.as_str(), file.path.as_str(), windows) {
        proof {
            if target@ != initial {
                let k = choose|k: nat| 2 <= k <= 9999 && target@ == numbered_path(initial, k, windows);
                assert(same_path(numbered_path(initial, k, windows), file.path@, windows));
            }
        }
        return Ok(());
    }
    let desc = message3("移动到 ", keyword.as_str(), " 并重命名");
    items.push(ClassifyPreviewItem {
        source_path: file.path.clone(),
        target_path: target,
        action_desc: desc,
        size_bytes: file.size_bytes,
    });
    if learn {
        let ghost h0 = hint_views(hints@);
        append_learning_hints(hints, file, keyword.as_str());
        proof {
            lemma_hints_path(file.path@, sviews(file.matched_keywords@), keyword@);
            let added = learning_hints_for(file.path@, sviews(file.matched_keywords@), keyword@);
            assert forall|h: int| h0.len() <= h < hint_views(hints@).len() implies (#[trigger] hint_views(hints@)[h]).0 == file.path@ by {
                assert(hint_views(hints@)[h] == added[h - h0.len()]);
            }
        }
    }
    Ok(())
}

proof fn lemma_group_entries_prefix(gs: Seq<KeywordGroup>, n: int)
    requires
        0 <= n <= gs.len(),
    ensures
        group_entries(gs.take(n)).len() <= group_entries(gs).len(),
        forall|i: int| 0 <= i < group_entries(gs.take(n)).len() ==> #[trigger] group_entries(gs)[i] == group_entries(gs.take(n))[i],
    decreases gs.len(),
{
    if n == gs.len() {
        assert(gs.take(n) =~= gs);
    } else {
        assert(gs.drop_last().take(n) =~= gs.take(n));
        lemma_group_entries_prefix(gs.drop_last(), n);
    }
}

/// The keywords of the scan's keyword summaries.
pub open spec fn info_keywords(infos: Seq<KeywordInfo>) -> Seq<Seq<char>> {
    Seq::new(infos.len(), |i: int| infos[i].keyword@)
}

fn keyword_list(infos: &Vec<KeywordInfo>) -> (r: Vec<String>)
    ensures
        sviews(r@) == info_keywords(infos@),
{
    let mut r: Vec<String> = Vec::new();
    let mut i: usize = 0;
    while i < infos.len()
        invariant
            i <= infos.len(),
            sviews(r@) =~= info_keywords(infos@.take(i as int)),
        decreases infos.len() - i,
    {
        let ghost r0 = r@;
        r.push(infos[i].keyword.clone());
        assert(sviews(r@) =~= sviews(r0).push(infos@[i as int].keyword@));
        i = i + 1;
    }
    assert(infos@.take(infos.len() as int) =~= infos@);
    r
}

/// The moves that a classification asks for: each selected file, under its
/// keyword, to a target that no other move of the batch takes; files already in
/// place are left out. `on_disk` tells whether a path is taken on disk.
#[verifier::rlimit(40)]
pub fn preview_media_classify<F: Fn(&str) -> bool>(
    scan_result: &MediaClassifyResult,
    request: &ClassifyExecuteRequest,
    on_disk: &F,
    windows: bool,
) -> (r: Result<ClassifyPreviewResult, String>)
    requires
        forall|p: &str| #[trigger] on_disk.requires((p,)),
    ensures
        scan_result.task_id@ != request.task_id@ ==> (r matches Err(e) && e@ == "任务 ID 不匹配，请重新扫描"@),
        scan_result.task_id@ == request.task_id@ ==> match first_error(preview_entries(*scan_result), sviews(request.selected_paths@),
            pair_views(request.keyword_assignments@), info_keywords(scan_result.keywords@)) {
            Some(e) => r matches Err(re) && re@ == e,
            None => r matches Ok(p) && p.task_id@ == scan_result.task_id@ && p.total == p.items@.len()
                && (forall|i: int| 0 <= i < p.items@.len() ==> item_from(#[trigger] p.items@[i], preview_entries(*scan_result),
                    sviews(request.selected_paths@), pair_views(request.keyword_assignments@), info_keywords(scan_result.keywords@),
                    sviews(scan_result.source_paths@), windows))
                && hints_from_items(hint_views(p.learning_hints@), p.items@)
                && (exists|eidx: Seq<int>| #[trigger] items_along(p.items@, hint_views(p.learning_hints@), preview_entries(*scan_result),
                    sviews(request.selected_paths@), pair_views(request.keyword_assignments@), info_keywords(scan_result.keywords@),
                    sviews(scan_result.source_paths@), windows, eidx))
                && (forall|k: int| 0 <= k < preview_entries(*scan_result).len() ==> entry_handled(p.items@, #[trigger] preview_entries(*scan_result)[k],
                    sviews(request.selected_paths@), pair_views(request.keyword_assignments@), info_keywords(scan_result.keywords@),
                    sviews(scan_result.source_paths@), windows)),
        },
{
    if !str_eq(scan_result.task_id.as_str(), request.task_id.as_str()) {
        return Err(owned("任务 ID 不匹配，请重新扫描"));
    }
    let ghost es = preview_entries(*scan_result);
    let ghost sel = sviews(request.selected_paths@);
    let ghost asg = pair_views(request.keyword_assignments@);
    let available = keyword_list(&scan_result.keywords);
    let ghost av = sviews(available@);
    let ghost roots = sviews(scan_result.source_paths@);
    let mut used: Vec<String> = Vec::new();
    let mut items: Vec<ClassifyPreviewItem> = Vec::new();
    let mut hints: Vec<AliasLearningHint> = Vec::new();
    let ghost mut eidx: Seq<int> = Seq::empty();
    assert(hint_views(hints@) =~= Seq::<(Seq<char>, Seq<char>, Seq<char>)>::empty());
    let groups = &scan_result.groups;
    let mut g: usize = 0;
    assert(groups@.take(0) =~= Seq::<KeywordGroup>::empty());
    assert(es.take(0) =~= Seq::<(MediaFile, Option<Seq<char>>)>::empty());
    while g < groups.len()
        invariant
            g <= groups.len(),
            groups@ == scan_result.groups@,
            es == preview_entries(*scan_result),
            scan_result.task_id@ == request.task_id@,
            sel == sviews(request.selected_paths@),
            asg == pair_views(request.keyword_assignments@),
            av == sviews(available@),
            av == info_keywords(scan_result.keywords@),
            roots == sviews(scan_result.source_paths@),
            forall|p: &str| #[trigger] on_disk.requires((p,)),
            first_error(es.take(group_entries(groups@.take(g as int)).len() as int), sel, asg, av) is None,
            forall|i: int| 0 <= i < items@.len() ==> item_from(#[trigger] items@[i], es, sel, asg, av, roots, windows),
            hints_from_items(hint_views(hints@), items@),
            group_entries(groups@.take(g as int)).len() <= es.len(),
            items_along(items@, hint_views(hints@), es, sel, asg, av, roots, windows, eidx),
            forall|q: int| 0 <= q < eidx.len() ==> #[trigger] eidx[q] < group_entries(groups@.take(g as int)).len(),
            forall|k: int| 0 <= k < group_entries(groups@.take(g as int)).len() ==> entry_handled(items@, #[trigger] es[k], sel, asg, av, roots, windows),
        decreases groups.len() - g,
    {
        let ghost base = group_entries(groups@.take(g as int)).len() as int;
        proof {
            assert(groups@.take(g + 1).drop_last() =~= groups@.take(g as int));
            lemma_group_entries_prefix(groups@, g + 1);
            assert(groups@.take(groups@.len() as int) =~= groups@);
        }
        let files = &groups[g].files;
        let kw = groups[g].keyword.as_str();
        let mut j: usize = 0;
        while j < files.len()
            invariant
                g < groups.len(),
                j <= files.len(),
                files@ == groups@[g as int].files@,
                kw@ == groups@[g as int].keyword@,
                groups@ == scan_result.groups@,
                es == preview_entries(*scan_result),
                scan_result.task_id@ == request.task_id@,
                sel == sviews(request.selected_paths@),
                asg == pair_views(request.keyword_assignments@),
                av == sviews(available@),
                av == info_keywords(scan_result.keywords@),
                roots == sviews(scan_result.source_paths@),
                base == group_entries(groups@.take(g as int)).len(),
                group_entries(groups@.take(g + 1)) == group_entries(groups@.take(g as int)) + Seq::new(
                    files@.len(), |i: int| (files@[i], Some(kw@))),
                group_entries(groups@.take(g + 1)).len() <= group_entries(groups@).len(),
                forall|i: int| 0 <= i < group_entries(groups@.take(g + 1)).len() ==> #[trigger] group_entries(groups@)[i] == group_entries(groups@.take(g + 1))[i],
                forall|p: &str| #[trigger] on_disk.requires((p,)),
                first_error(es.take(base + j), sel, asg, av) is None,
                forall|i: int| 0 <= i < items@.len() ==> item_from(#[trigger] items@[i], es, sel, asg, av, roots, windows),
                hints_from_items(hint_views(hints@), items@),
                forall|k: int| 0 <= k < base + j ==> entry_handled(items@, #[trigger] es[k], sel, asg, av, roots, windows),
                items_along(items@, hint_views(hints@), es, sel, asg, av, roots, windows, eidx),
                forall|q: int| 0 <= q < eidx.len() ==> #[trigger] eidx[q] < base + j,
                base + files@.len() <= es.len(),
            decreases files.len() - j,
        {
            let ghost k: int = base + j as int;
            assert(es[k] == (files@[j as int], Some(kw@)));
            let ghost before = items@;
            let ghost hints0 = hints@;
            let step = preview_step(&files[j], Some(kw), request, &available, &scan_result.source_paths, &mut used, &mut items, &mut hints, on_disk, windows);
            assert(es.take(k + 1).drop_last() =~= es.take(k));
            match step {
                Err(e) => {
                    assert(es.take(k + 1).last() == es[k]);
                    assert(first_error(es.take(k + 1), sel, asg, av) == Some(e@));
                    proof { lemma_first_error_prefix(es, k + 1, sel, asg, av); }
                    return Err(e);
                },
                Ok(()) => {},
            }
            proof {
                eidx = lemma_along_step(before, items@, hint_views(hints0), hint_views(hints@), es, sel, asg, av, roots, windows, eidx, k);
            }
            assert forall|i: int| 0 <= i < items@.len() implies item_from(#[trigger] items@[i], es, sel, asg, av, roots, windows) by {
                if i < before.len() {
                    assert(items@[i] == before[i]);
                } else {
                    assert(sel.contains(es[k].0.path@));
                }
            }
            assert forall|h: int| 0 <= h < hint_views(hints@).len() implies #[trigger] moved_by(items@, hint_views(hints@)[h].0) by {
                if h < hint_views(hints0).len() {
                    assert(hint_views(hints@)[h] == hint_views(hints0)[h]);
                    assert(moved_by(before, hint_views(hints0)[h].0));
                let m = choose|m: int| 0 <= m < before.len() && #[trigger] before[m].source_path@ == hint_views(hints0)[h].0;
                    assert(items@[m] == before[m]);
                } else {
                    assert(items@[items@.len() - 1].source_path@ == hint_views(hints@)[h].0);
                }
            }
            assert forall|q: int| 0 <= q < base + j + 1 implies entry_handled(items@, #[trigger] es[q], sel, asg, av, roots, windows) by {
                if q < k {
                    lemma_handled_grow(before, items@, es[q], sel, asg, av, roots, windows);
                } else if items@.len() == before.len() + 1 && items@.last().source_path@ == es[k].0.path@ {
                    assert(items@[items@.len() - 1].source_path@ == es[k].0.path@);
                }
            }
            j = j + 1;
        }
        g = g + 1;
    }
    assert(groups@.take(groups@.len() as int) =~= groups@);
    let ghost gl = group_entries(groups@).len() as int;
    let unmatched = &scan_result.unmatched_files;
    let mut j: usize = 0;
    while j < unmatched.len()
        invariant
            j <= unmatched.len(),
            unmatched@ == scan_result.unmatched_files@,
            es == preview_entries(*scan_result),
            scan_result.task_id@ == request.task_id@,
            gl == group_entries(scan_result.groups@).len(),
            sel == sviews(request.selected_paths@),
            asg == pair_views(request.keyword_assignments@),
            av == sviews(available@),
            av == info_keywords(scan_result.keywords@),
            roots == sviews(scan_result.source_paths@),
            forall|p: &str| #[trigger] on_disk.requires((p,)),
            first_error(es.take(gl + j), sel, asg, av) is None,
            forall|i: int| 0 <= i < items@.len() ==> item_from(#[trigger] items@[i], es, sel, asg, av, roots, windows),
            hints_from_items(hint_views(hints@), items@),
            gl + unmatched@.len() == es.len(),
            forall|k: int| 0 <= k < gl + j ==> entry_handled(items@, #[trigger] es[k], sel, asg, av, roots, windows),
            items_along(items@, hint_views(hints@), es, sel, asg, av, roots, windows, eidx),
            forall|q: int| 0 <= q < eidx.len() ==> #[trigger] eidx[q] < gl + j,
        decreases unmatched.len() - j,
    {
        let ghost k: int = gl + j as int;
        assert(es[k] == (unmatched@[j as int], None::<Seq<char>>));
        let ghost before = items@;
        let ghost hints0 = hints@;
        let step = preview_step(&unmatched[j], None, request, &available, &scan_result.source_paths, &mut used, &mut items, &mut hints, on_disk, windows);
        assert(es.take(k + 1).drop_last() =~= es.take(k));
        match step {
            Err(e) => {
                assert(es.take(k + 1).last() == es[k]);
                assert(first_error(es.take(k + 1), sel, asg, av) == Some(e@));
                proof { lemma_first_error_prefix(es, k + 1, sel, asg, av); }
                return Err(e);
            },
            Ok(()) => {},
        }
        proof {
            eidx = lemma_along_step(before, items@, hint_views(hints0), hint_views(hints@), es, sel, asg, av, roots, windows, eidx, k);
        }
        assert forall|i: int| 0 <= i < items@.len() implies item_from(#[trigger] items@[i], es, sel, asg, av, roots, windows) by {
            if i < before.len() {
                assert(items@[i] == before[i]);
            } else {
                assert(sel.contains(es[k].0.path@));
            }
        }
        assert forall|h: int| 0 <= h < hint_views(hints@).len() implies #[trigger] moved_by(items@, hint_views(hints@)[h].0) by {
            if h < hint_views(hints0).len() {
                assert(hint_views(hints@)[h] == hint_views(hints0)[h]);
                assert(moved_by(before, hint_views(hints0)[h].0));
                let m = choose|m: int| 0 <= m < before.len() && #[trigger] before[m].source_path@ == hint_views(hints0)[h].0;
                assert(items@[m] == before[m]);
            } else {
                assert(items@[items@.len() - 1].source_path@ == hint_views(hints@)[h].0);
            }
        }
        assert forall|q: int| 0 <= q < gl + j + 1 implies entry_handled(items@, #[trigger] es[q], sel, asg, av, roots, windows) by {
            if q < k {
                lemma_handled_grow(before, items@, es[q], sel, asg, av, roots, windows);
            } else if items@.len() == before.len() + 1 && items@.last().source_path@ == es[k].0.path@ {
                assert(items@[items@.len() - 1].source_path@ == es[k].0.path@);
            }
        }
        j = j + 1;
    }
    assert(es.take(es.len() as int) =~= es);
    assert(items_along(items@, hint_views(hints@), es, sel, asg, av, roots, windows, eidx));
    let total = items.len() as u64;
    let res = ClassifyPreviewResult { task_id: scan_result.task_id.clone(), items, total, learning_hints: hints };
    assert(items_along(res.items@, hint_views(res.learning_hints@), preview_entries(*scan_result),
        sviews(request.selected_paths@), pair_views(request.keyword_assignments@), info_keywords(scan_result.keywords@),
        sviews(scan_result.source_paths@), windows, eidx));
    Ok(res)
}

} // verus!
