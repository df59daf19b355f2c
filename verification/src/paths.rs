//! Paths as character sequences: keys for comparison (Windows rules or the path
//! as written, by platform), components, file name parts, parent and join, and
//! root selection for scanned files (by Windows rules).
use vstd::prelude::*;
use crate::text::{str_eq, trim, trim_ws, sviews, trim_by, trim_end_by, trim_pred, starts_with_seq, matches_at, vviews, copy_chars, chars_of, lower_chars, lowercase, str_to_lowercase, string_of, chars_eq, contains_str, owned};

verus! {

pub open spec fn is_sep(c: char) -> bool {
    c == '\\' || c == '/'
}

/// `s` with every `/` turned into `\`.
pub open spec fn backslashed(s: Seq<char>) -> Seq<char> {
    Seq::new(s.len(), |i: int| if s[i] == '/' { '\\' } else { s[i] })
}

/// A path as Windows compares it: separators unified to `\`, then lowercased.
pub open spec fn windows_key(s: Seq<char>) -> Seq<char> {
    lowercase(backslashed(s))
}

/// The key under which two paths name the same file: on Windows (a
/// case-insensitive file system) the Windows form, elsewhere the path as written.
pub open spec fn key_of(s: Seq<char>, windows: bool) -> Seq<char> {
    if windows { windows_key(s) } else { s }
}

pub fn backslash_chars(v: &Vec<char>) -> (r: Vec<char>)
    ensures
        r@ == backslashed(v@),
{
    let mut r: Vec<char> = Vec::new();
    let mut i: usize = 0;
    while i < v.len()
        invariant
            i <= v.len(),
            r@ =~= backslashed(v@.take(i as int)),
        decreases v.len() - i,
    {
        if v[i] == '/' {
            r.push('\\');
        } else {
            r.push(v[i]);
        }
        i = i + 1;
    }
    assert(v@.take(v.len() as int) =~= v@);
    r
}

/// The comparison key of a path; `windows` tells whether the paths are
/// compared as Windows does.
pub fn path_key(path: &str, windows: bool) -> (r: String)
    ensures
        r@ == key_of(path@, windows),
{
    if !windows {
        return owned(path);
    }
    let v = chars_of(path);
    let b = backslash_chars(&v);
    let l = lower_chars(&b);
    string_of(&l)
}

/// Two paths are the same file when their keys agree.
pub fn paths_equal(a: &str, b: &str, windows: bool) -> (r: bool)
    ensures
        r == (key_of(a@, windows) == key_of(b@, windows)),
{
    let ka = path_key(a, windows);
    let kb = path_key(b, windows);
    ka == kb
}

/// Two paths are equal ignoring case (separators compared as written).
/// The paths with the later ones that repeat an earlier key left out.
pub open spec fn first_by_key(paths: Seq<Seq<char>>, windows: bool) -> Seq<Seq<char>>
    decreases paths.len(),
{
    if paths.len() == 0 {
        Seq::empty()
    } else {
        let prev = first_by_key(paths.drop_last(), windows);
        if prev.map_values(|p: Seq<char>| key_of(p, windows)).contains(key_of(paths.last(), windows)) { prev } else { prev.push(paths.last()) }
    }
}

/// Scanned paths without repeats: a path whose key an earlier one had is left out.
pub fn distinct_by_key(paths: &Vec<String>, windows: bool) -> (r: Vec<String>)
    ensures
        sviews(r@) == first_by_key(sviews(paths@), windows),
{
    let ghost ps = sviews(paths@);
    let mut r: Vec<String> = Vec::new();
    let mut keys: Vec<String> = Vec::new();
    let mut i: usize = 0;
    while i < paths.len()
        invariant
            i <= paths.len(),
            ps == sviews(paths@),
            sviews(r@) == first_by_key(ps.take(i as int), windows),
            sviews(keys@) == sviews(r@).map_values(|p: Seq<char>| key_of(p, windows)),
        decreases paths.len() - i,
    {
        assert(ps.take(i + 1).drop_last() =~= ps.take(i as int));
        assert(ps.take(i + 1).last() == paths@[i as int]@);
        let k = path_key(paths[i].as_str(), windows);
        if !contains_str(&keys, k.as_str()) {
            let ghost r0 = sviews(r@);
            let ghost k0 = sviews(keys@);
            r.push(owned(paths[i].as_str()));
            keys.push(k);
            assert(sviews(r@) =~= r0.push(paths@[i as int]@));
            assert(sviews(keys@) =~= k0.push(key_of(paths@[i as int]@, windows)));
            assert(sviews(keys@) =~= sviews(r@).map_values(|p: Seq<char>| key_of(p, windows)));
        }
        i = i + 1;
    }
    assert(ps.take(paths.len() as int) =~= ps);
    r
}

/// Whether `path` is one of the scan roots (compared by key): emptied folders are
/// removed up to, and never including, a root.
pub fn is_scan_root(path: &str, roots: &Vec<String>, windows: bool) -> (r: bool)
    ensures
        r == exists|i: int| 0 <= i < roots@.len() && key_of(path@, windows) == key_of(#[trigger] roots@[i]@, windows),
{
    let mut i: usize = 0;
    while i < roots.len()
        invariant
            i <= roots.len(),
            forall|k: int| 0 <= k < i ==> key_of(path@, windows) != key_of(#[trigger] roots@[k]@, windows),
        decreases roots.len() - i,
    {
        if paths_equal(path, roots[i].as_str(), windows) {
            return true;
        }
        i = i + 1;
    }
    false
}

/// Two paths name one file: on Windows equal ignoring case, elsewhere equal
/// as written (separators compared as written either way).
pub open spec fn same_path(a: Seq<char>, b: Seq<char>, windows: bool) -> bool {
    if windows { lowercase(a) == lowercase(b) } else { a == b }
}

pub fn paths_same(a: &str, b: &str, windows: bool) -> (r: bool)
    ensures
        r == same_path(a@, b@, windows),
{
    if !windows {
        return str_eq(a, b);
    }
    let la = str_to_lowercase(a);
    let lb = str_to_lowercase(b);
    la == lb
}

// --------------------------------------------------------------- components

/// `s` cut at every separator; the pieces may be empty.
pub open spec fn split_parts(s: Seq<char>) -> Seq<Seq<char>>
    decreases s.len(),
{
    if s.len() == 0 {
        seq![Seq::<char>::empty()]
    } else {
        let init = split_parts(s.drop_last());
        if is_sep(s.last()) {
            init.push(Seq::<char>::empty())
        } else {
            init.update(init.len() - 1, init.last().push(s.last()))
        }
    }
}

pub proof fn lemma_split_parts_nonempty(s: Seq<char>)
    ensures
        split_parts(s).len() >= 1,
    decreases s.len(),
{
    if s.len() > 0 {
        lemma_split_parts_nonempty(s.drop_last());
    }
}

/// A piece that names something: neither empty nor `.`.
pub open spec fn is_component(c: Seq<char>) -> bool {
    c.len() > 0 && c != seq!['.']
}

/// A component other than `..`.
pub open spec fn is_normal(c: Seq<char>) -> bool {
    c != seq!['.', '.']
}

pub open spec fn keep_components(parts: Seq<Seq<char>>) -> Seq<Seq<char>>
    decreases parts.len(),
{
    if parts.len() == 0 {
        parts
    } else if is_component(parts.last()) {
        keep_components(parts.drop_last()).push(parts.last())
    } else {
        keep_components(parts.drop_last())
    }
}

pub open spec fn keep_normal(parts: Seq<Seq<char>>) -> Seq<Seq<char>>
    decreases parts.len(),
{
    if parts.len() == 0 {
        parts
    } else if is_normal(parts.last()) {
        keep_normal(parts.drop_last()).push(parts.last())
    } else {
        keep_normal(parts.drop_last())
    }
}

/// The components of a path: the pieces between separators, without empty and `.` pieces.
pub open spec fn components(s: Seq<char>) -> Seq<Seq<char>> {
    keep_components(split_parts(s))
}

fn is_dot(c: &Vec<char>) -> (r: bool)
    ensures
        r == (c@ == seq!['.']),
{
    if c.len() == 1 && c[0] == '.' {
        assert(c@ =~= seq!['.']);
        true
    } else {
        false
    }
}

fn is_dot_dot(c: &Vec<char>) -> (r: bool)
    ensures
        r == (c@ == seq!['.', '.']),
{
    if c.len() == 2 && c[0] == '.' && c[1] == '.' {
        assert(c@ =~= seq!['.', '.']);
        true
    } else {
        false
    }
}

/// The components of a path, in order.
pub fn path_components(v: &Vec<char>) -> (r: Vec<Vec<char>>)
    ensures
        vviews(r@) == components(v@),
{
    let mut parts: Vec<Vec<char>> = Vec::new();
    let mut cur: Vec<char> = Vec::new();
    let mut i: usize = 0;
    assert(v@.take(0) =~= Seq::<char>::empty());
    assert(vviews(parts@).push(cur@) =~= split_parts(v@.take(0)));
    while i < v.len()
        invariant
            i <= v.len(),
            vviews(parts@).push(cur@) == split_parts(v@.take(i as int)),
        decreases v.len() - i,
    {
        let c = v[i];
        assert(v@.take(i + 1).drop_last() =~= v@.take(i as int));
        let ghost before = vviews(parts@);
        if c == '\\' || c == '/' {
            let done = cur;
            parts.push(done);
            cur = Vec::new();
            assert(vviews(parts@) =~= before.push(done@));
            assert(vviews(parts@).push(cur@) =~= split_parts(v@.take(i as int)).push(
                Seq::<char>::empty(),
            ));
        } else {
            let ghost cur0 = cur@;
            cur.push(c);
            assert(vviews(parts@).push(cur@) =~= before.push(cur0).update(
                before.len() as int,
                cur0.push(c),
            ));
        }
        i = i + 1;
    }
    assert(v@.take(v.len() as int) =~= v@);
    parts.push(cur);
    let ghost all = vviews(parts@);
    assert(all == split_parts(v@));
    let mut r: Vec<Vec<char>> = Vec::new();
    let mut k: usize = 0;
    while k < parts.len()
        invariant
            k <= parts.len(),
            all == vviews(parts@),
            vviews(r@) == keep_components(all.take(k as int)),
        decreases parts.len() - k,
    {
        assert(all.take(k + 1).drop_last() =~= all.take(k as int));
        let keep = parts[k].len() > 0 && !is_dot(&parts[k]);
        if keep {
            let c = copy_chars(&parts[k]);
            let ghost r0 = vviews(r@);
            r.push(c);
            assert(vviews(r@) =~= r0.push(all[k as int]));
        }
        k = k + 1;
    }
    assert(all.take(parts.len() as int) =~= all);
    r
}

/// The components that are not `..`.
pub fn normal_components(parts: &Vec<Vec<char>>) -> (r: Vec<Vec<char>>)
    ensures
        vviews(r@) == keep_normal(vviews(parts@)),
{
    let ghost all = vviews(parts@);
    let mut r: Vec<Vec<char>> = Vec::new();
    let mut k: usize = 0;
    while k < parts.len()
        invariant
            k <= parts.len(),
            all == vviews(parts@),
            vviews(r@) == keep_normal(all.take(k as int)),
        decreases parts.len() - k,
    {
        assert(all.take(k + 1).drop_last() =~= all.take(k as int));
        if !is_dot_dot(&parts[k]) {
            let c = copy_chars(&parts[k]);
            let ghost r0 = vviews(r@);
            r.push(c);
            assert(vviews(r@) =~= r0.push(all[k as int]));
        }
        k = k + 1;
    }
    assert(all.take(parts.len() as int) =~= all);
    r
}

/// `rest` when the components of `root` lead the components of `path`.
pub open spec fn strip_components(path: Seq<Seq<char>>, root: Seq<Seq<char>>) -> Option<Seq<Seq<char>>> {
    if root.len() <= path.len() && path.take(root.len() as int) == root {
        Some(path.skip(root.len() as int))
    } else {
        None
    }
}

/// Stripping a root's components from a path gives exactly the components
/// that follow the root: the root and the rest make up the path again.
pub proof fn lemma_strip_components(path: Seq<Seq<char>>, root: Seq<Seq<char>>, rest: Seq<Seq<char>>)
    ensures
        strip_components(path, root) == Some(rest) <==> root + rest == path,
        strip_components(path, root) is None <==> !(exists|x: Seq<Seq<char>>| root + x == path),
{
    if root + rest == path {
        assert(path.take(root.len() as int) =~= root);
        assert(path.skip(root.len() as int) =~= rest);
    }
    if strip_components(path, root) == Some(rest) {
        assert(root + rest =~= path);
    }
    if exists|x: Seq<Seq<char>>| root + x == path {
        let x = choose|x: Seq<Seq<char>>| root + x == path;
        assert(path.take(root.len() as int) =~= root);
    }
    if strip_components(path, root) is Some {
        assert(root + path.skip(root.len() as int) =~= path);
    }
}

pub fn strip_prefix_components(path: &Vec<Vec<char>>, root: &Vec<Vec<char>>) -> (r: Option<Vec<Vec<char>>>)
    ensures
        match r {
            Some(rest) => strip_components(vviews(path@), vviews(root@)) == Some(vviews(rest@)),
            None => strip_components(vviews(path@), vviews(root@)) is None,
        },
{
    if root.len() > path.len() {
        return None;
    }
    let mut i: usize = 0;
    while i < root.len()
        invariant
            root.len() <= path.len(),
            i <= root.len(),
            forall|k: int| 0 <= k < i ==> vviews(path@)[k] == vviews(root@)[k],
        decreases root.len() - i,
    {
        if !chars_eq(&path[i], &root[i]) {
            assert(vviews(path@).take(root.len() as int)[i as int] != vviews(root@)[i as int]);
            return None;
        }
        i = i + 1;
    }
    assert(vviews(path@).take(root.len() as int) =~= vviews(root@));
    let mut rest: Vec<Vec<char>> = Vec::new();
    let mut k: usize = root.len();
    while k < path.len()
        invariant
            root.len() <= k <= path.len(),
            vviews(rest@) =~= vviews(path@).subrange(root.len() as int, k as int),
        decreases path.len() - k,
    {
        let c = copy_chars(&path[k]);
        let ghost r0 = rest@;
        rest.push(c);
        assert(vviews(rest@) =~= vviews(r0).push(path@[k as int]@));
        k = k + 1;
    }
    Some(rest)
}

// ---------------------------------------------------------------- roots

/// `s` starts with `r` (trailing `\` removed) followed by one `\`.
pub open spec fn key_under(s: Seq<char>, r: Seq<char>) -> bool {
    starts_with_seq(s, trim_end_by(r, trim_pred(seq!['\\'], false)).push('\\'))
}

/// `source` is `root` itself or lies below it (keys compared).
pub open spec fn path_within(source: Seq<char>, root: Seq<char>) -> bool {
    windows_key(source) == windows_key(root) || key_under(windows_key(source), windows_key(root))
}

/// `source` lies strictly below `root` (keys compared).
pub open spec fn path_below(source: Seq<char>, root: Seq<char>) -> bool {
    key_under(windows_key(source), windows_key(root))
}

fn key_chars(s: &str) -> (r: Vec<char>)
    ensures
        r@ == windows_key(s@),
{
    let v = chars_of(s);
    let b = backslash_chars(&v);
    lower_chars(&b)
}

fn under_key(s: &Vec<char>, r: &Vec<char>) -> (b: bool)
    ensures
        b == key_under(s@, r@),
{
    let mut set: Vec<char> = Vec::new();
    set.push('\\');
    assert(set@ =~= seq!['\\']);
    let mut t = trim_by(r, &set, false, false, true);
    t.push('\\');
    matches_at(s, &t, 0)
}

/// Whether `source` is `root` or lies below it.
pub fn path_is_within(source: &str, root: &str) -> (r: bool)
    ensures
        r == path_within(source@, root@),
{
    let s = key_chars(source);
    let k = key_chars(root);
    chars_eq(&s, &k) || under_key(&s, &k)
}

/// Whether `source` lies strictly below `root`.
pub fn path_is_below(source: &str, root: &str) -> (r: bool)
    ensures
        r == path_below(source@, root@),
{
    let s = key_chars(source);
    let k = key_chars(root);
    under_key(&s, &k)
}

/// Containment of paths: a path lies within itself and within every root it
/// lies below; one whose key is a root's key, a `\\` and more lies below that
/// root; one whose key is not a root's key and does not start with it lies
/// neither below nor within it (the root's key not ending with `\\`).
pub proof fn lemma_containment(source: Seq<char>, root: Seq<char>, rest: Seq<char>)
    ensures
        path_within(source, source),
        path_below(source, root) ==> path_within(source, root),
        (windows_key(root).len() == 0 || windows_key(root).last() != '\\')
            && windows_key(source) == windows_key(root) + seq!['\\'] + rest ==> path_below(source, root),
        (windows_key(root).len() == 0 || windows_key(root).last() != '\\')
            && windows_key(source) != windows_key(root) && !starts_with_seq(windows_key(source), windows_key(root))
            ==> !path_within(source, root) && !path_below(source, root),
{
    let k = windows_key(root);
    let sk = windows_key(source);
    let p = trim_pred(seq!['\\'], false);
    crate::metadata::lemma_trim_end_part(k, p);
    let t = trim_end_by(k, p);
    if k.len() == 0 || k.last() != '\\' {
        assert(t == k);
        if sk == k + seq!['\\'] + rest {
            assert(sk.subrange(0, k.len() + 1 as int) =~= k.push('\\'));
        }
    }
    if key_under(sk, k) {
        let q = t.push('\\');
        assert(sk.subrange(0, q.len() as int) == q);
        assert(sk.subrange(0, t.len() as int) =~= q.subrange(0, t.len() as int));
        assert(k.subrange(0, t.len() as int) == t);
        if k.len() == 0 || k.last() != '\\' {
            assert(sk.subrange(0, k.len() as int) =~= q.subrange(0, k.len() as int));
            assert(q.subrange(0, k.len() as int) =~= k);
            assert(starts_with_seq(sk, k));
        }
    }
}

/// The number of components of a path.
pub open spec fn depth(s: Seq<char>) -> int {
    components(s).len() as int
}

/// Of the roots that hold `source` (by `held`), the one with the most components;
/// the last such one on ties.
pub open spec fn deepest_root(source: Seq<char>, roots: Seq<Seq<char>>, below_only: bool) -> Option<int>
    decreases roots.len(),
{
    if roots.len() == 0 {
        None
    } else {
        let prev = deepest_root(source, roots.drop_last(), below_only);
        let i = roots.len() - 1;
        let held = if below_only { path_below(source, roots[i]) } else { path_within(source, roots[i]) };
        if held {
            match prev {
                None => Some(i),
                Some(p) => if depth(roots[i]) >= depth(roots[p]) { Some(i) } else { Some(p) },
            }
        } else {
            prev
        }
    }
}

pub proof fn lemma_deepest_root_in_range(source: Seq<char>, roots: Seq<Seq<char>>, below_only: bool)
    ensures
        deepest_root(source, roots, below_only) matches Some(i) ==> 0 <= i < roots.len(),
    decreases roots.len(),
{
    if roots.len() > 0 {
        lemma_deepest_root_in_range(source, roots.drop_last(), below_only);
    }
}

/// The index of the deepest root that holds `source`.
pub fn deepest_root_index(source: &str, roots: &Vec<String>, below_only: bool) -> (r: Option<usize>)
    ensures
        r == (match deepest_root(source@, sviews(roots@), below_only) {
            Some(i) => Some(i as usize),
            None => None::<usize>,
        }),
        r matches Some(i) ==> i < roots.len(),
{
    let ghost all = sviews(roots@);
    let mut best: Option<usize> = None;
    let mut best_depth: usize = 0;
    let mut i: usize = 0;
    while i < roots.len()
        invariant
            i <= roots.len(),
            all == sviews(roots@),
            deepest_root(source@, all.take(i as int), below_only) == (match best {
                Some(b) => Some(b as int),
                None => None::<int>,
            }),
            best matches Some(b) ==> b < i && best_depth == depth(all[b as int]),
        decreases roots.len() - i,
    {
        assert(all.take(i + 1).drop_last() =~= all.take(i as int));
        assert(all.take(i + 1)[i as int] == roots@[i as int]@);
        let held = if below_only {
            path_is_below(source, roots[i].as_str())
        } else {
            path_is_within(source, roots[i].as_str())
        };
        if held {
            let rc = chars_of(roots[i].as_str());
            let comps = path_components(&rc);
            let d = comps.len();
            match best {
                None => {
                    best = Some(i);
                    best_depth = d;
                },
                Some(b) => {
                    assert(all.take(i + 1)[b as int] == all[b as int]);
                    if d >= best_depth {
                        best = Some(i);
                        best_depth = d;
                    }
                },
            }
        }
        i = i + 1;
    }
    assert(all.take(roots.len() as int) =~= all);
    best
}

// ------------------------------------------------------------ name parts

pub open spec fn is_drive(s: Seq<char>) -> bool {
    s.len() == 2 && s[1] == ':' && (('a' <= s[0] && s[0] <= 'z') || ('A' <= s[0] && s[0] <= 'Z'))
}

/// The index just past the last separator of `s`, or 0.
pub open spec fn after_last_sep(s: Seq<char>) -> int
    decreases s.len(),
{
    if s.len() == 0 {
        0
    } else if is_sep(s.last()) {
        s.len() as int
    } else {
        after_last_sep(s.drop_last())
    }
}

pub proof fn lemma_after_last_sep(s: Seq<char>)
    ensures
        0 <= after_last_sep(s) <= s.len(),
        after_last_sep(s) > 0 ==> is_sep(s[after_last_sep(s) - 1]),
        forall|k: int| after_last_sep(s) <= k < s.len() ==> !is_sep(#[trigger] s[k]),
    decreases s.len(),
{
    if s.len() > 0 && !is_sep(s.last()) {
        lemma_after_last_sep(s.drop_last());
        assert forall|k: int| after_last_sep(s) <= k < s.len() implies !is_sep(#[trigger] s[k]) by {
            if k < s.len() - 1 {
                assert(s[k] == s.drop_last()[k]);
            }
        }
    }
}

/// `s` without trailing separators.
pub open spec fn strip_trailing_seps(s: Seq<char>) -> Seq<char> {
    trim_end_by(s, trim_pred(seq!['\\', '/'], false))
}

/// The last component of a path: `Path::file_name`. A trailing `.` component
/// is passed over, as `Path::components` does; none for a path that ends in
/// `..`, for `.` alone, for a root or a bare drive.
pub open spec fn file_name_of(s: Seq<char>) -> Option<Seq<char>>
    decreases s.len(),
{
    let t = strip_trailing_seps(s);
    let k = after_last_sep(t);
    let name = t.skip(k);
    if name == seq!['.'] && 0 < k < t.len() && t.len() <= s.len() {
        file_name_of(t.take(k))
    } else if name.len() == 0 || name == seq!['.'] || name == seq!['.', '.'] || (k == 0 && is_drive(name)) {
        None
    } else {
        Some(name)
    }
}

proof fn lemma_trim_end_len(s: Seq<char>, p: spec_fn(char) -> bool)
    ensures
        crate::text::trim_end_by(s, p).len() <= s.len(),
    decreases s.len(),
{
    if s.len() > 0 && p(s.last()) {
        lemma_trim_end_len(s.drop_last(), p);
    }
}

/// The index of the last `.` of `s`, if any.
pub open spec fn last_dot(s: Seq<char>) -> Option<int>
    decreases s.len(),
{
    if s.len() == 0 {
        None
    } else if s.last() == '.' {
        Some(s.len() - 1)
    } else {
        last_dot(s.drop_last())
    }
}

/// `Path::file_stem` of a file name.
pub open spec fn stem_of_name(name: Seq<char>) -> Seq<char> {
    if name == seq!['.', '.'] {
        name
    } else {
        match last_dot(name) {
            Some(i) => if i == 0 { name } else { name.take(i) },
            None => name,
        }
    }
}

/// `Path::extension` of a file name.
pub open spec fn ext_of_name(name: Seq<char>) -> Option<Seq<char>> {
    if name == seq!['.', '.'] {
        None
    } else {
        match last_dot(name) {
            Some(i) => if i == 0 { None } else { Some(name.skip(i + 1)) },
            None => None,
        }
    }
}

pub open spec fn file_stem_of(s: Seq<char>) -> Option<Seq<char>> {
    match file_name_of(s) {
        Some(n) => Some(stem_of_name(n)),
        None => None,
    }
}

pub open spec fn extension_of(s: Seq<char>) -> Option<Seq<char>> {
    match file_name_of(s) {
        Some(n) => ext_of_name(n),
        None => None,
    }
}

fn sep_set() -> (r: Vec<char>)
    ensures
        r@ == seq!['\\', '/'],
{
    let mut r: Vec<char> = Vec::new();
    r.push('\\');
    r.push('/');
    assert(r@ =~= seq!['\\', '/']);
    r
}

fn index_after_last_sep(s: &Vec<char>) -> (r: usize)
    ensures
        r == after_last_sep(s@),
{
    let mut i: usize = s.len();
    assert(s@.take(s.len() as int) =~= s@);
    while i > 0 && !(s[i - 1] == '\\' || s[i - 1] == '/')
        invariant
            i <= s.len(),
            after_last_sep(s@) == after_last_sep(s@.take(i as int)),
        decreases i,
    {
        assert(s@.take(i as int).drop_last() =~= s@.take(i - 1));
        i = i - 1;
    }
    if i > 0 {
        assert(s@.take(i as int).last() == s@[i - 1]);
    }
    assert(s@.take(s.len() as int) =~= s@);
    i
}

fn drive_check(s: &Vec<char>) -> (r: bool)
    ensures
        r == is_drive(s@),
{
    s.len() == 2 && s[1] == ':' && (('a' <= s[0] && s[0] <= 'z') || ('A' <= s[0] && s[0] <= 'Z'))
}

fn slice_chars(s: &Vec<char>, from: usize, to: usize) -> (r: Vec<char>)
    requires
        from <= to <= s.len(),
    ensures
        r@ == s@.subrange(from as int, to as int),
{
    let mut r: Vec<char> = Vec::new();
    let mut k: usize = from;
    while k < to
        invariant
            from <= k <= to <= s.len(),
            r@ =~= s@.subrange(from as int, k as int),
        decreases to - k,
    {
        r.push(s[k]);
        k = k + 1;
    }
    r
}

/// `Path::file_name` over characters.
pub fn file_name_chars(s: &Vec<char>) -> (r: Option<Vec<char>>)
    ensures
        match r {
            Some(n) => file_name_of(s@) == Some(n@),
            None => file_name_of(s@) is None,
        },
{
    let seps = sep_set();
    let mut cur = copy_chars(s);
    loop
        invariant
            file_name_of(cur@) == file_name_of(s@),
            seps@ == seq!['\\', '/'],
        decreases cur.len(),
    {
        let t = trim_by(&cur, &seps, false, false, true);
        let k = index_after_last_sep(&t);
        proof {
            lemma_after_last_sep(t@);
            lemma_trim_end_len(cur@, crate::text::trim_pred(seq!['\\', '/'], false));
        }
        let name = slice_chars(&t, k, t.len());
        assert(name@ =~= t@.skip(k as int));
        assert(t@ == strip_trailing_seps(cur@));
        assert(t@.len() <= cur@.len());
        if is_dot(&name) && k > 0 {
            let rest = slice_chars(&t, 0, k);
            assert(rest@ =~= t@.take(k as int));
            assert(name@.len() == 1);
            assert(t@.skip(k as int).len() == t@.len() - k);
            assert(k < t.len());
            assert(file_name_of(cur@) == file_name_of(t@.take(k as int)));
            cur = rest;
            continue;
        }
        if name.len() == 0 || is_dot(&name) || is_dot_dot(&name) || (k == 0 && drive_check(&name)) {
            return None;
        }
        return Some(name);
    }
}

fn index_of_last_dot(s: &Vec<char>) -> (r: Option<usize>)
    ensures
        r matches Some(i) ==> last_dot(s@) == Some(i as int) && i < s.len(),
        r is None ==> last_dot(s@) is None,
{
    let mut i: usize = s.len();
    assert(s@.take(s.len() as int) =~= s@);
    while i > 0 && s[i - 1] != '.'
        invariant
            i <= s.len(),
            last_dot(s@) == last_dot(s@.take(i as int)),
        decreases i,
    {
        assert(s@.take(i as int).drop_last() =~= s@.take(i - 1));
        i = i - 1;
    }
    assert(s@.take(s.len() as int) =~= s@);
    if i > 0 {
        assert(s@.take(i as int).last() == s@[i - 1]);
        Some(i - 1)
    } else {
        None
    }
}

/// The stem and extension of a file name (`Path::file_stem`, `Path::extension`).
pub fn split_name(name: &Vec<char>) -> (r: (Vec<char>, Option<Vec<char>>))
    ensures
        r.0@ == stem_of_name(name@),
        match r.1 {
            Some(e) => ext_of_name(name@) == Some(e@),
            None => ext_of_name(name@) is None,
        },
{
    if is_dot_dot(name) {
        return (copy_chars(name), None);
    }
    match index_of_last_dot(name) {
        Some(i) => {
            if i == 0 {
                (copy_chars(name), None)
            } else {
                let stem = slice_chars(name, 0, i);
                let ext = slice_chars(name, i + 1, name.len());
                assert(stem@ =~= name@.take(i as int));
                assert(ext@ =~= name@.skip(i + 1));
                (stem, Some(ext))
            }
        },
        None => (copy_chars(name), None),
    }
}

/// `Path::file_stem`, empty when there is none.
pub open spec fn stem_or_empty(s: Seq<char>) -> Seq<char> {
    match file_stem_of(s) {
        Some(n) => n,
        None => Seq::empty(),
    }
}

/// `Path::extension`, empty when there is none.
pub open spec fn ext_or_empty(s: Seq<char>) -> Seq<char> {
    match extension_of(s) {
        Some(n) => n,
        None => Seq::empty(),
    }
}

/// `Path::file_name`, empty when there is none.
pub open spec fn name_or_empty(s: Seq<char>) -> Seq<char> {
    match file_name_of(s) {
        Some(n) => n,
        None => Seq::empty(),
    }
}

/// The file name, stem and extension of a path, each empty when absent.
pub fn name_parts(s: &Vec<char>) -> (r: (Vec<char>, Vec<char>, Vec<char>))
    ensures
        r.0@ == name_or_empty(s@),
        r.1@ == stem_or_empty(s@),
        r.2@ == ext_or_empty(s@),
{
    match file_name_chars(s) {
        Some(n) => {
            let (stem, ext) = split_name(&n);
            let e = match ext {
                Some(e) => e,
                None => Vec::new(),
            };
            assert(e@ == ext_or_empty(s@)) by {
                if ext_of_name(n@) is None {
                    assert(e@ =~= Seq::<char>::empty());
                }
            }
            (n, stem, e)
        },
        None => {
            let a: Vec<char> = Vec::new();
            let b: Vec<char> = Vec::new();
            let c: Vec<char> = Vec::new();
            (a, b, c)
        },
    }
}

// ------------------------------------------------------------ parent, join

/// `Path::parent`: the path without its last component, keeping a root separator
/// or a drive's separator; `None` for a path with no component.
pub open spec fn parent_of(s: Seq<char>) -> Option<Seq<char>> {
    let t = strip_trailing_seps(s);
    let k = after_last_sep(t);
    let name = t.skip(k);
    if t.len() == 0 || (k == 0 && is_drive(name)) {
        None
    } else {
        let head = t.take(k);
        let h = strip_trailing_seps(head);
        if h.len() == 0 && head.len() > 0 {
            Some(head.take(1))
        } else if is_drive(h) && head.len() > 2 {
            Some(head.take(3))
        } else {
            Some(h)
        }
    }
}

pub fn parent_chars(s: &Vec<char>) -> (r: Option<Vec<char>>)
    ensures
        match r {
            Some(p) => parent_of(s@) == Some(p@),
            None => parent_of(s@) is None,
        },
{
    let seps = sep_set();
    let t = trim_by(s, &seps, false, false, true);
    let k = index_after_last_sep(&t);
    proof { lemma_after_last_sep(t@); }
    let name = slice_chars(&t, k, t.len());
    assert(name@ =~= t@.skip(k as int));
    if t.len() == 0 || (k == 0 && drive_check(&name)) {
        return None;
    }
    let head = slice_chars(&t, 0, k);
    assert(head@ =~= t@.take(k as int));
    let h = trim_by(&head, &seps, false, false, true);
    if h.len() == 0 && head.len() > 0 {
        let r = slice_chars(&head, 0, 1);
        assert(r@ =~= head@.take(1));
        Some(r)
    } else if drive_check(&h) && head.len() > 2 {
        let r = slice_chars(&head, 0, 3);
        assert(r@ =~= head@.take(3));
        Some(r)
    } else {
        Some(h)
    }
}

/// `PathBuf::join` with a relative name, Windows style.
pub open spec fn join_path(base: Seq<char>, name: Seq<char>) -> Seq<char> {
    if base.len() == 0 || is_sep(base.last()) || is_drive(base) {
        base + name
    } else {
        base.push('\\') + name
    }
}

/// `PathBuf::join` with a relative name on the host: Windows style on Windows,
/// else with `/` as the one separator.
pub open spec fn join_path_on(base: Seq<char>, name: Seq<char>, windows: bool) -> Seq<char> {
    if windows {
        join_path(base, name)
    } else if base.len() == 0 || base.last() == '/' {
        base + name
    } else {
        base.push('/') + name
    }
}

pub fn join_chars_on(base: &Vec<char>, name: &Vec<char>, windows: bool) -> (r: Vec<char>)
    ensures
        r@ == join_path_on(base@, name@, windows),
{
    if windows {
        return join_chars(base, name);
    }
    let mut r = copy_chars(base);
    if base.len() > 0 && base[base.len() - 1] != '/' {
        r.push('/');
    }
    let ghost r0 = r@;
    let mut i: usize = 0;
    while i < name.len()
        invariant
            i <= name.len(),
            r@ == r0 + name@.take(i as int),
        decreases name.len() - i,
    {
        r.push(name[i]);
        assert(r@ =~= r0 + name@.take(i + 1));
        i = i + 1;
    }
    assert(name@.take(name.len() as int) =~= name@);
    r
}

pub fn join_chars(base: &Vec<char>, name: &Vec<char>) -> (r: Vec<char>)
    ensures
        r@ == join_path(base@, name@),
{
    let mut r = copy_chars(base);
    if !(base.len() == 0 || base[base.len() - 1] == '\\' || base[base.len() - 1] == '/' || drive_check(base)) {
        r.push('\\');
    }
    let ghost r0 = r@;
    let mut i: usize = 0;
    while i < name.len()
        invariant
            i <= name.len(),
            r@ =~= r0 + name@.take(i as int),
        decreases name.len() - i,
    {
        r.push(name[i]);
        i = i + 1;
    }
    assert(name@.take(name.len() as int) =~= name@);
    r
}

// ------------------------------------------------------ roots of scanned files

/// The scan root that holds `source` (the deepest, the last on ties), else the
/// parent of `source`, else `.`.
pub open spec fn root_dir_of(source: Seq<char>, roots: Seq<Seq<char>>) -> Seq<char> {
    match deepest_root(source, roots, false) {
        Some(i) => roots[i],
        None => match parent_of(source) {
            Some(p) => p,
            None => seq!['.'],
        },
    }
}

/// The scan root a file belongs to.
pub fn find_root_dir(source: &str, source_paths: &Vec<String>) -> (r: String)
    ensures
        r@ == root_dir_of(source@, sviews(source_paths@)),
{
    proof { lemma_deepest_root_in_range(source@, sviews(source_paths@), false); }
    match deepest_root_index(source, source_paths, false) {
        Some(i) => {
            let v = chars_of(source_paths[i].as_str());
            string_of(&v)
        },
        None => {
            let sv = chars_of(source);
            match parent_chars(&sv) {
                Some(p) => string_of(&p),
                None => {
                    let mut d: Vec<char> = Vec::new();
                    d.push('.');
                    assert(d@ =~= seq!['.']);
                    string_of(&d)
                },
            }
        },
    }
}

/// The normal components of `source` below `root`, when `root` leads it.
pub open spec fn relative_parts(source: Seq<char>, root: Seq<char>) -> Option<Seq<Seq<char>>> {
    match strip_components(components(source), components(root)) {
        Some(rest) => Some(keep_normal(rest)),
        None => None,
    }
}

/// The first folder under `root` on the way to `source`, when `source` lies in
/// such a folder (not directly in `root`).
pub open spec fn first_folder_under(source: Seq<char>, root: Seq<char>) -> Option<Seq<char>> {
    match relative_parts(source, root) {
        Some(parts) => if parts.len() >= 2 { Some(trim(parts[0])) } else { None },
        None => None,
    }
}

fn first_folder(source: &str, root: &str) -> (r: Option<String>)
    ensures
        match r {
            Some(n) => first_folder_under(source@, root@) == Some(n@),
            None => first_folder_under(source@, root@) is None,
        },
{
    let sv = chars_of(source);
    let rv = chars_of(root);
    let sc = path_components(&sv);
    let rc = path_components(&rv);
    match strip_prefix_components(&sc, &rc) {
        Some(rest) => {
            let parts = normal_components(&rest);
            if parts.len() >= 2 {
                let t = trim_ws(&parts[0]);
                Some(string_of(&t))
            } else {
                None
            }
        },
        None => None,
    }
}

/// The folder directly under the file's scan root that holds it.
pub open spec fn direct_child_of(source: Seq<char>, roots: Seq<Seq<char>>) -> Option<Seq<char>> {
    first_folder_under(source, root_dir_of(source, roots))
}

/// The folder directly under the file's scan root that holds it, if the file is not
/// directly in the root.
pub fn direct_child_folder_name(source: &str, source_paths: &Vec<String>) -> (r: Option<String>)
    ensures
        match r {
            Some(n) => direct_child_of(source@, sviews(source_paths@)) == Some(n@),
            None => direct_child_of(source@, sviews(source_paths@)) is None,
        },
{
    let root = find_root_dir(source, source_paths);
    first_folder(source, root.as_str())
}

/// Like `direct_child_of`, for the deepest root strictly above the file; only a
/// non-empty name counts.
pub open spec fn author_folder_of(source: Seq<char>, roots: Seq<Seq<char>>) -> Option<Seq<char>> {
    match deepest_root(source, roots, true) {
        Some(i) => match first_folder_under(source, roots[i]) {
            Some(n) => if n.len() > 0 { Some(n) } else { None },
            None => None,
        },
        None => None,
    }
}

pub fn author_folder_name(source: &str, roots: &Vec<String>) -> (r: Option<String>)
    ensures
        match r {
            Some(n) => author_folder_of(source@, sviews(roots@)) == Some(n@),
            None => author_folder_of(source@, sviews(roots@)) is None,
        },
{
    proof { lemma_deepest_root_in_range(source@, sviews(roots@), true); }
    match deepest_root_index(source, roots, true) {
        Some(i) => {
            assert(sviews(roots@)[i as int] == roots@[i as int]@);
            match first_folder(source, roots[i].as_str()) {
                Some(n) => {
                    let v = chars_of(n.as_str());
                    if v.len() > 0 { Some(n) } else { None }
                },
                None => None,
            }
        },
        None => None,
    }
}

/// The trimmed name of the deepest root strictly above the file, if non-empty.
pub open spec fn selected_root_name_of(source: Seq<char>, roots: Seq<Seq<char>>) -> Option<Seq<char>> {
    match deepest_root(source, roots, true) {
        Some(i) => match file_name_of(roots[i]) {
            Some(n) => if trim(n).len() > 0 { Some(trim(n)) } else { None },
            None => None,
        },
        None => None,
    }
}

pub fn selected_root_folder_name(source: &str, roots: &Vec<String>) -> (r: Option<String>)
    ensures
        match r {
            Some(n) => selected_root_name_of(source@, sviews(roots@)) == Some(n@),
            None => selected_root_name_of(source@, sviews(roots@)) is None,
        },
{
    proof { lemma_deepest_root_in_range(source@, sviews(roots@), true); }
    match deepest_root_index(source, roots, true) {
        Some(i) => {
            assert(sviews(roots@)[i as int] == roots@[i as int]@);
            let rv = chars_of(roots[i].as_str());
            match file_name_chars(&rv) {
                Some(n) => {
                    let t = trim_ws(&n);
                    if t.len() > 0 { Some(string_of(&t)) } else { None }
                },
                None => None,
            }
        },
        None => None,
    }
}

} // verus!
