//! Duplicate files: size candidates, duplicate groups from content hashes, and
//! the checks a deletion request must pass against the scan it refers to.
use vstd::prelude::*;
use crate::models::{DuplicateDeleteRequest, DuplicateFile, DuplicateGroup, DuplicateResult, DuplicateScanError, Operation, OperationStatus};
use crate::execution::{delete_operation, hash_verdict, size_changed_message, size_verdict};
use crate::paths::{key_of, path_key};
use crate::media_scan::capped;
use crate::ids::new_uuid;
use crate::order::{lemma_lex_asymmetric, lemma_lex_transitive, lemma_stable_sorted_elems, lemma_stable_sorted_map_multiset, lemma_stable_sorted_len, lemma_stable_sorted_props, sorted_by, strict_order, compare_chars, lex_lt, sort_by, stable_sorted};
use crate::text::{chars_of, concat_str, contains_str, owned, str_eq, sviews};

verus! {

/// A scan error: the path, an error code and a message.
pub fn scan_error(path: &str, error: &str, message: &str) -> (r: DuplicateScanError)
    ensures
        r.path@ == path@,
        r.error@ == error@,
        r.message@ == message@,
{
    DuplicateScanError { path: owned(path), error: owned(error), message: owned(message) }
}

// ------------------------------------------------------- size candidates

/// The sizes of the files, each once, in the order first seen.
pub open spec fn distinct_sizes(files: Seq<(Seq<char>, u64)>) -> Seq<u64>
    decreases files.len(),
{
    if files.len() == 0 {
        Seq::empty()
    } else {
        let prev = distinct_sizes(files.drop_last());
        if prev.contains(files.last().1) { prev } else { prev.push(files.last().1) }
    }
}

/// The paths of the files of size `s`, in order.
pub open spec fn paths_of_size(files: Seq<(Seq<char>, u64)>, s: u64) -> Seq<Seq<char>>
    decreases files.len(),
{
    if files.len() == 0 {
        Seq::empty()
    } else {
        let prev = paths_of_size(files.drop_last(), s);
        if files.last().1 == s { prev.push(files.last().0) } else { prev }
    }
}

/// The sizes shared by at least two files, in the order first seen.
pub open spec fn candidate_sizes(files: Seq<(Seq<char>, u64)>) -> Seq<u64> {
    shared_sizes(distinct_sizes(files), files)
}

/// The sizes of `ds` that at least two files have, in order.
pub open spec fn shared_sizes(ds: Seq<u64>, files: Seq<(Seq<char>, u64)>) -> Seq<u64>
    decreases ds.len(),
{
    if ds.len() == 0 {
        Seq::empty()
    } else {
        let prev = shared_sizes(ds.drop_last(), files);
        if paths_of_size(files, ds.last()).len() >= 2 { prev.push(ds.last()) } else { prev }
    }
}

proof fn lemma_distinct_sizes(files: Seq<(Seq<char>, u64)>)
    ensures
        forall|i: int, j: int| 0 <= i < j < distinct_sizes(files).len() ==> #[trigger] distinct_sizes(files)[i] != #[trigger] distinct_sizes(files)[j],
        forall|sz: u64| #[trigger] distinct_sizes(files).contains(sz) <==> exists|k: int| 0 <= k < files.len() && files[k].1 == sz,
    decreases files.len(),
{
    if files.len() > 0 {
        let f0 = files.drop_last();
        lemma_distinct_sizes(f0);
        let p = distinct_sizes(f0);
        let d = distinct_sizes(files);
        let x = files.last().1;
        assert forall|k: int| 0 <= k < f0.len() implies #[trigger] f0[k] == files[k] by {}
        if !p.contains(x) {
            assert(d == p.push(x));
            assert forall|i: int, j: int| 0 <= i < j < d.len() implies #[trigger] d[i] != #[trigger] d[j] by {
                if j == p.len() {
                    assert(d[i] == p[i]);
                    assert(p.contains(p[i]));
                } else {
                    assert(d[i] == p[i] && d[j] == p[j]);
                }
            }
        }
        assert forall|sz: u64| #[trigger] d.contains(sz) <==> exists|k: int| 0 <= k < files.len() && files[k].1 == sz by {
            if d.contains(sz) {
                if p.contains(sz) {
                    let k = choose|k: int| 0 <= k < f0.len() && f0[k].1 == sz;
                    assert(files[k] == f0[k]);
                } else {
                    let i = choose|i: int| 0 <= i < d.len() && d[i] == sz;
                    assert(d == p.push(x));
                    if i < p.len() {
                        assert(d[i] == p[i]);
                    }
                    assert(files[files.len() - 1].1 == sz);
                }
            }
            if exists|k: int| 0 <= k < files.len() && files[k].1 == sz {
                let k = choose|k: int| 0 <= k < files.len() && files[k].1 == sz;
                if k < f0.len() {
                    assert(f0[k] == files[k]);
                    assert(p.contains(sz));
                    let i = choose|i: int| 0 <= i < p.len() && p[i] == sz;
                    if !p.contains(x) {
                        assert(d[i] == p[i]);
                    }
                } else {
                    if !p.contains(x) {
                        assert(d[p.len() as int] == x);
                    }
                }
            }
        }
    }
}

proof fn lemma_paths_of_size_origin(files: Seq<(Seq<char>, u64)>, sz: u64)
    ensures
        paths_of_size(files, sz).len() > 0 ==> exists|k: int| 0 <= k < files.len() && files[k].1 == sz,
    decreases files.len(),
{
    if files.len() > 0 {
        let f0 = files.drop_last();
        lemma_paths_of_size_origin(f0, sz);
        if paths_of_size(f0, sz).len() > 0 {
            let k = choose|k: int| 0 <= k < f0.len() && f0[k].1 == sz;
            assert(files[k] == f0[k]);
        } else if paths_of_size(files, sz).len() > 0 {
            assert(files[files.len() - 1].1 == sz);
        }
    }
}

proof fn lemma_shared_sizes(ds: Seq<u64>, files: Seq<(Seq<char>, u64)>)
    requires
        forall|i: int, j: int| 0 <= i < j < ds.len() ==> #[trigger] ds[i] != #[trigger] ds[j],
    ensures
        forall|i: int, j: int| 0 <= i < j < shared_sizes(ds, files).len() ==> #[trigger] shared_sizes(ds, files)[i] != #[trigger] shared_sizes(ds, files)[j],
        forall|sz: u64| #[trigger] shared_sizes(ds, files).contains(sz) <==> ds.contains(sz) && paths_of_size(files, sz).len() >= 2,
    decreases ds.len(),
{
    if ds.len() > 0 {
        let d0 = ds.drop_last();
        assert forall|i: int, j: int| 0 <= i < j < d0.len() implies #[trigger] d0[i] != #[trigger] d0[j] by {
            assert(d0[i] == ds[i] && d0[j] == ds[j]);
        }
        lemma_shared_sizes(d0, files);
        let p = shared_sizes(d0, files);
        let x = ds.last();
        let r = shared_sizes(ds, files);
        assert(ds[ds.len() - 1] == x);
        assert(!d0.contains(x)) by {
            if d0.contains(x) {
                let i = choose|i: int| 0 <= i < d0.len() && d0[i] == x;
                assert(ds[i] == d0[i]);
            }
        }
        if paths_of_size(files, x).len() >= 2 {
            assert(r == p.push(x));
            assert forall|i: int, j: int| 0 <= i < j < r.len() implies #[trigger] r[i] != #[trigger] r[j] by {
                if j == p.len() {
                    assert(r[i] == p[i]);
                    assert(p.contains(p[i]));
                } else {
                    assert(r[i] == p[i] && r[j] == p[j]);
                }
            }
        } else {
            assert(r == p);
        }
        assert forall|sz: u64| #[trigger] r.contains(sz) <==> ds.contains(sz) && paths_of_size(files, sz).len() >= 2 by {
            if r.contains(sz) {
                let i = choose|i: int| 0 <= i < r.len() && r[i] == sz;
                if i < p.len() {
                    assert(r[i] == p[i]);
                    assert(p.contains(sz));
                    let k = choose|k: int| 0 <= k < d0.len() && d0[k] == sz;
                    assert(ds[k] == d0[k]);
                } else {
                    assert(sz == x);
                }
            }
            if ds.contains(sz) && paths_of_size(files, sz).len() >= 2 {
                let k = choose|k: int| 0 <= k < ds.len() && ds[k] == sz;
                if k < d0.len() {
                    assert(d0[k] == ds[k]);
                    assert(p.contains(sz));
                    let i = choose|i: int| 0 <= i < p.len() && p[i] == sz;
                    if paths_of_size(files, x).len() >= 2 {
                        assert(r[i] == p[i]);
                    }
                } else {
                    assert(r[p.len() as int] == x);
                }
            }
        }
    }
}

/// The sizes a duplicate scan hashes are exactly the sizes that two or more
/// files share, each once.
pub proof fn lemma_size_candidates(files: Seq<(Seq<char>, u64)>)
    ensures
        forall|i: int, j: int| 0 <= i < j < candidate_sizes(files).len() ==> #[trigger] candidate_sizes(files)[i] != #[trigger] candidate_sizes(files)[j],
        forall|sz: u64| #[trigger] candidate_sizes(files).contains(sz) <==> paths_of_size(files, sz).len() >= 2,
{
    lemma_distinct_sizes(files);
    lemma_shared_sizes(distinct_sizes(files), files);
    assert forall|sz: u64| #[trigger] candidate_sizes(files).contains(sz) <==> paths_of_size(files, sz).len() >= 2 by {
        lemma_paths_of_size_origin(files, sz);
        assert(distinct_sizes(files).contains(sz) <==> exists|k: int| 0 <= k < files.len() && files[k].1 == sz);
    }
}

pub open spec fn file_views(v: Seq<(String, u64)>) -> Seq<(Seq<char>, u64)> {
    Seq::new(v.len(), |i: int| (v[i].0@, v[i].1))
}

fn paths_with_size(files: &Vec<(String, u64)>, s: u64) -> (r: Vec<String>)
    ensures
        sviews(r@) == paths_of_size(file_views(files@), s),
{
    let ghost f = file_views(files@);
    let mut r: Vec<String> = Vec::new();
    let mut i: usize = 0;
    while i < files.len()
        invariant
            i <= files.len(),
            f == file_views(files@),
            sviews(r@) == paths_of_size(f.take(i as int), s),
        decreases files.len() - i,
    {
        assert(f.take(i + 1).drop_last() =~= f.take(i as int));
        assert(f.take(i + 1).last() == (files@[i as int].0@, files@[i as int].1));
        if files[i].1 == s {
            let ghost r0 = r@;
            r.push(files[i].0.clone());
            assert(sviews(r@) =~= sviews(r0).push(files@[i as int].0@));
        }
        i = i + 1;
    }
    assert(f.take(files.len() as int) =~= f);
    r
}

fn contains_size(v: &Vec<u64>, s: u64) -> (r: bool)
    ensures
        r == v@.contains(s),
{
    let mut i: usize = 0;
    while i < v.len()
        invariant
            i <= v.len(),
            forall|k: int| 0 <= k < i ==> v@[k] != s,
        decreases v.len() - i,
    {
        if v[i] == s {
            assert(v@[i as int] == s);
            return true;
        }
        i = i + 1;
    }
    false
}

/// Files grouped by size, keeping the sizes that at least two files share:
/// only those can be duplicates. Empty files count like any other.
pub fn build_size_candidates(files: &Vec<(String, u64)>) -> (r: Vec<(u64, Vec<String>)>)
    ensures
        r@.len() == candidate_sizes(file_views(files@)).len(),
        forall|i: int| 0 <= i < r@.len() ==> #[trigger] r@[i].0 == candidate_sizes(file_views(files@))[i]
            && sviews(r@[i].1@) == paths_of_size(file_views(files@), r@[i].0),
{
    let ghost f = file_views(files@);
    let mut sizes: Vec<u64> = Vec::new();
    let mut i: usize = 0;
    while i < files.len()
        invariant
            i <= files.len(),
            f == file_views(files@),
            sizes@ == distinct_sizes(f.take(i as int)),
        decreases files.len() - i,
    {
        assert(f.take(i + 1).drop_last() =~= f.take(i as int));
        assert(f.take(i + 1).last() == (files@[i as int].0@, files@[i as int].1));
        if !contains_size(&sizes, files[i].1) {
            sizes.push(files[i].1);
        }
        i = i + 1;
    }
    assert(f.take(files.len() as int) =~= f);
    let ghost ds = sizes@;
    let mut r: Vec<(u64, Vec<String>)> = Vec::new();
    let mut j: usize = 0;
    while j < sizes.len()
        invariant
            j <= sizes.len(),
            f == file_views(files@),
            ds == sizes@,
            ds == distinct_sizes(f),
            r@.len() == shared_sizes(ds.take(j as int), f).len(),
            forall|k: int| 0 <= k < r@.len() ==> #[trigger] r@[k].0 == shared_sizes(ds.take(j as int), f)[k]
                && sviews(r@[k].1@) == paths_of_size(f, r@[k].0),
        decreases sizes.len() - j,
    {
        assert(ds.take(j + 1).drop_last() =~= ds.take(j as int));
        let ps = paths_with_size(files, sizes[j]);
        if ps.len() >= 2 {
            r.push((sizes[j], ps));
        }
        j = j + 1;
    }
    assert(ds.take(sizes.len() as int) =~= ds);
    r
}

// ------------------------------------------------------ grouping by hash

/// A hashed file as values: path, size, creation and modification times.
pub open spec fn entry_view(e: (String, u64, String, String)) -> (Seq<char>, u64, Seq<char>, Seq<char>) {
    (e.0@, e.1, e.2@, e.3@)
}

/// The hashes of the files, each once, in the order first seen.
pub open spec fn distinct_hashes(files: Seq<(String, (String, u64, String, String))>) -> Seq<Seq<char>>
    decreases files.len(),
{
    if files.len() == 0 {
        Seq::empty()
    } else {
        let prev = distinct_hashes(files.drop_last());
        if prev.contains(files.last().0@) { prev } else { prev.push(files.last().0@) }
    }
}

/// The files with hash `h`, in order.
pub open spec fn files_with_hash(files: Seq<(String, (String, u64, String, String))>, h: Seq<char>) -> Seq<(Seq<char>, u64, Seq<char>, Seq<char>)>
    decreases files.len(),
{
    if files.len() == 0 {
        Seq::empty()
    } else {
        let prev = files_with_hash(files.drop_last(), h);
        if files.last().0@ == h { prev.push(entry_view(files.last().1)) } else { prev }
    }
}

fn copy_entry(e: &(String, u64, String, String)) -> (r: (String, u64, String, String))
    ensures
        entry_view(r) == entry_view(*e),
{
    (owned(e.0.as_str()), e.1, owned(e.2.as_str()), owned(e.3.as_str()))
}

fn entries_with_hash(files: &Vec<(String, (String, u64, String, String))>, h: &str) -> (r: Vec<(String, u64, String, String)>)
    ensures
        Seq::new(r@.len(), |i: int| entry_view(r@[i])) == files_with_hash(files@, h@),
{
    let mut r: Vec<(String, u64, String, String)> = Vec::new();
    let mut i: usize = 0;
    while i < files.len()
        invariant
            i <= files.len(),
            Seq::new(r@.len(), |k: int| entry_view(r@[k])) == files_with_hash(files@.take(i as int), h@),
        decreases files.len() - i,
    {
        assert(files@.take(i + 1).drop_last() =~= files@.take(i as int));
        assert(files@.take(i + 1).last() == files@[i as int]);
        if str_eq(files[i].0.as_str(), h) {
            let ghost r0 = Seq::new(r@.len(), |k: int| entry_view(r@[k]));
            let e = copy_entry(&files[i].1);
            r.push(e);
            assert(Seq::new(r@.len(), |k: int| entry_view(r@[k])) =~= r0.push(entry_view(files@[i as int].1)));
        }
        i = i + 1;
    }
    assert(files@.take(files.len() as int) =~= files@);
    r
}

/// What grouping by hash gives for the hashed files: an entry per hash, in the
/// order first seen, holding that hash's files in scan order.
pub open spec fn hashed_from(files: Seq<(String, (String, u64, String, String))>, hs: Seq<HashedFiles>) -> bool {
    &&& hs.len() == distinct_hashes(files).len()
    &&& forall|i: int| 0 <= i < hs.len() ==> #[trigger] hs[i].hash@ == distinct_hashes(files)[i]
        && Seq::new(hs[i].files@.len(), |k: int| entry_view(hs[i].files@[k])) == files_with_hash(files, hs[i].hash@)
}

proof fn lemma_distinct_hashes(files: Seq<(String, (String, u64, String, String))>)
    ensures
        distinct_hashes(files).no_duplicates(),
        forall|t: int| 0 <= t < files.len() ==> distinct_hashes(files).contains(#[trigger] files[t].0@),
    decreases files.len(),
{
    if files.len() > 0 {
        let prev = files.drop_last();
        lemma_distinct_hashes(prev);
        assert forall|t: int| 0 <= t < files.len() implies distinct_hashes(files).contains(#[trigger] files[t].0@) by {
            if t < files.len() - 1 {
                assert(files[t] == prev[t]);
                let k = choose|k: int| 0 <= k < distinct_hashes(prev).len() && distinct_hashes(prev)[k] == prev[t].0@;
                if !distinct_hashes(prev).contains(files.last().0@) {
                    assert(distinct_hashes(files)[k] == prev[t].0@);
                }
            } else {
                if !distinct_hashes(prev).contains(files.last().0@) {
                    assert(distinct_hashes(files)[distinct_hashes(prev).len() as int] == files.last().0@);
                }
            }
        }
    }
}

proof fn lemma_hash_files_contain(files: Seq<(String, (String, u64, String, String))>, h: Seq<char>, t: int)
    requires
        0 <= t < files.len(),
        files[t].0@ == h,
    ensures
        files_with_hash(files, h).contains(entry_view(files[t].1)),
    decreases files.len(),
{
    let prev = files.drop_last();
    if t == files.len() - 1 {
        assert(files_with_hash(files, h).last() == entry_view(files[t].1));
    } else {
        assert(files[t] == prev[t]);
        lemma_hash_files_contain(prev, h, t);
        let k = choose|k: int| 0 <= k < files_with_hash(prev, h).len() && files_with_hash(prev, h)[k] == entry_view(files[t].1);
        assert(files_with_hash(files, h)[k] == entry_view(files[t].1));
    }
}

proof fn lemma_hash_files_two(files: Seq<(String, (String, u64, String, String))>, h: Seq<char>, a: int, b: int)
    requires
        0 <= a < b < files.len(),
        files[a].0@ == h,
        files[b].0@ == h,
    ensures
        files_with_hash(files, h).len() >= 2,
    decreases files.len(),
{
    let prev = files.drop_last();
    assert(files[a] == prev[a]);
    if b == files.len() - 1 {
        lemma_hash_files_contain(prev, h, a);
    } else {
        assert(files[b] == prev[b]);
        lemma_hash_files_two(prev, h, a, b);
    }
}

proof fn lemma_hash_files_origin(files: Seq<(String, (String, u64, String, String))>, h: Seq<char>, e: (Seq<char>, u64, Seq<char>, Seq<char>))
    requires
        files_with_hash(files, h).contains(e),
    ensures
        exists|t: int| 0 <= t < files.len() && (#[trigger] files[t]).0@ == h && entry_view(files[t].1) == e,
    decreases files.len(),
{
    let prev = files.drop_last();
    let k = choose|k: int| 0 <= k < files_with_hash(files, h).len() && files_with_hash(files, h)[k] == e;
    if files.last().0@ == h && k == files_with_hash(files, h).len() - 1 {
        assert(files[files.len() - 1] == files.last());
    } else {
        assert(files_with_hash(prev, h)[k] == e);
        lemma_hash_files_origin(prev, h, e);
        let t = choose|t: int| 0 <= t < prev.len() && (#[trigger] prev[t]).0@ == h && entry_view(prev[t].1) == e;
        assert(files[t] == prev[t]);
    }
}

/// Hashed files grouped by hash, the hashes in the order first seen, each
/// group's files in scan order.
pub fn group_by_hash(files: &Vec<(String, (String, u64, String, String))>) -> (r: Vec<HashedFiles>)
    ensures
        hashed_from(files@, r@),
        r@.len() == distinct_hashes(files@).len(),
        forall|i: int| 0 <= i < r@.len() ==> #[trigger] r@[i].hash@ == distinct_hashes(files@)[i]
            && Seq::new(r@[i].files@.len(), |k: int| entry_view(r@[i].files@[k])) == files_with_hash(files@, r@[i].hash@),
{
    let mut hashes: Vec<String> = Vec::new();
    let mut i: usize = 0;
    while i < files.len()
        invariant
            i <= files.len(),
            sviews(hashes@) == distinct_hashes(files@.take(i as int)),
        decreases files.len() - i,
    {
        assert(files@.take(i + 1).drop_last() =~= files@.take(i as int));
        assert(files@.take(i + 1).last() == files@[i as int]);
        if !contains_str(&hashes, files[i].0.as_str()) {
            let ghost h0 = sviews(hashes@);
            hashes.push(owned(files[i].0.as_str()));
            assert(sviews(hashes@) =~= h0.push(files@[i as int].0@));
        }
        i = i + 1;
    }
    assert(files@.take(files.len() as int) =~= files@);
    let ghost hs = sviews(hashes@);
    let mut r: Vec<HashedFiles> = Vec::new();
    let mut j: usize = 0;
    while j < hashes.len()
        invariant
            j <= hashes.len(),
            hs == sviews(hashes@),
            hs == distinct_hashes(files@),
            r@.len() == j,
            forall|k: int| 0 <= k < r@.len() ==> #[trigger] r@[k].hash@ == hs[k]
                && Seq::new(r@[k].files@.len(), |m: int| entry_view(r@[k].files@[m])) == files_with_hash(files@, r@[k].hash@),
        decreases hashes.len() - j,
    {
        let group = entries_with_hash(files, hashes[j].as_str());
        r.push(HashedFiles { hash: owned(hashes[j].as_str()), files: group });
        j = j + 1;
    }
    r
}

// -------------------------------------------------------- deletion request

/// What a deletion relies on: the file, and the size and hash its group had.
#[derive(Debug, Clone)]
pub struct FileDeletionSnapshot {
    pub path: String,
    pub file_size: u64,
    pub hash: String,
}

/// The last file of `files` whose path has key `key`.
pub open spec fn file_with_key(files: Seq<DuplicateFile>, key: Seq<char>, windows: bool) -> Option<int>
    decreases files.len(),
{
    if files.len() == 0 {
        None
    } else if key_of(files.last().path@, windows) == key {
        Some(files.len() - 1)
    } else {
        file_with_key(files.drop_last(), key, windows)
    }
}

/// The last file of the scan (group, file) whose path has key `key`.
pub open spec fn scan_file_with_key(gs: Seq<DuplicateGroup>, key: Seq<char>, windows: bool) -> Option<(int, int)>
    decreases gs.len(),
{
    if gs.len() == 0 {
        None
    } else {
        match file_with_key(gs.last().files@, key, windows) {
            Some(f) => Some((gs.len() - 1, f)),
            None => scan_file_with_key(gs.drop_last(), key, windows),
        }
    }
}

/// The first requested path whose file is not in the scan.
pub open spec fn first_missing(gs: Seq<DuplicateGroup>, paths: Seq<Seq<char>>, windows: bool) -> Option<int>
    decreases paths.len(),
{
    if paths.len() == 0 {
        None
    } else {
        match first_missing(gs, paths.drop_last(), windows) {
            Some(i) => Some(i),
            None => if scan_file_with_key(gs, key_of(paths.last(), windows), windows) is None { Some(paths.len() - 1) } else { None },
        }
    }
}

/// The keys of the requested paths, each once, in the order first seen.
pub open spec fn requested_keys(paths: Seq<Seq<char>>, windows: bool) -> Seq<Seq<char>>
    decreases paths.len(),
{
    if paths.len() == 0 {
        Seq::empty()
    } else {
        let prev = requested_keys(paths.drop_last(), windows);
        let k = key_of(paths.last(), windows);
        if prev.contains(k) { prev } else { prev.push(k) }
    }
}

/// The files to delete: one per requested key, as the scan has them.
pub open spec fn chosen_files(gs: Seq<DuplicateGroup>, keys: Seq<Seq<char>>, windows: bool) -> Seq<(int, int)> {
    Seq::new(keys.len(), |i: int| scan_file_with_key(gs, keys[i], windows).unwrap())
}

/// How many chosen files belong to a group with id `id`.
pub open spec fn chosen_in(gs: Seq<DuplicateGroup>, chosen: Seq<(int, int)>, id: Seq<char>) -> int
    decreases chosen.len(),
{
    if chosen.len() == 0 {
        0
    } else {
        chosen_in(gs, chosen.drop_last(), id) + if gs[chosen.last().0].group_id@ == id { 1int } else { 0int }
    }
}

/// The first group all of whose files would go.
pub open spec fn first_emptied(gs: Seq<DuplicateGroup>, chosen: Seq<(int, int)>, g: int) -> Option<int>
    decreases gs.len() - g,
{
    if g < 0 || g >= gs.len() {
        None
    } else if chosen_in(gs, chosen, gs[g].group_id@) >= gs[g].files@.len() {
        Some(g)
    } else {
        first_emptied(gs, chosen, g + 1)
    }
}

pub open spec fn snapshot_of(gs: Seq<DuplicateGroup>, c: (int, int), s: FileDeletionSnapshot) -> bool {
    &&& s.path@ == gs[c.0].files@[c.1].path@
    &&& s.file_size == gs[c.0].file_size
    &&& s.hash@ == gs[c.0].hash@
}

fn find_scan_file(gs: &Vec<DuplicateGroup>, key: &str, windows: bool) -> (r: Option<(usize, usize)>)
    ensures
        match scan_file_with_key(gs@, key@, windows) {
            Some((g, f)) => r matches Some((rg, rf)) && rg == g && rf == f && 0 <= g < gs@.len() && 0 <= f < gs@[g].files@.len(),
            None => r is None,
        },
{
    let mut g: usize = gs.len();
    assert(gs@.take(g as int) =~= gs@);
    while g > 0
        invariant
            g <= gs.len(),
            scan_file_with_key(gs@, key@, windows) == scan_file_with_key(gs@.take(g as int), key@, windows),
        decreases g,
    {
        let files = &gs[g - 1].files;
        assert(gs@.take(g as int).drop_last() =~= gs@.take(g - 1));
        assert(gs@.take(g as int).last() == gs@[g - 1]);
        let mut f: usize = files.len();
        assert(files@.take(f as int) =~= files@);
        while f > 0
            invariant
                1 <= g <= gs.len(),
                f <= files.len(),
                files@ == gs@[g - 1].files@,
                scan_file_with_key(gs@, key@, windows) == scan_file_with_key(gs@.take(g as int), key@, windows),
                gs@.take(g as int).last() == gs@[g - 1],
                gs@.take(g as int).drop_last() == gs@.take(g - 1),
                file_with_key(files@, key@, windows) == file_with_key(files@.take(f as int), key@, windows),
            decreases f,
        {
            assert(files@.take(f as int).drop_last() =~= files@.take(f - 1));
            assert(files@.take(f as int).last() == files@[f - 1]);
            let k = path_key(files[f - 1].path.as_str(), windows);
            if str_eq(k.as_str(), key) {
                return Some((g - 1, f - 1));
            }
            f = f - 1;
        }
        assert(files@.take(0) =~= Seq::<DuplicateFile>::empty());
        g = g - 1;
    }
    assert(gs@.take(0) =~= Seq::<DuplicateGroup>::empty());
    None
}

proof fn lemma_chosen_in_push(gs: Seq<DuplicateGroup>, c: Seq<(int, int)>, x: (int, int), id: Seq<char>)
    ensures
        chosen_in(gs, c.push(x), id) == chosen_in(gs, c, id) + if gs[x.0].group_id@ == id { 1int } else { 0int },
{
    assert(c.push(x).drop_last() =~= c);
}

fn count_chosen(gs: &Vec<DuplicateGroup>, chosen: &Vec<(usize, usize)>, id: &str) -> (r: usize)
    requires
        forall|i: int| 0 <= i < chosen@.len() ==> (#[trigger] chosen@[i]).0 < gs@.len(),
    ensures
        r == chosen_in(gs@, Seq::new(chosen@.len(), |i: int| (chosen@[i].0 as int, chosen@[i].1 as int)), id@),
{
    let ghost cs = Seq::new(chosen@.len(), |i: int| (chosen@[i].0 as int, chosen@[i].1 as int));
    let mut n: usize = 0;
    let mut i: usize = 0;
    while i < chosen.len()
        invariant
            i <= chosen.len(),
            cs == Seq::new(chosen@.len(), |i: int| (chosen@[i].0 as int, chosen@[i].1 as int)),
            forall|i: int| 0 <= i < chosen@.len() ==> (#[trigger] chosen@[i]).0 < gs@.len(),
            n == chosen_in(gs@, cs.take(i as int), id@),
            n <= i,
        decreases chosen.len() - i,
    {
        assert(cs.take(i + 1) =~= cs.take(i as int).push(cs[i as int]));
        proof { lemma_chosen_in_push(gs@, cs.take(i as int), cs[i as int], id@); }
        let g = chosen[i].0;
        if str_eq(gs[g].group_id.as_str(), id) {
            n = n + 1;
        }
        i = i + 1;
    }
    assert(cs.take(chosen.len() as int) =~= cs);
    n
}

/// What a deletion request gets against a scan: the first requested path that
/// is in no group, an empty request, the first group it would empty, or else one
/// snapshot per distinct requested file, in request order.
pub open spec fn delete_request_checked(snapshot: DuplicateResult, ps: Seq<Seq<char>>, windows: bool, r: Result<Vec<FileDeletionSnapshot>, String>) -> bool {
    let gs = snapshot.groups@;
    let chosen = chosen_files(gs, requested_keys(ps, windows), windows);
    match first_missing(gs, ps, windows) {
        Some(i) => r matches Err(e) && e@ == "待删除文件不属于当前扫描结果: "@ + ps[i],
        None => if chosen.len() == 0 {
            r matches Err(e) && e@ == "没有可删除的重复文件"@
        } else {
            match first_emptied(gs, chosen, 0) {
                Some(g) => r matches Err(e) && e@ == "重复组至少需要保留一个文件: "@ + gs[g].group_id@,
                None => r matches Ok(v) && v@.len() == chosen.len()
                    && (forall|i: int| 0 <= i < v@.len() ==> snapshot_of(gs, chosen[i], #[trigger] v@[i]))
                    && (forall|g: int| 0 <= g < gs.len() ==> chosen_in(gs, chosen, #[trigger] gs[g].group_id@) < gs[g].files@.len()),
            }
        },
    }
}

proof fn lemma_first_missing_none(gs: Seq<DuplicateGroup>, ps: Seq<Seq<char>>, windows: bool)
    ensures
        first_missing(gs, ps, windows) is None <==> forall|i: int| 0 <= i < ps.len()
            ==> #[trigger] scan_file_with_key(gs, key_of(ps[i], windows), windows) is Some,
    decreases ps.len(),
{
    if ps.len() > 0 {
        lemma_first_missing_none(gs, ps.drop_last(), windows);
        if first_missing(gs, ps, windows) is None {
            assert forall|i: int| 0 <= i < ps.len() implies #[trigger] scan_file_with_key(gs, key_of(ps[i], windows), windows) is Some by {
                if i < ps.len() - 1 {
                    assert(ps.drop_last()[i] == ps[i]);
                }
            }
        } else if first_missing(gs, ps.drop_last(), windows) is None {
            assert(scan_file_with_key(gs, key_of(ps[ps.len() - 1], windows), windows) is None);
        } else {
            let i = choose|i: int| 0 <= i < ps.drop_last().len()
                && !(#[trigger] scan_file_with_key(gs, key_of(ps.drop_last()[i], windows), windows) is Some);
            assert(ps.drop_last()[i] == ps[i]);
        }
    }
}

proof fn lemma_requested_keys_nonempty(ps: Seq<Seq<char>>, windows: bool)
    ensures
        requested_keys(ps, windows).len() > 0 <==> ps.len() > 0,
    decreases ps.len(),
{
    if ps.len() > 0 {
        lemma_requested_keys_nonempty(ps.drop_last(), windows);
    }
}

proof fn lemma_first_emptied_none(gs: Seq<DuplicateGroup>, chosen: Seq<(int, int)>, g: int)
    requires
        0 <= g,
    ensures
        first_emptied(gs, chosen, g) is None <==> forall|h: int| g <= h < gs.len()
            ==> chosen_in(gs, chosen, #[trigger] gs[h].group_id@) < gs[h].files@.len(),
    decreases gs.len() - g,
{
    if g < gs.len() {
        lemma_first_emptied_none(gs, chosen, g + 1);
    }
}

/// A deletion request is accepted exactly when it names at least one path,
/// every path it names is a file of the scan, and every group keeps a file.
pub proof fn lemma_delete_request_accepted(snapshot: DuplicateResult, ps: Seq<Seq<char>>, windows: bool, r: Result<Vec<FileDeletionSnapshot>, String>)
    requires
        delete_request_checked(snapshot, ps, windows, r),
    ensures
        r is Ok <==> {
            let gs = snapshot.groups@;
            &&& ps.len() > 0
            &&& forall|i: int| 0 <= i < ps.len() ==> #[trigger] scan_file_with_key(gs, key_of(ps[i], windows), windows) is Some
            &&& forall|g: int| 0 <= g < gs.len()
                ==> chosen_in(gs, chosen_files(gs, requested_keys(ps, windows), windows), #[trigger] gs[g].group_id@) < gs[g].files@.len()
        },
{
    let gs = snapshot.groups@;
    lemma_first_missing_none(gs, ps, windows);
    lemma_requested_keys_nonempty(ps, windows);
    lemma_first_emptied_none(gs, chosen_files(gs, requested_keys(ps, windows), windows), 0);
}

/// The files a deletion request names, checked against the scan: every path must
/// be a file of the scan (a repeated path counts once), at least one file must
/// be named, and every group must keep at least one file. A path listed in more
/// than one group stands for its last listing (the last group, and in it the
/// last file, with that key), as a map filled group by group keeps the last.
pub fn validate_delete_request(snapshot: &DuplicateResult, paths_to_delete: &Vec<String>, windows: bool) -> (r: Result<Vec<FileDeletionSnapshot>, String>)
    ensures
        delete_request_checked(*snapshot, sviews(paths_to_delete@), windows, r),
{
    let gs = &snapshot.groups;
    let ghost ps = sviews(paths_to_delete@);
    let mut keys: Vec<String> = Vec::new();
    let mut chosen: Vec<(usize, usize)> = Vec::new();
    let mut files: Vec<FileDeletionSnapshot> = Vec::new();
    let mut i: usize = 0;
    while i < paths_to_delete.len()
        invariant
            i <= paths_to_delete.len(),
            gs@ == snapshot.groups@,
            ps == sviews(paths_to_delete@),
            first_missing(gs@, ps.take(i as int), windows) is None,
            sviews(keys@) == requested_keys(ps.take(i as int), windows),
            chosen@.len() == keys@.len(),
            files@.len() == keys@.len(),
            forall|k: int| 0 <= k < chosen@.len() ==> (#[trigger] chosen@[k]).0 < gs@.len()
                && chosen@[k].1 < gs@[chosen@[k].0 as int].files@.len()
                && scan_file_with_key(gs@, keys@[k]@, windows) == Some((chosen@[k].0 as int, chosen@[k].1 as int)),
            forall|k: int| 0 <= k < files@.len() ==> snapshot_of(gs@, (chosen@[k].0 as int, chosen@[k].1 as int), #[trigger] files@[k]),
        decreases paths_to_delete.len() - i,
    {
        assert(ps.take(i + 1).drop_last() =~= ps.take(i as int));
        assert(ps.take(i + 1).last() == paths_to_delete@[i as int]@);
        let key = path_key(paths_to_delete[i].as_str(), windows);
        if contains_str(&keys, key.as_str()) {
            let found = find_scan_file(gs, key.as_str(), windows);
            assert(found is Some) by {
                let k = choose|k: int| 0 <= k < keys@.len() && sviews(keys@)[k] == key@;
                assert(keys@[k]@ == key@);
                assert(chosen@[k].0 < gs@.len());
            }
            i = i + 1;
            continue;
        }
        match find_scan_file(gs, key.as_str(), windows) {
            None => {
                assert(first_missing(gs@, ps.take(i + 1), windows) == Some(i as int));
                proof { lemma_first_missing_prefix(gs@, ps, i + 1, windows); }
                assert(ps.take(i + 1)[i as int] == ps[i as int]);
                return Err(concat_str("待删除文件不属于当前扫描结果: ", paths_to_delete[i].as_str()));
            },
            Some((g, f)) => {
                let ghost k0 = keys@;
                keys.push(key);
                assert(sviews(keys@) =~= sviews(k0).push(key_of(ps[i as int], windows)));
                chosen.push((g, f));
                files.push(FileDeletionSnapshot {
                    path: gs[g].files[f].path.clone(),
                    file_size: gs[g].file_size,
                    hash: gs[g].hash.clone(),
                });
            },
        }
        i = i + 1;
    }
    assert(ps.take(paths_to_delete.len() as int) =~= ps);
    let ghost chosen_spec = chosen_files(gs@, requested_keys(ps, windows), windows);
    assert(Seq::new(chosen@.len(), |i: int| (chosen@[i].0 as int, chosen@[i].1 as int)) =~= chosen_spec);
    if files.len() == 0 {
        return Err(owned("没有可删除的重复文件"));
    }
    let mut g: usize = 0;
    while g < gs.len()
        invariant
            g <= gs.len(),
            gs@ == snapshot.groups@,
            forall|i: int| 0 <= i < chosen@.len() ==> (#[trigger] chosen@[i]).0 < gs@.len(),
            chosen_spec == Seq::new(chosen@.len(), |i: int| (chosen@[i].0 as int, chosen@[i].1 as int)),
            chosen_spec == chosen_files(gs@, requested_keys(ps, windows), windows),
            chosen_spec.len() > 0,
            ps == sviews(paths_to_delete@),
            first_missing(gs@, ps, windows) is None,
            files@.len() == chosen@.len(),
            forall|k: int| 0 <= k < files@.len() ==> snapshot_of(gs@, (chosen@[k].0 as int, chosen@[k].1 as int), #[trigger] files@[k]),
            first_emptied(gs@, chosen_spec, 0) == first_emptied(gs@, chosen_spec, g as int),
            forall|h: int| 0 <= h < g ==> chosen_in(gs@, chosen_spec, #[trigger] gs@[h].group_id@) < gs@[h].files@.len(),
        decreases gs.len() - g,
    {
        let n = count_chosen(gs, &chosen, gs[g].group_id.as_str());
        if n >= gs[g].files.len() {
            return Err(concat_str("重复组至少需要保留一个文件: ", gs[g].group_id.as_str()));
        }
        g = g + 1;
    }
    Ok(files)
}

proof fn lemma_first_missing_prefix(gs: Seq<DuplicateGroup>, ps: Seq<Seq<char>>, n: int, windows: bool)
    requires
        0 <= n <= ps.len(),
        first_missing(gs, ps.take(n), windows) is Some,
    ensures
        first_missing(gs, ps, windows) == first_missing(gs, ps.take(n), windows),
    decreases ps.len() - n,
{
    if n < ps.len() {
        assert(ps.take(n + 1).drop_last() =~= ps.take(n));
        lemma_first_missing_prefix(gs, ps, n + 1, windows);
    } else {
        assert(ps.take(n) =~= ps);
    }
}

// ---------------------------------------------------------- duplicate groups

/// Files with one content hash: path, size, creation and modification times.
#[derive(Debug, Clone)]
pub struct HashedFiles {
    pub hash: String,
    pub files: Vec<(String, u64, String, String)>,
}

/// The more recently modified file first (times compare as text).
pub open spec fn newer_first(a: (String, u64, String, String), b: (String, u64, String, String)) -> bool {
    lex_lt(b.3@, a.3@)
}

pub open spec fn by_newest() -> spec_fn((String, u64, String, String), (String, u64, String, String)) -> bool {
    |a: (String, u64, String, String), b: (String, u64, String, String)| newer_first(a, b)
}

/// The space that all but one copy take.
pub open spec fn group_waste(n: int, size: u64) -> u64 {
    if n <= 1 { 0 } else { capped((n - 1) * size) }
}

/// A duplicate group for files with one hash: its files newest first, the
/// newest kept.
pub open spec fn group_fits_hash(g: DuplicateGroup, h: HashedFiles) -> bool {
    let sorted = stable_sorted(h.files@, by_newest());
    &&& g.hash@ == h.hash@
    &&& g.file_size == h.files@[0].1
    &&& g.files@.len() == h.files@.len()
    &&& forall|i: int| 0 <= i < g.files@.len() ==> {
        &&& (#[trigger] g.files@[i]).path@ == sorted[i].0@
        &&& g.files@[i].created_at@ == sorted[i].2@
        &&& g.files@[i].modified_at@ == sorted[i].3@
        &&& g.files@[i].keep == (i == 0)
    }
}

fn copy_files(v: &Vec<(String, u64, String, String)>) -> (r: Vec<(String, u64, String, String)>)
    ensures
        r@ == v@,
{
    let mut r: Vec<(String, u64, String, String)> = Vec::new();
    let mut i: usize = 0;
    while i < v.len()
        invariant
            i <= v.len(),
            r@ == v@.take(i as int),
        decreases v.len() - i,
    {
        r.push((v[i].0.clone(), v[i].1, v[i].2.clone(), v[i].3.clone()));
        assert(r@ =~= v@.take(i + 1));
        i = i + 1;
    }
    assert(v@.take(v.len() as int) =~= v@);
    r
}

/// The group of the files of one hash, under the id `group_id`.
pub fn duplicate_group(h: &HashedFiles, group_id: String) -> (r: DuplicateGroup)
    requires
        h.files@.len() >= 1,
    ensures
        group_fits_hash(r, *h),
        r.group_id@ == group_id@,
{
    let less = |a: &(String, u64, String, String), b: &(String, u64, String, String)| -> (r: bool)
        ensures
            r == newer_first(*a, *b),
        {
            let x = chars_of(b.3.as_str());
            let y = chars_of(a.3.as_str());
            compare_chars(&x, &y) < 0
        };
    let sorted = sort_by(copy_files(&h.files), less, Ghost(by_newest()));
    let mut files: Vec<DuplicateFile> = Vec::new();
    let mut i: usize = 0;
    while i < sorted.len()
        invariant
            i <= sorted.len(),
            sorted@ == stable_sorted(h.files@, by_newest()),
            files@.len() == i,
            forall|k: int| 0 <= k < i ==> {
                &&& (#[trigger] files@[k]).path@ == sorted@[k].0@
                &&& files@[k].created_at@ == sorted@[k].2@
                &&& files@[k].modified_at@ == sorted@[k].3@
                &&& files@[k].keep == (k == 0)
            },
        decreases sorted.len() - i,
    {
        files.push(DuplicateFile {
            path: sorted[i].0.clone(),
            created_at: sorted[i].2.clone(),
            modified_at: sorted[i].3.clone(),
            keep: i == 0,
        });
        i = i + 1;
    }
    DuplicateGroup { group_id, hash: h.hash.clone(), file_size: h.files[0].1, files }
}

fn waste_of(n: usize, size: u64) -> (r: u64)
    ensures
        r == group_waste(n as int, size),
{
    if n <= 1 {
        return 0;
    }
    let a: u128 = (n - 1) as u128;
    let b: u128 = size as u128;
    proof {
        assert(a * b <= 0xffff_ffff_ffff_ffffu128 * 0xffff_ffff_ffff_ffffu128) by (nonlinear_arith)
            requires a <= 0xffff_ffff_ffff_ffffu128, b <= 0xffff_ffff_ffff_ffffu128;
    }
    let w: u128 = a * b;
    if w > 0xffff_ffff_ffff_ffffu128 { 0xffff_ffff_ffff_ffffu64 } else { w as u64 }
}

/// Groups with more wasted space first; stable.
pub open spec fn more_waste(a: DuplicateGroup, b: DuplicateGroup) -> bool {
    group_waste(a.files@.len() as int, a.file_size) > group_waste(b.files@.len() as int, b.file_size)
}

pub open spec fn by_waste() -> spec_fn(DuplicateGroup, DuplicateGroup) -> bool {
    |a: DuplicateGroup, b: DuplicateGroup| more_waste(a, b)
}

/// The groups ordered by wasted space, largest first; stable.
pub fn order_groups(groups: Vec<DuplicateGroup>) -> (r: Vec<DuplicateGroup>)
    ensures
        r@ == stable_sorted(groups@, by_waste()),
{
    let less = |a: &DuplicateGroup, b: &DuplicateGroup| -> (r: bool)
        ensures
            r == more_waste(*a, *b),
        {
            waste_of(a.files.len(), a.file_size) > waste_of(b.files.len(), b.file_size)
        };
    sort_by(groups, less, Ghost(by_waste()))
}

/// The files of a hash form a group when there are at least two of them.
pub open spec fn eligible_count(hs: Seq<HashedFiles>) -> int
    decreases hs.len(),
{
    if hs.len() == 0 {
        0
    } else {
        eligible_count(hs.drop_last()) + if hs.last().files@.len() >= 2 { 1int } else { 0int }
    }
}

/// The space all duplicate copies take together.
pub open spec fn total_waste(hs: Seq<HashedFiles>) -> int
    decreases hs.len(),
{
    if hs.len() == 0 {
        0
    } else {
        let h = hs.last();
        total_waste(hs.drop_last()) + if h.files@.len() >= 2 { (h.files@.len() - 1) * h.files@[0].1 } else { 0int }
    }
}

proof fn lemma_waste_order()
    ensures
        strict_order(by_waste()),
{
}

/// Ordering duplicate groups: the space a group wastes is the size of all its
/// copies but one (as much as a `u64` holds), a single file wasting nothing; the
/// ordered groups are the same groups, each group wasting at least as much as
/// any after it.
pub proof fn lemma_groups_by_waste(groups: Seq<DuplicateGroup>)
    ensures
        forall|n: int, size: u64| #![trigger group_waste(n, size)] n >= 1 && (n - 1) * size <= u64::MAX
            ==> group_waste(n, size) == (n - 1) * size,
        forall|n: int, size: u64| #![trigger group_waste(n, size)] n >= 1 && (n - 1) * size > u64::MAX
            ==> group_waste(n, size) == u64::MAX,
        stable_sorted(groups, by_waste()).to_multiset() == groups.to_multiset(),
        forall|i: int, j: int| #![trigger stable_sorted(groups, by_waste())[i], stable_sorted(groups, by_waste())[j]]
            0 <= i < j < stable_sorted(groups, by_waste()).len() ==>
            group_waste(stable_sorted(groups, by_waste())[i].files@.len() as int, stable_sorted(groups, by_waste())[i].file_size)
                >= group_waste(stable_sorted(groups, by_waste())[j].files@.len() as int, stable_sorted(groups, by_waste())[j].file_size),
{
    lemma_waste_order();
    lemma_stable_sorted_props(groups, by_waste());
    let r = stable_sorted(groups, by_waste());
    assert forall|i: int, j: int| #![trigger r[i], r[j]] 0 <= i < j < r.len() implies
        group_waste(r[i].files@.len() as int, r[i].file_size) >= group_waste(r[j].files@.len() as int, r[j].file_size) by {
        assert(!by_waste()(r[j], r[i]));
    }
    assert forall|n: int, size: u64| #![trigger group_waste(n, size)] n >= 1 && (n - 1) * size <= u64::MAX
        implies group_waste(n, size) == (n - 1) * size by {
        if n == 1 {
            assert((n - 1) * size == 0) by (nonlinear_arith) requires n == 1;
        }
    }
    assert forall|n: int, size: u64| #![trigger group_waste(n, size)] n >= 1 && (n - 1) * size > u64::MAX
        implies group_waste(n, size) == u64::MAX by {
        if n == 1 {
            assert((n - 1) * size == 0) by (nonlinear_arith) requires n == 1;
        }
    }
}

/// The group comes from a hash shared by two or more files.
pub open spec fn from_hash(g: DuplicateGroup, hs: Seq<HashedFiles>) -> bool {
    exists|k: int| 0 <= k < hs.len() && hs[k].files@.len() >= 2 && #[trigger] group_fits_hash(g, hs[k])
}

/// One of the groups holds exactly the files of `h`.
pub open spec fn has_group(gs: Seq<DuplicateGroup>, h: HashedFiles) -> bool {
    exists|j: int| 0 <= j < gs.len() && #[trigger] group_fits_hash(gs[j], h)
}

/// The entries have pairwise different hashes.
pub open spec fn hashes_distinct(hs: Seq<HashedFiles>) -> bool {
    forall|a: int, b: int| 0 <= a < b < hs.len() ==> (#[trigger] hs[a]).hash@ != (#[trigger] hs[b]).hash@
}

/// The groups have pairwise different hashes.
pub open spec fn group_hashes_distinct(gs: Seq<DuplicateGroup>) -> bool {
    forall|a: int, b: int| 0 <= a < b < gs.len() ==> (#[trigger] gs[a]).hash@ != (#[trigger] gs[b]).hash@
}

/// The groups made from files grouped by hash: each comes from a hash shared by
/// two or more files, each such hash has one, and when the hashes differ the
/// groups' hashes differ too.
pub open spec fn groups_from(hs: Seq<HashedFiles>, gs: Seq<DuplicateGroup>) -> bool {
    &&& forall|g: int| 0 <= g < gs.len() ==> from_hash(#[trigger] gs[g], hs)
    &&& forall|k: int| 0 <= k < hs.len() && (#[trigger] hs[k]).files@.len() >= 2 ==> has_group(gs, hs[k])
    &&& hashes_distinct(hs) ==> group_hashes_distinct(gs)
}

proof fn lemma_group_hash_of(h: Seq<DuplicateGroup>, i: int)
    requires
        0 <= i < h.len(),
    ensures
        h.map_values(|g: DuplicateGroup| g.hash@)[i] == h[i].hash@,
{
}

/// The result of a duplicate scan, from the files grouped by content hash: a
/// group per hash shared by two or more files, largest waste first. Each such
/// hash has a group, each group comes from one, and there are as many groups
/// as such hashes: the groups match the hashes one to one.
pub fn build_duplicate_result(
    task_id: String,
    scanned_count: u64,
    hashed: &Vec<HashedFiles>,
    errors: Vec<DuplicateScanError>,
) -> (r: DuplicateResult)
    ensures
        r.task_id == task_id,
        r.scanned_count == scanned_count,
        r.errors == errors,
        r.groups@.len() == eligible_count(hashed@),
        r.total_groups == r.groups@.len(),
        r.total_wasted_bytes == capped(total_waste(hashed@)),
        forall|g: int| 0 <= g < r.groups@.len() ==> from_hash(#[trigger] r.groups@[g], hashed@),
        forall|k: int| 0 <= k < hashed@.len() && (#[trigger] hashed@[k]).files@.len() >= 2 ==> has_group(r.groups@, hashed@[k]),
        groups_from(hashed@, r.groups@),
        sorted_by(r.groups@, by_waste()),
{
    let mut groups: Vec<DuplicateGroup> = Vec::new();
    let mut wasted: u64 = 0;
    let mut i: usize = 0;
    let ghost mut idx: Seq<int> = Seq::empty();
    while i < hashed.len()
        invariant
            i <= hashed.len(),
            idx.len() == groups@.len(),
            forall|m: int| 0 <= m < idx.len() ==> 0 <= #[trigger] idx[m] < i && groups@[m].hash@ == hashed@[idx[m]].hash@,
            forall|m1: int, m2: int| 0 <= m1 < m2 < idx.len() ==> #[trigger] idx[m1] < #[trigger] idx[m2],
            groups@.len() == eligible_count(hashed@.take(i as int)),
            total_waste(hashed@.take(i as int)) >= 0,
            wasted == capped(total_waste(hashed@.take(i as int))),
            forall|g: int| 0 <= g < groups@.len() ==> from_hash(#[trigger] groups@[g], hashed@),
            forall|k: int| 0 <= k < i && (#[trigger] hashed@[k]).files@.len() >= 2 ==> has_group(groups@, hashed@[k]),
        decreases hashed.len() - i,
    {
        assert(hashed@.take(i + 1).drop_last() =~= hashed@.take(i as int));
        let h = &hashed[i];
        if h.files.len() >= 2 {
            let g = duplicate_group(h, new_uuid());
            let w = waste_of(h.files.len(), h.files[0].1);
            proof {
                assert((h.files@.len() - 1) * h.files@[0].1 >= 0) by (nonlinear_arith)
                    requires h.files@.len() >= 2;
            }
            wasted = wasted.saturating_add(w);
            let ghost before = groups@;
            groups.push(g);
            proof {
                idx = idx.push(i as int);
            }
            assert forall|x: int| 0 <= x < groups@.len() implies from_hash(#[trigger] groups@[x], hashed@) by {
                if x < before.len() {
                    assert(groups@[x] == before[x]);
                } else {
                    assert(group_fits_hash(groups@[x], hashed@[i as int]));
                }
            }
            assert forall|k: int| 0 <= k < i + 1 && (#[trigger] hashed@[k]).files@.len() >= 2 implies has_group(groups@, hashed@[k]) by {
                if k < i {
                    let j = choose|j: int| 0 <= j < before.len() && #[trigger] group_fits_hash(before[j], hashed@[k]);
                    assert(groups@[j] == before[j]);
                } else {
                    assert(group_fits_hash(groups@[before.len() as int], hashed@[k]));
                }
            }
        }
        i = i + 1;
    }
    assert(hashed@.take(hashed.len() as int) =~= hashed@);
    let ghost unsorted = groups@;
    let ordered = order_groups(groups);
    proof {
        if hashes_distinct(hashed@) {
            let f = |g: DuplicateGroup| g.hash@;
            assert forall|a: int, b: int| 0 <= a < unsorted.len() && 0 <= b < unsorted.len() && a != b
                implies unsorted.map_values(f)[a] != unsorted.map_values(f)[b] by {
                lemma_group_hash_of(unsorted, a);
                lemma_group_hash_of(unsorted, b);
                if a < b {
                    assert(idx[a] < idx[b]);
                    assert(hashed@[idx[a]].hash@ != hashed@[idx[b]].hash@);
                } else {
                    assert(idx[b] < idx[a]);
                    assert(hashed@[idx[b]].hash@ != hashed@[idx[a]].hash@);
                }
            }
            assert(unsorted.map_values(f).no_duplicates());
            lemma_stable_sorted_map_multiset(unsorted, by_waste(), f);
            unsorted.map_values(f).lemma_multiset_has_no_duplicates();
            ordered@.map_values(f).lemma_multiset_has_no_duplicates_conv();
            assert forall|a: int, b: int| 0 <= a < b < ordered@.len() implies (#[trigger] ordered@[a]).hash@ != (#[trigger] ordered@[b]).hash@ by {
                lemma_group_hash_of(ordered@, a);
                lemma_group_hash_of(ordered@, b);
            }
        }
        lemma_waste_order();
        lemma_stable_sorted_props(unsorted, by_waste());
        lemma_stable_sorted_elems(unsorted, by_waste());
        lemma_stable_sorted_len(unsorted, by_waste());
        assert forall|g: int| 0 <= g < ordered@.len() implies from_hash(#[trigger] ordered@[g], hashed@) by {
            assert(ordered@.contains(ordered@[g]));
            assert(unsorted.contains(ordered@[g]));
            let w = choose|w: int| 0 <= w < unsorted.len() && unsorted[w] == ordered@[g];
            assert(unsorted[w] == ordered@[g]);
        }
        assert forall|k: int| 0 <= k < hashed@.len() && (#[trigger] hashed@[k]).files@.len() >= 2 implies has_group(ordered@, hashed@[k]) by {
            let j = choose|j: int| 0 <= j < unsorted.len() && #[trigger] group_fits_hash(unsorted[j], hashed@[k]);
            assert(unsorted.contains(unsorted[j]));
            assert(ordered@.contains(unsorted[j]));
            let v = choose|v: int| 0 <= v < ordered@.len() && ordered@[v] == unsorted[j];
            assert(group_fits_hash(ordered@[v], hashed@[k]));
        }
    }
    let n = ordered.len() as u64;
    DuplicateResult { task_id, scanned_count, total_groups: n, total_wasted_bytes: wasted, groups: ordered, errors }
}

/// Whether a group lists a file at the path.
pub open spec fn group_has_path(g: DuplicateGroup, p: Seq<char>) -> bool {
    exists|i: int| 0 <= i < g.files@.len() && (#[trigger] g.files@[i]).path@ == p
}

proof fn lemma_newest_order()
    ensures
        strict_order(by_newest()),
{
    assert forall|a: (String, u64, String, String), b: (String, u64, String, String)| #[trigger] by_newest()(a, b) implies !by_newest()(b, a) by {
        lemma_lex_asymmetric(b.3@, a.3@);
    }
    assert forall|a: (String, u64, String, String), b: (String, u64, String, String), c: (String, u64, String, String)|
        #[trigger] by_newest()(a, b) && #[trigger] by_newest()(b, c) implies by_newest()(a, c) by {
        lemma_lex_transitive(c.3@, b.3@, a.3@);
    }
}

proof fn lemma_hashed_distinct(files: Seq<(String, (String, u64, String, String))>, hs: Seq<HashedFiles>)
    requires
        hashed_from(files, hs),
    ensures
        hashes_distinct(hs),
{
    lemma_distinct_hashes(files);
    assert forall|a: int, b: int| 0 <= a < b < hs.len() implies (#[trigger] hs[a]).hash@ != (#[trigger] hs[b]).hash@ by {
        assert(distinct_hashes(files)[a] != distinct_hashes(files)[b]);
    }
}

/// A file whose hash another file shares is listed, at its path, in a group of its hash.
proof fn lemma_file_in_group(files: Seq<(String, (String, u64, String, String))>, hs: Seq<HashedFiles>, gs: Seq<DuplicateGroup>, t: int)
    requires
        hashed_from(files, hs),
        groups_from(hs, gs),
        0 <= t < files.len(),
        files_with_hash(files, files[t].0@).len() >= 2,
    ensures
        exists|g: int| 0 <= g < gs.len() && (#[trigger] gs[g]).hash@ == files[t].0@ && group_has_path(gs[g], files[t].1.0@),
{
    let h = files[t].0@;
    lemma_distinct_hashes(files);
    let i = choose|i: int| 0 <= i < distinct_hashes(files).len() && distinct_hashes(files)[i] == h;
    assert(hs[i].hash@ == h);
    let v = Seq::new(hs[i].files@.len(), |k: int| entry_view(hs[i].files@[k]));
    assert(v == files_with_hash(files, h));
    lemma_hash_files_contain(files, h, t);
    let k = choose|k: int| 0 <= k < v.len() && v[k] == entry_view(files[t].1);
    assert(hs[i].files@.len() >= 2);
    let g = choose|g: int| 0 <= g < gs.len() && #[trigger] group_fits_hash(gs[g], hs[i]);
    let sorted = stable_sorted(hs[i].files@, by_newest());
    lemma_newest_order();
    lemma_stable_sorted_elems(hs[i].files@, by_newest());
    assert(hs[i].files@.contains(hs[i].files@[k]));
    assert(sorted.contains(hs[i].files@[k]));
    let q = choose|q: int| 0 <= q < sorted.len() && sorted[q] == hs[i].files@[k];
    lemma_stable_sorted_len(hs[i].files@, by_newest());
    assert(gs[g].files@[q].path@ == files[t].1.0@);
}

/// A path listed in a group is that of a hashed file with the group's hash.
proof fn lemma_group_path_origin(files: Seq<(String, (String, u64, String, String))>, hs: Seq<HashedFiles>, gs: Seq<DuplicateGroup>, g: int, p: Seq<char>)
    requires
        hashed_from(files, hs),
        groups_from(hs, gs),
        0 <= g < gs.len(),
        group_has_path(gs[g], p),
    ensures
        exists|t: int| 0 <= t < files.len() && (#[trigger] files[t]).1.0@ == p && files[t].0@ == gs[g].hash@,
{
    assert(from_hash(gs[g], hs));
    let k = choose|k: int| 0 <= k < hs.len() && hs[k].files@.len() >= 2 && #[trigger] group_fits_hash(gs[g], hs[k]);
    let i = choose|i: int| 0 <= i < gs[g].files@.len() && (#[trigger] gs[g].files@[i]).path@ == p;
    let sorted = stable_sorted(hs[k].files@, by_newest());
    lemma_newest_order();
    lemma_stable_sorted_elems(hs[k].files@, by_newest());
    lemma_stable_sorted_len(hs[k].files@, by_newest());
    assert(sorted.contains(sorted[i]));
    let m = choose|m: int| 0 <= m < hs[k].files@.len() && hs[k].files@[m] == sorted[i];
    let v = Seq::new(hs[k].files@.len(), |x: int| entry_view(hs[k].files@[x]));
    assert(v == files_with_hash(files, hs[k].hash@));
    assert(v[m] == entry_view(sorted[i]));
    assert(files_with_hash(files, hs[k].hash@).contains(entry_view(sorted[i])));
    lemma_hash_files_origin(files, hs[k].hash@, entry_view(sorted[i]));
}

/// How a whole duplicate scan groups its hashed files. When the scanned paths
/// differ, grouping the hashed files by hash and building the result from that
/// puts every two files with one hash in one group, and lists no path in two
/// groups.
pub proof fn lemma_scan_grouping(files: Seq<(String, (String, u64, String, String))>, hs: Seq<HashedFiles>, gs: Seq<DuplicateGroup>)
    requires
        forall|a: int, b: int| 0 <= a < b < files.len() ==> (#[trigger] files[a]).1.0@ != (#[trigger] files[b]).1.0@,
        hashed_from(files, hs),
        groups_from(hs, gs),
    ensures
        forall|a: int, b: int| 0 <= a < b < files.len() && (#[trigger] files[a]).0@ == (#[trigger] files[b]).0@ ==>
            exists|g: int| 0 <= g < gs.len() && group_has_path(#[trigger] gs[g], files[a].1.0@) && group_has_path(gs[g], files[b].1.0@),
        forall|g1: int, g2: int, p: Seq<char>| #![trigger group_has_path(gs[g1], p), group_has_path(gs[g2], p)]
            0 <= g1 < g2 < gs.len() && group_has_path(gs[g1], p) ==> !group_has_path(gs[g2], p),
{
    lemma_hashed_distinct(files, hs);
    assert(group_hashes_distinct(gs));
    assert forall|a: int, b: int| 0 <= a < b < files.len() && (#[trigger] files[a]).0@ == (#[trigger] files[b]).0@ implies
        exists|g: int| 0 <= g < gs.len() && group_has_path(#[trigger] gs[g], files[a].1.0@) && group_has_path(gs[g], files[b].1.0@) by {
        lemma_hash_files_two(files, files[a].0@, a, b);
        lemma_file_in_group(files, hs, gs, a);
        lemma_file_in_group(files, hs, gs, b);
        let ga = choose|g: int| 0 <= g < gs.len() && (#[trigger] gs[g]).hash@ == files[a].0@ && group_has_path(gs[g], files[a].1.0@);
        let gb = choose|g: int| 0 <= g < gs.len() && (#[trigger] gs[g]).hash@ == files[b].0@ && group_has_path(gs[g], files[b].1.0@);
        if ga < gb {
            assert(gs[ga].hash@ != gs[gb].hash@);
        } else if gb < ga {
            assert(gs[gb].hash@ != gs[ga].hash@);
        }
    }
    assert forall|g1: int, g2: int, p: Seq<char>| 0 <= g1 < g2 < gs.len() && group_has_path(gs[g1], p) implies !group_has_path(gs[g2], p) by {
        if group_has_path(gs[g2], p) {
            lemma_group_path_origin(files, hs, gs, g1, p);
            lemma_group_path_origin(files, hs, gs, g2, p);
            let t1 = choose|t: int| 0 <= t < files.len() && (#[trigger] files[t]).1.0@ == p && files[t].0@ == gs[g1].hash@;
            let t2 = choose|t: int| 0 <= t < files.len() && (#[trigger] files[t]).1.0@ == p && files[t].0@ == gs[g2].hash@;
            if t1 < t2 {
                assert(files[t1].1.0@ != files[t2].1.0@);
            } else if t2 < t1 {
                assert(files[t2].1.0@ != files[t1].1.0@);
            }
            assert(gs[g1].hash@ != gs[g2].hash@);
        }
    }
}

// ------------------------------------------------------------ deleting

/// The files a deletion request may delete, checked against the cached scan.
pub fn deletion_plan(snapshot: Option<&DuplicateResult>, request: &DuplicateDeleteRequest, windows: bool) -> (r: Result<Vec<FileDeletionSnapshot>, String>)
    ensures
        snapshot is None ==> (r matches Err(m) && m@ == "没有可用的重复文件扫描结果，请重新扫描"@),
        snapshot matches Some(s) && s.task_id@ != request.task_id@ ==> (r matches Err(m) && m@ == "扫描任务已过期，请重新扫描后再删除"@),
        snapshot matches Some(s) ==> (s.task_id@ == request.task_id@ ==> delete_request_checked(*s, sviews(request.paths_to_delete@), windows, r)),
{
    match snapshot {
        None => Err(owned("没有可用的重复文件扫描结果，请重新扫描")),
        Some(s) => {
            if !str_eq(s.task_id.as_str(), request.task_id.as_str()) {
                return Err(owned("扫描任务已过期，请重新扫描后再删除"));
            }
            validate_delete_request(s, &request.paths_to_delete, windows)
        },
    }
}

/// A file about to be deleted must still have the size its group had.
pub fn deletion_size_verdict(expected: u64, actual: Result<u64, String>) -> (r: Result<(), String>)
    ensures
        match actual {
            Err(e) => r matches Err(m) && m@ == "读取文件信息失败: "@ + e@,
            Ok(a) => if a == expected { r is Ok } else {
                r matches Err(m) && m@ == size_changed_message("文件大小已变更（"@, "扫描"@, expected, a, "，已跳过删除"@)
            },
        },
{
    size_verdict(expected, actual, "读取文件信息失败: ", "文件大小已变更（", "扫描", "，已跳过删除")
}

/// A file about to be deleted must still have the content its group had.
pub fn deletion_hash_verdict(expected: &str, actual: Result<String, String>) -> (r: Result<(), String>)
    ensures
        match actual {
            Err(e) => r matches Err(m) && m@ == "重新计算 SHA-256 失败: "@ + e@,
            Ok(a) => if a@ == expected@ { r is Ok } else { r matches Err(m) && m@ == "文件内容已变更，已跳过删除"@ },
        },
{
    hash_verdict(expected, actual, "重新计算 SHA-256 失败: ", "文件内容已变更，已跳过删除")
}

/// What the size check of a deletion answers for a read of the file's size:
/// the read error, or the change, or nothing to object.
pub open spec fn deletion_size_outcome(expected: u64, actual: Result<u64, String>) -> Result<(), Seq<char>> {
    match actual {
        Err(e) => Err("读取文件信息失败: "@ + e@),
        Ok(a) => if a == expected {
            Ok(())
        } else {
            Err(size_changed_message("文件大小已变更（"@, "扫描"@, expected, a, "，已跳过删除"@))
        },
    }
}

/// What the content check of a deletion answers for a hashing of the file.
pub open spec fn deletion_hash_outcome(expected: Seq<char>, actual: Result<String, String>) -> Result<(), Seq<char>> {
    match actual {
        Err(e) => Err("重新计算 SHA-256 失败: "@ + e@),
        Ok(a) => if a@ == expected { Ok(()) } else { Err("文件内容已变更，已跳过删除"@) },
    }
}

/// A result with its message as characters.
pub open spec fn outcome_view(r: Result<(), String>) -> Result<(), Seq<char>> {
    match r {
        Ok(_) => Ok(()),
        Err(e) => Err(e@),
    }
}

/// What the two checks of a deletion answer, given what `size_of` and `hash_of`
/// read at the file's path: the size check's objection, or else the content
/// check's answer on a hashing made after the size was found unchanged.
pub open spec fn checks_answer<S, H>(file: FileDeletionSnapshot, size_of: S, hash_of: H, answer: Result<(), Seq<char>>) -> bool
    where
        S: Fn(&str) -> Result<u64, String>,
        H: Fn(&str) -> Result<String, String>,
{
    exists|p: &str, s: Result<u64, String>| #![trigger call_ensures(size_of, (p,), s)]
        p@ == file.path@ && call_ensures(size_of, (p,), s) && match deletion_size_outcome(file.file_size, s) {
            Err(m) => answer == Err::<(), Seq<char>>(m),
            Ok(_) => exists|q: &str, h: Result<String, String>| #![trigger call_ensures(hash_of, (q,), h)]
                q@ == file.path@ && call_ensures(hash_of, (q,), h) && answer == deletion_hash_outcome(file.hash@, h),
        }
}

/// The size check, then the content check, of a planned deletion, with the
/// reads that `size_of` and `hash_of` make of the file; the content is read only
/// when the size still matches.
pub fn deletion_checks<S, H>(file: &FileDeletionSnapshot, size_of: &S, hash_of: &H) -> (r: Result<(), String>)
    where
        S: Fn(&str) -> Result<u64, String>,
        H: Fn(&str) -> Result<String, String>,
    requires
        forall|p: &str| #[trigger] size_of.requires((p,)),
        forall|p: &str| #[trigger] hash_of.requires((p,)),
    ensures
        checks_answer(*file, *size_of, *hash_of, outcome_view(r)),
{
    let path = file.path.as_str();
    let size = size_of(path);
    let ghost s = size;
    let checked = deletion_size_verdict(file.file_size, size);
    match checked {
        Err(e) => {
            proof {
                assert(call_ensures(size_of, (path,), s));
            }
            Err(e)
        },
        Ok(()) => {
            let hash = hash_of(path);
            let ghost h = hash;
            let verdict = deletion_hash_verdict(file.hash.as_str(), hash);
            proof {
                assert(call_ensures(size_of, (path,), s));
                assert(call_ensures(hash_of, (path,), h));
                assert(outcome_view(verdict) == deletion_hash_outcome(file.hash@, h));
            }
            verdict
        },
    }
}

/// A failed record carrying the message `m`.
pub open spec fn failed_with(op: Operation, m: Seq<char>) -> bool {
    op.status == OperationStatus::Failed && (op.error_message matches Some(e) && e@ == m)
}

/// The record of one planned deletion: a `delete` of the file's path that
/// cannot be undone. When the checks on what `size_of` and `hash_of` read at the
/// path object, it failed with their message; otherwise `remove` was called on
/// the path, and the record is a success when it deleted the file and a failure
/// with its error when it did not.
pub open spec fn deletion_record<S, H, D>(op: Operation, file: FileDeletionSnapshot, size_of: S, hash_of: H, remove: D) -> bool
    where
        S: Fn(&str) -> Result<u64, String>,
        H: Fn(&str) -> Result<String, String>,
        D: Fn(&str) -> Result<(), String>,
{
    &&& op.action@ == "delete"@
    &&& op.source_path@ == file.path@
    &&& !op.reversible
    &&& exists|answer: Result<(), Seq<char>>| #[trigger] checks_answer(file, size_of, hash_of, answer) && match answer {
        Err(m) => failed_with(op, m),
        Ok(_) => exists|w: &str, d: Result<(), String>| #![trigger call_ensures(remove, (w,), d)]
            w@ == file.path@ && call_ensures(remove, (w,), d) && match d {
                Ok(_) => op.status == OperationStatus::Success && op.error_message is None,
                Err(e) => failed_with(op, e@),
            },
    }
}

/// Deletes the planned duplicates in order, each only once its size and content
/// are found unchanged (`size_of`, `hash_of`); `remove` deletes a file. One
/// record per planned file, in plan order.
pub fn delete_planned<S, H, D>(files: &Vec<FileDeletionSnapshot>, size_of: &S, hash_of: &H, remove: &D) -> (r: Vec<Operation>)
    where
        S: Fn(&str) -> Result<u64, String>,
        H: Fn(&str) -> Result<String, String>,
        D: Fn(&str) -> Result<(), String>,
    requires
        forall|p: &str| #[trigger] size_of.requires((p,)),
        forall|p: &str| #[trigger] hash_of.requires((p,)),
        forall|p: &str| #[trigger] remove.requires((p,)),
    ensures
        r@.len() == files@.len(),
        forall|k: int| 0 <= k < r@.len() ==> deletion_record(#[trigger] r@[k], files@[k], *size_of, *hash_of, *remove),
{
    let mut ops: Vec<Operation> = Vec::new();
    let mut i: usize = 0;
    while i < files.len()
        invariant
            i <= files.len(),
            ops@.len() == i,
            forall|p: &str| #[trigger] size_of.requires((p,)),
            forall|p: &str| #[trigger] hash_of.requires((p,)),
            forall|p: &str| #[trigger] remove.requires((p,)),
            forall|k: int| 0 <= k < ops@.len() ==> deletion_record(#[trigger] ops@[k], files@[k], *size_of, *hash_of, *remove),
        decreases files.len() - i,
    {
        let file = &files[i];
        let path = file.path.as_str();
        let checked = deletion_checks(file, size_of, hash_of);
        let ghost answer = outcome_view(checked);
        let result = match checked {
            Err(e) => Err(e),
            Ok(()) => {
                let removed = remove(path);
                proof {
                    assert(call_ensures(remove, (path,), removed));
                }
                removed
            },
        };
        let op = delete_operation(path, &result);
        let ghost before = ops@;
        ops.push(op);
        proof {
            assert(checks_answer(files@[i as int], *size_of, *hash_of, answer));
            assert(deletion_record(ops@[i as int], files@[i as int], *size_of, *hash_of, *remove));
            assert forall|k: int| 0 <= k < ops@.len() implies deletion_record(#[trigger] ops@[k], files@[k], *size_of, *hash_of, *remove) by {
                if k < i {
                    assert(ops@[k] == before[k]);
                }
            }
        }
        i = i + 1;
    }
    ops
}

/// A deletion record is a success only when the file still had its group's size
/// and content and `remove` deleted it.
pub proof fn lemma_deleted_only_unchanged<S, H, D>(op: Operation, file: FileDeletionSnapshot, size_of: S, hash_of: H, remove: D)
    where
        S: Fn(&str) -> Result<u64, String>,
        H: Fn(&str) -> Result<String, String>,
        D: Fn(&str) -> Result<(), String>,
    requires
        deletion_record(op, file, size_of, hash_of, remove),
        op.status == OperationStatus::Success,
    ensures
        exists|p: &str| p@ == file.path@ && #[trigger] call_ensures(size_of, (p,), Ok::<u64, String>(file.file_size)),
        exists|p: &str, h: String| p@ == file.path@ && h@ == file.hash@ && #[trigger] call_ensures(hash_of, (p,), Ok::<String, String>(h)),
        exists|p: &str, d: Result<(), String>| p@ == file.path@ && d is Ok && #[trigger] call_ensures(remove, (p,), d),
{
    let answer = choose|answer: Result<(), Seq<char>>| #[trigger] checks_answer(file, size_of, hash_of, answer) && match answer {
        Err(m) => failed_with(op, m),
        Ok(_) => exists|w: &str, d: Result<(), String>| #![trigger call_ensures(remove, (w,), d)]
            w@ == file.path@ && call_ensures(remove, (w,), d) && match d {
                Ok(_) => op.status == OperationStatus::Success && op.error_message is None,
                Err(e) => failed_with(op, e@),
            },
    };
    let (p, s) = choose|p: &str, s: Result<u64, String>| #![trigger call_ensures(size_of, (p,), s)]
        p@ == file.path@ && call_ensures(size_of, (p,), s) && match deletion_size_outcome(file.file_size, s) {
            Err(m) => answer == Err::<(), Seq<char>>(m),
            Ok(_) => exists|q: &str, h: Result<String, String>| #![trigger call_ensures(hash_of, (q,), h)]
                q@ == file.path@ && call_ensures(hash_of, (q,), h) && answer == deletion_hash_outcome(file.hash@, h),
        };
    assert(s == Ok::<u64, String>(file.file_size));
    let (q, h) = choose|q: &str, h: Result<String, String>| #![trigger call_ensures(hash_of, (q,), h)]
        q@ == file.path@ && call_ensures(hash_of, (q,), h) && answer == deletion_hash_outcome(file.hash@, h);
    let hv = h->Ok_0;
    assert(h == Ok::<String, String>(hv));
}

} // verus!
