//! A whole classification scan: keyword sources, keyword lists, merged keywords,
//! keyword summaries and the grouped result, over files already read.
use vstd::prelude::*;
use crate::classify::{
    combine_keywords, kept_keywords, merge_containing_keywords, shortest_contained, source_allowed,
    dimension_text, ClassificationDimension, alias_pairs, keyword_before, keyword_before_s,
};
use crate::classify::{pair_views, sort_keywords};
use crate::classify::{build_alias_map, build_normalized_keyword_map, collect_folder_keywords, dimension_of, folder_keywords_of, metadata_keywords_of, push_new_exec};
use crate::media_scan::{entry_paths, grouped_paths, scanned_paths, anchor_views, build_cover_art_evidence, finish_groups, group_media_files, sort_by_file_name, lemma_name_order, ClassifyContext, anchors_of, by_name, from_file, group_finished, group_fits, grouped_count, ContextView, ScannedMedia};
use crate::metadata::MediaMetadata;
use crate::models::{MediaFile, KeywordAlias, KeywordGroup, KeywordInfo, MediaClassifyKnowledge, MediaClassifyResult};
use crate::order::{lemma_stable_sorted_len, lemma_stable_sorted_elems, lemma_stable_sorted_props, sorted_by, compare_chars, lemma_stable_sorted_map, lex_lt, lex_lt_s, sort_by, stable_sorted};
use crate::text::{
    chars_of, lowercase, match_key, normalize_match_text, owned, sviews, str_to_lowercase, string_of,
    clone_strings, trim, trim_ws, contains_str, concat_str, str_eq,
};

verus! {

// ------------------------------------------------------------ sources

/// How a keyword source is written once read: trimmed and lowercased.
pub open spec fn source_key(s: Seq<char>) -> Seq<char> {
    lowercase(trim(s))
}

/// The sources that the dimension allows, each once, in the order given.
pub open spec fn usable_sources(d: ClassificationDimension, srcs: Seq<Seq<char>>) -> Seq<Seq<char>>
    decreases srcs.len(),
{
    if srcs.len() == 0 {
        Seq::empty()
    } else {
        let prev = usable_sources(d, srcs.drop_last());
        let k = source_key(srcs.last());
        if source_allowed(d, k) && !prev.contains(k) { prev.push(k) } else { prev }
    }
}

/// The usable sources are the allowed keys of the sources given, each once:
/// none repeats, each is the key of a given source that the dimension allows,
/// and the key of every such source is among them.
pub proof fn lemma_usable_sources(d: ClassificationDimension, srcs: Seq<Seq<char>>)
    ensures
        ({
            let u = usable_sources(d, srcs);
            &&& forall|i: int, j: int| 0 <= i < j < u.len() ==> #[trigger] u[i] != #[trigger] u[j]
            &&& forall|i: int| 0 <= i < u.len() ==> source_allowed(d, #[trigger] u[i])
                && exists|k: int| 0 <= k < srcs.len() && source_key(#[trigger] srcs[k]) == u[i]
            &&& forall|k: int| 0 <= k < srcs.len() && source_allowed(d, source_key(#[trigger] srcs[k])) ==> u.contains(source_key(srcs[k]))
        }),
    decreases srcs.len(),
{
    if srcs.len() > 0 {
        let s0 = srcs.drop_last();
        lemma_usable_sources(d, s0);
        let p = usable_sources(d, s0);
        let key = source_key(srcs.last());
        let u = usable_sources(d, srcs);
        assert forall|k: int| 0 <= k < s0.len() implies #[trigger] s0[k] == srcs[k] by {}
        if source_allowed(d, key) && !p.contains(key) {
            assert(u == p.push(key));
            assert forall|i: int, j: int| 0 <= i < j < u.len() implies #[trigger] u[i] != #[trigger] u[j] by {
                if j == p.len() {
                    assert(u[i] == p[i]);
                    assert(p.contains(p[i]));
                } else {
                    assert(u[i] == p[i] && u[j] == p[j]);
                }
            }
            assert forall|i: int| 0 <= i < u.len() implies source_allowed(d, #[trigger] u[i])
                && exists|k: int| 0 <= k < srcs.len() && source_key(#[trigger] srcs[k]) == u[i] by {
                if i < p.len() {
                    assert(u[i] == p[i]);
                    let k = choose|k: int| 0 <= k < s0.len() && source_key(#[trigger] s0[k]) == p[i];
                    assert(srcs[k] == s0[k]);
                } else {
                    assert(srcs[srcs.len() - 1] == srcs.last());
                }
            }
            assert forall|k: int| 0 <= k < srcs.len() && source_allowed(d, source_key(#[trigger] srcs[k])) implies u.contains(source_key(srcs[k])) by {
                if k < s0.len() {
                    assert(s0[k] == srcs[k]);
                    let i = choose|i: int| 0 <= i < p.len() && p[i] == source_key(s0[k]);
                    assert(u[i] == p[i]);
                } else {
                    assert(u[p.len() as int] == key);
                }
            }
        } else {
            assert(u == p);
            assert forall|i: int| 0 <= i < u.len() implies source_allowed(d, #[trigger] u[i])
                && exists|k: int| 0 <= k < srcs.len() && source_key(#[trigger] srcs[k]) == u[i] by {
                let k = choose|k: int| 0 <= k < s0.len() && source_key(#[trigger] s0[k]) == p[i];
                assert(srcs[k] == s0[k]);
            }
            assert forall|k: int| 0 <= k < srcs.len() && source_allowed(d, source_key(#[trigger] srcs[k])) implies u.contains(source_key(srcs[k])) by {
                if k < s0.len() {
                    assert(s0[k] == srcs[k]);
                } else {
                    assert(srcs[k] == srcs.last());
                }
            }
        }
    }
}

/// The refusal when a dimension is left with no source.
pub open spec fn no_sources_message(d: ClassificationDimension) -> Seq<char> {
    "归类维度“"@ + dimension_text(d) + "”没有启用可用的关键字来源"@
}

/// The keyword sources to scan with, or the refusal when none is usable.
pub fn prepare_sources(dimension: ClassificationDimension, keyword_sources: &Vec<String>) -> (r: Result<Vec<String>, String>)
    ensures
        usable_sources(dimension, sviews(keyword_sources@)).len() == 0 ==> (r matches Err(e) && e@ == no_sources_message(dimension)),
        usable_sources(dimension, sviews(keyword_sources@)).len() > 0 ==> (r matches Ok(v) && sviews(v@) == usable_sources(dimension, sviews(keyword_sources@))),
{
    let ghost f = sviews(keyword_sources@);
    let mut r: Vec<String> = Vec::new();
    let mut i: usize = 0;
    while i < keyword_sources.len()
        invariant
            i <= keyword_sources.len(),
            f == sviews(keyword_sources@),
            sviews(r@) == usable_sources(dimension, f.take(i as int)),
        decreases keyword_sources.len() - i,
    {
        assert(f.take(i + 1).drop_last() =~= f.take(i as int));
        assert(f.take(i + 1).last() == keyword_sources@[i as int]@);
        let c = chars_of(keyword_sources[i].as_str());
        let t = trim_ws(&c);
        let ts = string_of(&t);
        let k = str_to_lowercase(ts.as_str());
        if dimension.allows_source(k.as_str()) && !contains_str(&r, k.as_str()) {
            let ghost r0 = r@;
            r.push(k);
            assert(sviews(r@) =~= sviews(r0).push(source_key(keyword_sources@[i as int]@)));
        }
        i = i + 1;
    }
    assert(f.take(keyword_sources.len() as int) =~= f);
    if r.len() == 0 {
        let a = concat_str("归类维度“", dimension.as_str());
        Err(concat_str(a.as_str(), "”没有启用可用的关键字来源"))
    } else {
        Ok(r)
    }
}

// ---------------------------------------------------------- exclusions

/// The match keys of the excluded creators, leaving out empty ones.
pub open spec fn exclusion_keys_of(ex: Seq<Seq<char>>) -> Seq<Seq<char>>
    decreases ex.len(),
{
    if ex.len() == 0 {
        Seq::empty()
    } else {
        let prev = exclusion_keys_of(ex.drop_last());
        let k = match_key(ex.last());
        if k.len() > 0 { prev.push(k) } else { prev }
    }
}

pub fn exclusion_keys(exclusions: &Vec<String>) -> (r: Vec<String>)
    ensures
        sviews(r@) == exclusion_keys_of(sviews(exclusions@)),
{
    let ghost f = sviews(exclusions@);
    let mut r: Vec<String> = Vec::new();
    let mut i: usize = 0;
    while i < exclusions.len()
        invariant
            i <= exclusions.len(),
            f == sviews(exclusions@),
            sviews(r@) == exclusion_keys_of(f.take(i as int)),
        decreases exclusions.len() - i,
    {
        assert(f.take(i + 1).drop_last() =~= f.take(i as int));
        assert(f.take(i + 1).last() == exclusions@[i as int]@);
        let k = normalize_match_text(exclusions[i].as_str());
        let kc = chars_of(k.as_str());
        if kc.len() > 0 {
            let ghost r0 = r@;
            r.push(k);
            assert(sviews(r@) =~= sviews(r0).push(match_key(exclusions@[i as int]@)));
        }
        i = i + 1;
    }
    assert(f.take(exclusions.len() as int) =~= f);
    r
}

// ---------------------------------------------------------- candidates

/// Each alias and its canonical name, in order.
pub open spec fn alias_names(aliases: Seq<KeywordAlias>) -> Seq<Seq<char>>
    decreases aliases.len(),
{
    if aliases.len() == 0 {
        Seq::empty()
    } else {
        alias_names(aliases.drop_last()).push(aliases.last().alias@).push(aliases.last().canonical@)
    }
}

/// Folder keywords, then metadata keywords, then every alias with its canonical name.
pub fn keyword_candidates(folder: &Vec<String>, metadata: &Vec<String>, aliases: &Vec<KeywordAlias>) -> (r: Vec<String>)
    ensures
        sviews(r@) == sviews(folder@) + sviews(metadata@) + alias_names(aliases@),
{
    let mut r: Vec<String> = Vec::new();
    let mut i: usize = 0;
    while i < folder.len()
        invariant
            i <= folder.len(),
            sviews(r@) == sviews(folder@.take(i as int)),
        decreases folder.len() - i,
    {
        let ghost r0 = r@;
        r.push(folder[i].clone());
        assert(sviews(r@) =~= sviews(r0).push(folder@[i as int]@));
        assert(sviews(folder@.take(i + 1)) =~= sviews(folder@.take(i as int)).push(folder@[i as int]@));
        i = i + 1;
    }
    assert(folder@.take(folder.len() as int) =~= folder@);
    let ghost base = sviews(r@);
    let mut j: usize = 0;
    while j < metadata.len()
        invariant
            j <= metadata.len(),
            base == sviews(folder@),
            sviews(r@) == base + sviews(metadata@.take(j as int)),
        decreases metadata.len() - j,
    {
        let ghost r0 = r@;
        r.push(metadata[j].clone());
        assert(sviews(r@) =~= sviews(r0).push(metadata@[j as int]@));
        assert(sviews(metadata@.take(j + 1)) =~= sviews(metadata@.take(j as int)).push(metadata@[j as int]@));
        assert(sviews(r@) =~= base + sviews(metadata@.take(j + 1)));
        j = j + 1;
    }
    assert(metadata@.take(metadata.len() as int) =~= metadata@);
    let ghost base2 = sviews(r@);
    let mut k: usize = 0;
    assert(aliases@.take(0) =~= Seq::<KeywordAlias>::empty());
    assert(base2 =~= base2 + alias_names(aliases@.take(0)));
    while k < aliases.len()
        invariant
            k <= aliases.len(),
            base2 == sviews(folder@) + sviews(metadata@),
            sviews(r@) == base2 + alias_names(aliases@.take(k as int)),
        decreases aliases.len() - k,
    {
        assert(aliases@.take(k + 1).drop_last() =~= aliases@.take(k as int));
        let ghost r0 = sviews(r@);
        r.push(aliases[k].alias.clone());
        r.push(aliases[k].canonical.clone());
        assert(sviews(r@) =~= r0.push(aliases@[k as int].alias@).push(aliases@[k as int].canonical@));
        k = k + 1;
    }
    assert(aliases@.take(aliases.len() as int) =~= aliases@);
    r
}

// ------------------------------------------------------------ merging

/// Each keyword with the keyword it is filed under: itself in a curated group,
/// else the shortest other keyword that it contains.
pub open spec fn merged_of(ks: Seq<Seq<char>>, saved: bool) -> Seq<(Seq<char>, Seq<char>)> {
    Seq::new(ks.len(), |i: int| (ks[i], if saved { ks[i] } else { shortest_contained(ks, ks[i]) }))
}

pub fn merged_pairs(keywords: &Vec<String>, saved: bool) -> (r: Vec<(String, String)>)
    ensures
        pair_views(r@) == merged_of(sviews(keywords@), saved),
{
    if saved {
        let mut r: Vec<(String, String)> = Vec::new();
        let mut i: usize = 0;
        while i < keywords.len()
            invariant
                i <= keywords.len(),
                r@.len() == i,
                forall|t: int| 0 <= t < i ==> #[trigger] r@[t].0@ == keywords@[t]@ && r@[t].1@ == keywords@[t]@,
            decreases keywords.len() - i,
        {
            r.push((keywords[i].clone(), keywords[i].clone()));
            i = i + 1;
        }
        assert(pair_views(r@) =~= merged_of(sviews(keywords@), saved));
        r
    } else {
        let r = merge_containing_keywords(keywords);
        assert(pair_views(r@) =~= merged_of(sviews(keywords@), saved));
        r
    }
}

/// The keywords that entries are filed under, each once, in the order first seen.
pub open spec fn distinct_targets(m: Seq<(Seq<char>, Seq<char>)>) -> Seq<Seq<char>>
    decreases m.len(),
{
    if m.len() == 0 {
        Seq::empty()
    } else {
        let prev = distinct_targets(m.drop_last());
        if prev.contains(m.last().1) { prev } else { prev.push(m.last().1) }
    }
}

/// The keywords a scan groups by: the distinct merge targets in keyword order.
pub fn final_keywords(merged: &Vec<(String, String)>) -> (r: Vec<String>)
    ensures
        sviews(r@) == stable_sorted(distinct_targets(pair_views(merged@)), |a: Seq<char>, b: Seq<char>| keyword_before(a, b)),
{
    let ghost m = pair_views(merged@);
    let mut t: Vec<String> = Vec::new();
    let mut i: usize = 0;
    while i < merged.len()
        invariant
            i <= merged.len(),
            m == pair_views(merged@),
            sviews(t@) == distinct_targets(m.take(i as int)),
        decreases merged.len() - i,
    {
        assert(m.take(i + 1).drop_last() =~= m.take(i as int));
        assert(m.take(i + 1).last() == (merged@[i as int].0@, merged@[i as int].1@));
        if !contains_str(&t, merged[i].1.as_str()) {
            let ghost t0 = t@;
            t.push(merged[i].1.clone());
            assert(sviews(t@) =~= sviews(t0).push(merged@[i as int].1@));
        }
        i = i + 1;
    }
    assert(m.take(merged.len() as int) =~= m);
    sort_keywords(t)
}

// ------------------------------------------------------- keyword summaries

/// The other keywords filed under `kw`, in merge order.
pub open spec fn merged_from_of(m: Seq<(Seq<char>, Seq<char>)>, kw: Seq<char>) -> Seq<Seq<char>>
    decreases m.len(),
{
    if m.len() == 0 {
        Seq::empty()
    } else {
        let prev = merged_from_of(m.drop_last(), kw);
        if m.last().1 == kw && m.last().0 != kw { prev.push(m.last().0) } else { prev }
    }
}

/// Where a keyword came from.
pub open spec fn source_label(kw: Seq<char>, folder: Seq<Seq<char>>, metadata: Seq<Seq<char>>, saved: bool) -> Seq<char> {
    if saved {
        "keyword_group"@
    } else if folder.contains(kw) && metadata.contains(kw) {
        "folder_name,metadata"@
    } else if folder.contains(kw) {
        "folder_name"@
    } else {
        "metadata"@
    }
}

/// The file count of the first group filed under `kw`, else zero.
pub open spec fn group_count_of(gs: Seq<KeywordGroup>, kw: Seq<char>) -> u64
    decreases gs.len(),
{
    if gs.len() == 0 {
        0
    } else if gs[0].keyword@ == kw {
        gs[0].file_count
    } else {
        group_count_of(gs.drop_first(), kw)
    }
}

/// A keyword summary for `kw`.
pub open spec fn info_fits(
    info: KeywordInfo,
    kw: Seq<char>,
    m: Seq<(Seq<char>, Seq<char>)>,
    folder: Seq<Seq<char>>,
    metadata: Seq<Seq<char>>,
    saved: bool,
    gs: Seq<KeywordGroup>,
) -> bool {
    &&& info.keyword@ == kw
    &&& info.source@ == source_label(kw, folder, metadata, saved)
    &&& sviews(info.merged_from@) == stable_sorted(merged_from_of(m, kw), |a: Seq<char>, b: Seq<char>| keyword_before(a, b))
    &&& info.file_count == group_count_of(gs, kw)
}

fn group_count(gs: &Vec<KeywordGroup>, kw: &str) -> (r: u64)
    ensures
        r == group_count_of(gs@, kw@),
{
    let mut i: usize = 0;
    assert(gs@.skip(0) =~= gs@);
    while i < gs.len()
        invariant
            i <= gs.len(),
            group_count_of(gs@, kw@) == group_count_of(gs@.skip(i as int), kw@),
        decreases gs.len() - i,
    {
        assert(gs@.skip(i as int)[0] == gs@[i as int]);
        assert(gs@.skip(i as int).drop_first() =~= gs@.skip(i + 1));
        if str_eq(gs[i].keyword.as_str(), kw) {
            return gs[i].file_count;
        }
        i = i + 1;
    }
    0
}

fn merged_from(merged: &Vec<(String, String)>, kw: &str) -> (r: Vec<String>)
    ensures
        sviews(r@) == stable_sorted(merged_from_of(pair_views(merged@), kw@), |a: Seq<char>, b: Seq<char>| keyword_before(a, b)),
{
    let ghost m = pair_views(merged@);
    let mut t: Vec<String> = Vec::new();
    let mut i: usize = 0;
    while i < merged.len()
        invariant
            i <= merged.len(),
            m == pair_views(merged@),
            sviews(t@) == merged_from_of(m.take(i as int), kw@),
        decreases merged.len() - i,
    {
        assert(m.take(i + 1).drop_last() =~= m.take(i as int));
        assert(m.take(i + 1).last() == (merged@[i as int].0@, merged@[i as int].1@));
        if str_eq(merged[i].1.as_str(), kw) && !str_eq(merged[i].0.as_str(), kw) {
            let ghost t0 = t@;
            t.push(merged[i].0.clone());
            assert(sviews(t@) =~= sviews(t0).push(merged@[i as int].0@));
        }
        i = i + 1;
    }
    assert(m.take(merged.len() as int) =~= m);
    sort_keywords(t)
}

fn source_of(kw: &str, folder: &Vec<String>, metadata: &Vec<String>, saved: bool) -> (r: String)
    ensures
        r@ == source_label(kw@, sviews(folder@), sviews(metadata@), saved),
{
    if saved {
        owned("keyword_group")
    } else {
        let f = contains_str(folder, kw);
        let m = contains_str(metadata, kw);
        if f && m {
            owned("folder_name,metadata")
        } else if f {
            owned("folder_name")
        } else {
            owned("metadata")
        }
    }
}

/// One summary per keyword, in the keywords' order.
pub fn keyword_infos(
    keywords: &Vec<String>,
    merged: &Vec<(String, String)>,
    folder: &Vec<String>,
    metadata: &Vec<String>,
    saved: bool,
    groups: &Vec<KeywordGroup>,
) -> (r: Vec<KeywordInfo>)
    ensures
        r@.len() == keywords@.len(),
        forall|i: int| 0 <= i < r@.len() ==> info_fits(#[trigger] r@[i], keywords@[i]@, pair_views(merged@), sviews(folder@), sviews(metadata@), saved, groups@),
{
    let mut r: Vec<KeywordInfo> = Vec::new();
    let mut i: usize = 0;
    while i < keywords.len()
        invariant
            i <= keywords.len(),
            r@.len() == i,
            forall|t: int| 0 <= t < i ==> info_fits(#[trigger] r@[t], keywords@[t]@, pair_views(merged@), sviews(folder@), sviews(metadata@), saved, groups@),
        decreases keywords.len() - i,
    {
        let kw = keywords[i].as_str();
        let info = KeywordInfo {
            keyword: keywords[i].clone(),
            source: source_of(kw, folder, metadata, saved),
            merged_from: merged_from(merged, kw),
            file_count: group_count(groups, kw),
        };
        r.push(info);
        i = i + 1;
    }
    r
}

/// Texts in plain text order; stable.
pub fn sort_texts(v: Vec<String>) -> (r: Vec<String>)
    ensures
        sviews(r@) == stable_sorted(sviews(v@), |a: Seq<char>, b: Seq<char>| lex_lt(a, b)),
{
    let ghost v0 = v@;
    let less = |a: &String, b: &String| -> (r: bool)
        ensures
            r == lex_lt_s(*a, *b),
        {
            let x = chars_of(a.as_str());
            let y = chars_of(b.as_str());
            compare_chars(&x, &y) < 0
        };
    let r = sort_by(v, less, Ghost(|a: String, b: String| lex_lt_s(a, b)));
    proof {
        let f = |s: String| s@;
        lemma_stable_sorted_map(v0, f, |a: String, b: String| lex_lt_s(a, b), |a: Seq<char>, b: Seq<char>| lex_lt(a, b));
        assert(sviews(v0) =~= v0.map_values(f));
        assert(sviews(r@) =~= r@.map_values(f));
    }
    r
}

// ------------------------------------------------------------ the scan

/// The files' metadata, in order.
pub open spec fn metas_of(files: Seq<ScannedMedia>) -> Seq<MediaMetadata> {
    Seq::new(files.len(), |i: int| files[i].metadata)
}

/// The distinct tag values of the enabled sources over the files.
pub fn metadata_keywords(files: &Vec<ScannedMedia>, sources: &Vec<String>) -> (r: Vec<String>)
    ensures
        sviews(r@) == metadata_keywords_of(metas_of(files@), sviews(sources@)),
{
    let ghost ms = metas_of(files@);
    let use_artist = contains_str(sources, "artist");
    let use_album_artist = contains_str(sources, "album_artist");
    let use_album = contains_str(sources, "album");
    let use_composer = contains_str(sources, "composer");
    let mut r: Vec<String> = Vec::new();
    let mut i: usize = 0;
    assert(sviews(r@) =~= Seq::<Seq<char>>::empty());
    while i < files.len()
        invariant
            i <= files.len(),
            ms == metas_of(files@),
            use_artist == sviews(sources@).contains("artist"@),
            use_album_artist == sviews(sources@).contains("album_artist"@),
            use_album == sviews(sources@).contains("album"@),
            use_composer == sviews(sources@).contains("composer"@),
            sviews(r@) == metadata_keywords_of(ms.take(i as int), sviews(sources@)),
        decreases files.len() - i,
    {
        assert(ms.take(i + 1).drop_last() =~= ms.take(i as int));
        assert(ms.take(i + 1).last() == files@[i as int].metadata);
        push_new_exec(&mut r, &files[i].metadata.artist, use_artist);
        push_new_exec(&mut r, &files[i].metadata.album_artist, use_album_artist);
        push_new_exec(&mut r, &files[i].metadata.album, use_album);
        push_new_exec(&mut r, &files[i].metadata.composer, use_composer);
        i = i + 1;
    }
    assert(ms.take(files.len() as int) =~= ms);
    r
}

/// The folder-keyword entries of a merge list: match key, keyword, target.
pub open spec fn folder_entries(m: Seq<(Seq<char>, Seq<char>)>) -> Seq<(Seq<char>, Seq<char>, Seq<char>)> {
    Seq::new(m.len(), |i: int| (match_key(m[i].0), m[i].0, m[i].1))
}

/// Everything a scan decides, as values.
pub struct ScanPlan {
    pub saved: bool,
    pub folder: Seq<Seq<char>>,
    pub metadata: Seq<Seq<char>>,
    pub merged: Seq<(Seq<char>, Seq<char>)>,
    pub finals: Seq<Seq<char>>,
    pub ctx: ContextView,
}

/// The plan of a scan with dimension `d` and usable sources `srcs`.
pub open spec fn scan_plan(
    d: ClassificationDimension,
    srcs: Seq<Seq<char>>,
    paths: Seq<Seq<char>>,
    saved_keywords: Option<Seq<Seq<char>>>,
    knowledge: MediaClassifyKnowledge,
    folder_names: Seq<Seq<char>>,
    files: Seq<ScannedMedia>,
) -> ScanPlan {
    let saved = saved_keywords is Some;
    let aliases = alias_pairs(knowledge.aliases@);
    let excl = exclusion_keys_of(sviews(knowledge.creator_exclusions@));
    let folder = if !saved && srcs.contains("folder_name"@) { folder_keywords_of(folder_names) } else { Seq::empty() };
    let metadata = metadata_keywords_of(metas_of(files), srcs);
    let cands = match saved_keywords {
        Some(s) => s,
        None => folder + metadata + alias_names(knowledge.aliases@),
    };
    let ks = stable_sorted(kept_keywords(cands, d, aliases, excl), |a: Seq<char>, b: Seq<char>| keyword_before(a, b));
    let merged = merged_of(ks, saved);
    let finals = stable_sorted(distinct_targets(merged), |a: Seq<char>, b: Seq<char>| keyword_before(a, b));
    ScanPlan {
        saved,
        folder,
        metadata,
        merged,
        finals,
        ctx: ContextView { roots: paths, keywords: finals, folders: folder_entries(merged), aliases, saved, sources: srcs },
    }
}

/// A scan result that carries out `plan` over `files`: every scanned path is
/// filed exactly as often as it was scanned, in a group or among the unmatched.
pub open spec fn result_fits(res: MediaClassifyResult, plan: ScanPlan, files: Seq<ScannedMedia>) -> bool {
    let anchors = anchors_of(files, plan.ctx);
    let n = files.len() as int;
    &&& res.scanned_count == files.len()
    &&& res.no_match_count == res.unmatched_files@.len()
    &&& res.total_keywords == res.groups@.len()
    &&& forall|g: int| 0 <= g < res.groups@.len() ==> group_fits(#[trigger] res.groups@[g], files, n, plan.ctx, anchors)
        && group_finished(res.groups@[g])
    &&& forall|a: int, b: int| 0 <= a < b < res.groups@.len() ==> lex_lt(#[trigger] res.groups@[a].keyword@, #[trigger] res.groups@[b].keyword@)
    &&& forall|k: int| 0 <= k < res.unmatched_files@.len() ==> from_file(#[trigger] res.unmatched_files@[k], files, n, plan.ctx, anchors, false)
    &&& sorted_by(res.unmatched_files@, by_name())
    &&& grouped_count(res.groups@) + res.unmatched_files@.len() == files.len()
    &&& grouped_paths(res.groups@).add(entry_paths(res.unmatched_files@).to_multiset()) == scanned_paths(files).to_multiset()
    &&& res.keywords@.len() == plan.finals.len()
    &&& forall|i: int| 0 <= i < res.keywords@.len() ==> info_fits(#[trigger] res.keywords@[i],
        stable_sorted(plan.finals, |a: Seq<char>, b: Seq<char>| lex_lt(a, b))[i], plan.merged, plan.folder, plan.metadata, plan.saved, res.groups@)
}

/// The views of a curated keyword list, if any.
pub open spec fn saved_views(o: Option<Vec<String>>) -> Option<Seq<Seq<char>>> {
    match o {
        Some(s) => Some(sviews(s@)),
        None => None,
    }
}

/// The unmatched files by name, each still drawn from a scanned file.
fn sort_unmatched(v: Vec<MediaFile>, Ghost(files): Ghost<Seq<ScannedMedia>>, Ghost(ctx): Ghost<ContextView>, Ghost(anchors): Ghost<Seq<(Seq<char>, Seq<char>)>>) -> (r: Vec<MediaFile>)
    requires
        forall|k: int| 0 <= k < v@.len() ==> from_file(#[trigger] v@[k], files, files.len() as int, ctx, anchors, false),
    ensures
        r@.len() == v@.len(),
        sorted_by(r@, by_name()),
        forall|k: int| 0 <= k < r@.len() ==> from_file(#[trigger] r@[k], files, files.len() as int, ctx, anchors, false),
        entry_paths(r@).to_multiset() == entry_paths(v@).to_multiset(),
{
    let ghost v0 = v@;
    let r = sort_by_file_name(v);
    proof {
        let f = |m: MediaFile| m.path@;
        crate::order::lemma_stable_sorted_map_multiset(v0, by_name(), f);
        assert(entry_paths(r@) =~= r@.map_values(f));
        assert(entry_paths(v0) =~= v0.map_values(f));
        lemma_name_order();
        lemma_stable_sorted_elems(v0, by_name());
        lemma_stable_sorted_props(v0, by_name());
        assert forall|k: int| 0 <= k < r@.len() implies from_file(#[trigger] r@[k], files, files.len() as int, ctx, anchors, false) by {
            assert(r@.contains(r@[k]));
            assert(v0.contains(r@[k]));
            let w = choose|w: int| 0 <= w < v0.len() && v0[w] == r@[k];
            assert(from_file(v0[w], files, files.len() as int, ctx, anchors, false));
        }
    }
    r
}

/// Classifies scanned files. `folder_names` are the names of the folders
/// directly under the scan roots; `files` are the scanned media with their
/// metadata, each once. Refuses an unknown dimension, and a dimension left with
/// no usable keyword source.
pub fn scan_media_with_keywords(
    task_id: String,
    paths: Vec<String>,
    keyword_sources: &Vec<String>,
    classification_dimension: &str,
    saved_keywords: Option<Vec<String>>,
    knowledge: &MediaClassifyKnowledge,
    folder_names: &Vec<String>,
    files: &Vec<ScannedMedia>,
) -> (r: Result<MediaClassifyResult, String>)
    ensures
        match dimension_of(lowercase(trim(classification_dimension@))) {
            None => r is Err,
            Some(d) => {
                let srcs = usable_sources(d, sviews(keyword_sources@));
                if srcs.len() == 0 {
                    r matches Err(e) && e@ == no_sources_message(d)
                } else {
                    r matches Ok(res) && res.task_id == task_id && res.source_paths@ == paths@
                        && res.classification_dimension@ == dimension_text(d)
                        && result_fits(res, scan_plan(d, srcs, sviews(paths@), saved_views(saved_keywords), *knowledge, sviews(folder_names@), files@), files@)
                }
            },
        },
{
    let dimension = match ClassificationDimension::parse(classification_dimension) {
        Ok(d) => d,
        Err(e) => { return Err(e); },
    };
    let sources = match prepare_sources(dimension, keyword_sources) {
        Ok(s) => s,
        Err(e) => { return Err(e); },
    };
    let ghost srcs = sviews(sources@);
    let ghost plan = scan_plan(dimension, srcs, sviews(paths@), saved_views(saved_keywords), *knowledge, sviews(folder_names@), files@);
    let alias_map = build_alias_map(&knowledge.aliases);
    let exclusions = exclusion_keys(&knowledge.creator_exclusions);
    let saved = saved_keywords.is_some();
    let folder_keywords = if !saved && contains_str(&sources, "folder_name") {
        collect_folder_keywords(folder_names)
    } else {
        Vec::new()
    };
    assert(sviews(folder_keywords@) == plan.folder);
    let meta_keywords = metadata_keywords(files, &sources);
    let candidates = match &saved_keywords {
        Some(s) => clone_strings(s),
        None => keyword_candidates(&folder_keywords, &meta_keywords, &knowledge.aliases),
    };
    assert(sviews(candidates@) == match saved_views(saved_keywords) {
        Some(s) => s,
        None => plan.folder + plan.metadata + alias_names(knowledge.aliases@),
    });
    let all_keywords = combine_keywords(&candidates, dimension, &alias_map, &exclusions);
    let merged = merged_pairs(&all_keywords, saved);
    assert(pair_views(merged@) == plan.merged);
    let finals = final_keywords(&merged);
    let folders = build_normalized_keyword_map(&merged);
    assert(folders@ =~= folder_entries(plan.merged));
    let ctx = ClassifyContext {
        roots: clone_strings(&paths),
        keywords: finals,
        folders,
        aliases: alias_map,
        saved,
        sources,
    };
    assert(ctx@ == plan.ctx);
    let covers = build_cover_art_evidence(files, &ctx);
    let ghost anchors = anchor_views(covers.anchors@);
    let (grouped, unmatched) = group_media_files(files, &ctx, &covers);
    let groups = finish_groups(&grouped, Ghost(files@), Ghost(ctx@), Ghost(anchors));
    let unmatched = sort_unmatched(unmatched, Ghost(files@), Ghost(ctx@), Ghost(anchors));
    let lex_finals = sort_texts(clone_strings(&ctx.keywords));
    let keywords = keyword_infos(&lex_finals, &merged, &folder_keywords, &meta_keywords, saved, &groups);
    let res = MediaClassifyResult {
        task_id,
        source_paths: paths,
        classification_dimension: owned(dimension.as_str()),
        scanned_count: files.len() as u64,
        total_keywords: groups.len() as u64,
        no_match_count: unmatched.len() as u64,
        unmatched_files: unmatched,
        keywords,
        groups,
    };
    proof { lemma_stable_sorted_len(plan.finals, |a: Seq<char>, b: Seq<char>| lex_lt(a, b)); }
    assert(sviews(lex_finals@).len() == lex_finals@.len());
    assert(res.keywords@.len() == plan.finals.len());
    assert(result_fits(res, plan, files@));
    Ok(res)
}

// ---------------------------------------------------------- media files

/// A file a scan takes: a known media kind, of a requested kind when kinds are given.
pub open spec fn media_selected(path: Seq<char>, filters: Seq<Seq<char>>) -> bool {
    match crate::metadata::media_type_of(path) {
        Some(t) => filters.len() == 0 || filters.contains(crate::metadata::media_type_text(t)),
        None => false,
    }
}

/// The files a scan takes, each path once (the first kept), in order.
pub open spec fn media_files_of(raw: Seq<(Seq<char>, u64)>, filters: Seq<Seq<char>>) -> Seq<(Seq<char>, u64)>
    decreases raw.len(),
{
    if raw.len() == 0 {
        Seq::empty()
    } else {
        let prev = media_files_of(raw.drop_last(), filters);
        let f = raw.last();
        if media_selected(f.0, filters) && !prev.map_values(|p: (Seq<char>, u64)| p.0).contains(f.0) {
            prev.push(f)
        } else {
            prev
        }
    }
}

/// The scanned files of the requested media kinds (all kinds when none is
/// requested), without repeated paths.
pub fn select_media_files(raw: &Vec<(String, u64)>, media_types: &Vec<String>) -> (r: Vec<(String, u64)>)
    ensures
        crate::tag_cleanup::raw_views(r@) == media_files_of(crate::tag_cleanup::raw_views(raw@), crate::classify::media_filters(sviews(media_types@))),
{
    let filters = crate::classify::normalize_media_filters(media_types);
    let ghost fs = sviews(filters@);
    let ghost f = crate::tag_cleanup::raw_views(raw@);
    let mut r: Vec<(String, u64)> = Vec::new();
    let mut seen: Vec<String> = Vec::new();
    let mut i: usize = 0;
    while i < raw.len()
        invariant
            i <= raw.len(),
            f == crate::tag_cleanup::raw_views(raw@),
            fs == sviews(filters@),
            crate::tag_cleanup::raw_views(r@) == media_files_of(f.take(i as int), fs),
            sviews(seen@) == media_files_of(f.take(i as int), fs).map_values(|p: (Seq<char>, u64)| p.0),
        decreases raw.len() - i,
    {
        assert(f.take(i + 1).drop_last() =~= f.take(i as int));
        assert(f.take(i + 1).last() == (raw@[i as int].0@, raw@[i as int].1));
        let p = raw[i].0.as_str();
        let selected = match crate::metadata::get_media_type(p) {
            Some(t) => filters.len() == 0 || contains_str(&filters, crate::metadata::media_type_name(t)),
            None => false,
        };
        if selected && !contains_str(&seen, p) {
            let ghost r0 = r@;
            let ghost s0 = seen@;
            let ghost prev = media_files_of(f.take(i as int), fs);
            r.push((raw[i].0.clone(), raw[i].1));
            seen.push(raw[i].0.clone());
            assert(crate::tag_cleanup::raw_views(r@) =~= crate::tag_cleanup::raw_views(r0).push((raw@[i as int].0@, raw@[i as int].1)));
            assert(sviews(seen@) =~= sviews(s0).push(raw@[i as int].0@));
            assert(prev.push((raw@[i as int].0@, raw@[i as int].1)).map_values(|p: (Seq<char>, u64)| p.0)
                =~= prev.map_values(|p: (Seq<char>, u64)| p.0).push(raw@[i as int].0@));
        }
        i = i + 1;
    }
    assert(f.take(raw.len() as int) =~= f);
    r
}

} // verus!
