//! The media classification knowledge base: learned aliases, excluded creators
//! and saved keyword groups, and how each request changes them.
use vstd::prelude::*;
use crate::classify::pair_views;
use crate::clock::now_rfc3339;
use crate::ids::new_uuid;
use crate::models::{AliasLearningHint, KeywordAlias, KeywordGroupSaveRequest, MediaClassifyKnowledge, MediaKeywordGroup};
use crate::order::{compare_chars, lemma_stable_sorted_map, lex_lt, sort_by, stable_sorted};
use crate::text::{
    chars_of, clone_strings, contains_str, lowercase, lower_chars, match_key, normalize_match_text, owned, str_eq,
    str_to_lowercase, string_of, sviews, trim, trim_ws,
};

verus! {

/// A text as the alias list compares it: trimmed and lowercased.
pub open spec fn alias_key(s: Seq<char>) -> Seq<char> {
    lowercase(trim(s))
}

fn normalize(value: &str) -> (r: Vec<char>)
    ensures
        r@ == alias_key(value@),
{
    let v = chars_of(value);
    let t = trim_ws(&v);
    lower_chars(&t)
}

fn trimmed_string(value: &str) -> (r: String)
    ensures
        r@ == trim(value@),
{
    let v = chars_of(value);
    let t = trim_ws(&v);
    string_of(&t)
}

// ----------------------------------------------------------- keywords

/// Texts kept from `ks`: trimmed, of at least two characters, with a match key
/// that is not empty when `need_key` (a group's keywords ask it, the excluded
/// creators do not), not excluded, each match key once (the first kept), in the
/// order given.
pub open spec fn kept_group_keywords(ks: Seq<Seq<char>>, exclusions: Option<Seq<Seq<char>>>, need_key: bool) -> Seq<Seq<char>>
    decreases ks.len(),
{
    if ks.len() == 0 {
        Seq::empty()
    } else {
        let prev = kept_group_keywords(ks.drop_last(), exclusions, need_key);
        let v = trim(ks.last());
        let n = match_key(v);
        if v.len() >= 2 && (!need_key || n.len() > 0) && !(exclusions matches Some(e) && e.contains(n))
            && !prev.map_values(|x: Seq<char>| match_key(x)).contains(n) {
            prev.push(v)
        } else {
            prev
        }
    }
}

/// Texts ordered by their match keys; stable.
pub open spec fn key_order() -> spec_fn(Seq<char>, Seq<char>) -> bool {
    |a: Seq<char>, b: Seq<char>| lex_lt(match_key(a), match_key(b))
}

fn sort_by_match_key(v: Vec<String>) -> (r: Vec<String>)
    ensures
        sviews(r@) == stable_sorted(sviews(v@), key_order()),
{
    let ghost v0 = v@;
    let less = |a: &String, b: &String| -> (r: bool)
        ensures
            r == lex_lt(match_key(a@), match_key(b@)),
        {
            let x = chars_of(normalize_match_text(a.as_str()).as_str());
            let y = chars_of(normalize_match_text(b.as_str()).as_str());
            compare_chars(&x, &y) < 0
        };
    let ghost lt = |a: String, b: String| lex_lt(match_key(a@), match_key(b@));
    let r = sort_by(v, less, Ghost(lt));
    proof {
        let f = |s: String| s@;
        lemma_stable_sorted_map(v0, f, lt, key_order());
        assert(sviews(v0) =~= v0.map_values(f));
        assert(sviews(r@) =~= r@.map_values(f));
    }
    r
}

/// The keywords of a group: kept as `kept_group_keywords` says, then ordered by match key.
pub fn normalize_keywords(keywords: &Vec<String>, exclusions: Option<&Vec<String>>, need_key: bool) -> (r: Vec<String>)
    ensures
        sviews(r@) == stable_sorted(kept_group_keywords(sviews(keywords@), match exclusions {
            Some(e) => Some(sviews(e@)),
            None => None,
        }, need_key), key_order()),
{
    let ghost ks = sviews(keywords@);
    let ghost ex = match exclusions { Some(e) => Some(sviews(e@)), None => None };
    let mut kept: Vec<String> = Vec::new();
    let mut keys: Vec<String> = Vec::new();
    let mut i: usize = 0;
    while i < keywords.len()
        invariant
            i <= keywords.len(),
            ks == sviews(keywords@),
            ex == (match exclusions { Some(e) => Some(sviews(e@)), None => None::<Seq<Seq<char>>> }),
            sviews(kept@) == kept_group_keywords(ks.take(i as int), ex, need_key),
            sviews(keys@) == sviews(kept@).map_values(|x: Seq<char>| match_key(x)),
        decreases keywords.len() - i,
    {
        assert(ks.take(i + 1).drop_last() =~= ks.take(i as int));
        assert(ks.take(i + 1).last() == keywords@[i as int]@);
        let value = trimmed_string(keywords[i].as_str());
        let vc = chars_of(value.as_str());
        let norm = normalize_match_text(value.as_str());
        let nc = chars_of(norm.as_str());
        let excluded = match exclusions {
            Some(e) => contains_str(e, norm.as_str()),
            None => false,
        };
        if vc.len() >= 2 && (!need_key || nc.len() > 0) && !excluded && !contains_str(&keys, norm.as_str()) {
            let ghost k0 = keys@;
            let ghost p0 = kept@;
            kept.push(value);
            keys.push(norm);
            assert(sviews(keys@) =~= sviews(k0).push(match_key(trim(keywords@[i as int]@))));
            assert(sviews(kept@) =~= sviews(p0).push(trim(keywords@[i as int]@)));
            assert(sviews(kept@).map_values(|x: Seq<char>| match_key(x)) =~= sviews(p0).map_values(
                |x: Seq<char>| match_key(x),
            ).push(match_key(trim(keywords@[i as int]@))));
        }
        i = i + 1;
    }
    assert(ks.take(keywords.len() as int) =~= ks);
    sort_by_match_key(kept)
}

// ------------------------------------------------------------ sources

/// The sources a dimension named by text allows.
pub open spec fn source_valid(dimension: Seq<char>, s: Seq<char>) -> bool {
    if dimension == "all"@ {
        s == "folder_name"@ || s == "artist"@ || s == "album_artist"@ || s == "album"@ || s == "composer"@
    } else if dimension == "creator"@ {
        s == "folder_name"@ || s == "artist"@ || s == "album_artist"@ || s == "composer"@
    } else if dimension == "album"@ {
        s == "folder_name"@ || s == "album"@
    } else if dimension == "folder"@ {
        s == "folder_name"@
    } else {
        false
    }
}

/// The valid sources, trimmed and lowercased, each once, in order.
pub open spec fn group_sources(sources: Seq<Seq<char>>, dimension: Seq<char>) -> Seq<Seq<char>>
    decreases sources.len(),
{
    if sources.len() == 0 {
        Seq::empty()
    } else {
        let prev = group_sources(sources.drop_last(), dimension);
        let s = lowercase(trim(sources.last()));
        if source_valid(dimension, s) && !prev.contains(s) { prev.push(s) } else { prev }
    }
}

fn valid_source(dimension: &str, s: &str) -> (r: bool)
    ensures
        r == source_valid(dimension@, s@),
{
    if str_eq(dimension, "all") {
        str_eq(s, "folder_name") || str_eq(s, "artist") || str_eq(s, "album_artist") || str_eq(s, "album") || str_eq(s, "composer")
    } else if str_eq(dimension, "creator") {
        str_eq(s, "folder_name") || str_eq(s, "artist") || str_eq(s, "album_artist") || str_eq(s, "composer")
    } else if str_eq(dimension, "album") {
        str_eq(s, "folder_name") || str_eq(s, "album")
    } else if str_eq(dimension, "folder") {
        str_eq(s, "folder_name")
    } else {
        false
    }
}

pub fn normalize_sources(sources: &Vec<String>, dimension: &str) -> (r: Vec<String>)
    ensures
        sviews(r@) == group_sources(sviews(sources@), dimension@),
{
    let ghost f = sviews(sources@);
    let mut r: Vec<String> = Vec::new();
    let mut i: usize = 0;
    while i < sources.len()
        invariant
            i <= sources.len(),
            f == sviews(sources@),
            sviews(r@) == group_sources(f.take(i as int), dimension@),
        decreases sources.len() - i,
    {
        assert(f.take(i + 1).drop_last() =~= f.take(i as int));
        assert(f.take(i + 1).last() == sources@[i as int]@);
        let t = trimmed_string(sources[i].as_str());
        let s = str_to_lowercase(t.as_str());
        if valid_source(dimension, s.as_str()) && !contains_str(&r, s.as_str()) {
            let ghost r0 = r@;
            r.push(s);
            assert(sviews(r@) =~= sviews(r0).push(lowercase(trim(sources@[i as int]@))));
        }
        i = i + 1;
    }
    assert(f.take(sources.len() as int) =~= f);
    r
}

/// No two of the texts share a match key.
pub open spec fn distinct_match_keys(s: Seq<Seq<char>>) -> bool {
    forall|i: int, j: int| 0 <= i < j < s.len() ==> match_key(#[trigger] s[i]) != match_key(#[trigger] s[j])
}

proof fn lemma_key_order()
    ensures
        crate::order::strict_order(key_order()),
{
    assert forall|a: Seq<char>, b: Seq<char>| #[trigger] key_order()(a, b) implies !key_order()(b, a) by {
        crate::order::lemma_lex_asymmetric(match_key(a), match_key(b));
    }
    assert forall|a: Seq<char>, b: Seq<char>, c: Seq<char>| #[trigger] key_order()(a, b) && #[trigger] key_order()(b, c) implies key_order()(a, c) by {
        crate::order::lemma_lex_transitive(match_key(a), match_key(b), match_key(c));
    }
}

proof fn lemma_kept_distinct(ks: Seq<Seq<char>>, exclusions: Option<Seq<Seq<char>>>, need_key: bool)
    ensures
        distinct_match_keys(kept_group_keywords(ks, exclusions, need_key)),
    decreases ks.len(),
{
    if ks.len() > 0 {
        lemma_kept_distinct(ks.drop_last(), exclusions, need_key);
        let prev = kept_group_keywords(ks.drop_last(), exclusions, need_key);
        let v = trim(ks.last());
        let n = match_key(v);
        let keys = prev.map_values(|x: Seq<char>| match_key(x));
        if v.len() >= 2 && (!need_key || n.len() > 0) && !(exclusions matches Some(e) && e.contains(n)) && !keys.contains(n) {
            let r = prev.push(v);
            assert forall|i: int, j: int| 0 <= i < j < r.len() implies match_key(#[trigger] r[i]) != match_key(#[trigger] r[j]) by {
                if j == prev.len() {
                    assert(keys[i] == match_key(prev[i]));
                    assert(r[i] == prev[i]);
                } else {
                    assert(r[i] == prev[i] && r[j] == prev[j]);
                }
            }
        }
    }
}

proof fn lemma_sorted_distinct(s: Seq<Seq<char>>)
    requires
        distinct_match_keys(s),
    ensures
        distinct_match_keys(stable_sorted(s, key_order())),
    decreases s.len(),
{
    if s.len() > 0 {
        let d = s.drop_last();
        assert(distinct_match_keys(d)) by {
            assert forall|i: int, j: int| 0 <= i < j < d.len() implies match_key(#[trigger] d[i]) != match_key(#[trigger] d[j]) by {
                assert(d[i] == s[i] && d[j] == s[j]);
            }
        }
        lemma_sorted_distinct(d);
        lemma_key_order();
        crate::order::lemma_stable_sorted_elems(d, key_order());
        let p = stable_sorted(d, key_order());
        let x = s.last();
        crate::order::lemma_stable_sorted_len(d, key_order());
        crate::order::lemma_insert_pos_range(p, x, key_order(), 0);
        let pos = crate::order::insert_pos(p, x, key_order(), 0);
        let r = p.insert(pos, x);
        assert forall|k: int| 0 <= k < p.len() implies match_key(#[trigger] p[k]) != match_key(x) by {
            assert(p.contains(p[k]));
            assert(d.contains(p[k]));
            let m = choose|m: int| 0 <= m < d.len() && d[m] == p[k];
            assert(s[m] == d[m]);
            assert(s[s.len() - 1] == x);
        }
        assert forall|i: int, j: int| 0 <= i < j < r.len() implies match_key(#[trigger] r[i]) != match_key(#[trigger] r[j]) by {
            if i < pos && j < pos {
                assert(r[i] == p[i] && r[j] == p[j]);
            } else if i < pos && j == pos {
                assert(r[i] == p[i] && r[j] == x);
            } else if i < pos && j > pos {
                assert(r[i] == p[i] && r[j] == p[j - 1]);
            } else if i == pos {
                assert(r[i] == x && r[j] == p[j - 1]);
            } else {
                assert(r[i] == p[i - 1] && r[j] == p[j - 1]);
            }
        }
    }
}

/// The keywords of a group, and the excluded creators, never hold two texts with
/// the same match key (the same text but for case and whitespace).
pub proof fn lemma_saved_keywords_distinct(ks: Seq<Seq<char>>, exclusions: Option<Seq<Seq<char>>>)
    ensures
        distinct_match_keys(stable_sorted(kept_group_keywords(ks, exclusions, true), key_order())),
        distinct_match_keys(cleaned_exclusions(ks)),
{
    lemma_kept_distinct(ks, exclusions, true);
    lemma_sorted_distinct(kept_group_keywords(ks, exclusions, true));
    lemma_kept_distinct(ks, None, false);
    lemma_sorted_distinct(kept_group_keywords(ks, None, false));
}

// ------------------------------------------------------------ exclusions

/// Excluded creators as saved: trimmed, of at least two characters, each
/// match key once (the first kept), ordered by match key.
pub open spec fn cleaned_exclusions(ks: Seq<Seq<char>>) -> Seq<Seq<char>> {
    stable_sorted(kept_group_keywords(ks, None, false), key_order())
}

/// The saved creator exclusions increase strictly by match key: sorted, and no
/// two share a key.
pub proof fn lemma_exclusions_strictly_increasing(ks: Seq<Seq<char>>)
    ensures
        forall|a: int, b: int| 0 <= a < b < cleaned_exclusions(ks).len() ==>
            lex_lt(match_key(#[trigger] cleaned_exclusions(ks)[a]), match_key(#[trigger] cleaned_exclusions(ks)[b])),
{
    let c = cleaned_exclusions(ks);
    lemma_saved_keywords_distinct(ks, None);
    lemma_key_order();
    crate::order::lemma_stable_sorted_props(kept_group_keywords(ks, None, false), key_order());
    assert forall|a: int, b: int| 0 <= a < b < c.len() implies lex_lt(match_key(#[trigger] c[a]), match_key(#[trigger] c[b])) by {
        assert(!key_order()(c[b], c[a]));
        crate::order::lemma_lex_total(match_key(c[a]), match_key(c[b]));
    }
}

/// A text that can be saved as an excluded creator: of at least two characters
/// once trimmed.
pub open spec fn eligible_exclusion(w: Seq<char>) -> bool {
    trim(w).len() >= 2
}

/// `ks[t]` can be saved, and no text before it that can be saved has its match key.
pub open spec fn first_of_class(ks: Seq<Seq<char>>, t: int) -> bool {
    &&& eligible_exclusion(ks[t])
    &&& forall|u: int| 0 <= u < t && eligible_exclusion(#[trigger] ks[u]) ==> match_key(trim(ks[u])) != match_key(trim(ks[t]))
}

/// The text at place `i` of `saved` is the trimmed form of a given text that is
/// the first of its match key that can be saved.
pub open spec fn first_of_class_at(ks: Seq<Seq<char>>, saved: Seq<Seq<char>>, i: int) -> bool {
    exists|t: int| #![trigger first_of_class(ks, t)] 0 <= t < ks.len() && first_of_class(ks, t) && saved[i] == trim(ks[t])
}

proof fn lemma_kept_cover(ks: Seq<Seq<char>>)
    ensures
        forall|t: int| 0 <= t < ks.len() && eligible_exclusion(#[trigger] ks[t]) ==> exists|i: int|
            0 <= i < kept_group_keywords(ks, None, false).len() && match_key(#[trigger] kept_group_keywords(ks, None, false)[i]) == match_key(trim(ks[t])),
    decreases ks.len(),
{
    if ks.len() > 0 {
        let k0 = ks.drop_last();
        lemma_kept_cover(k0);
        let prev = kept_group_keywords(k0, None, false);
        let kept = kept_group_keywords(ks, None, false);
        let last = ks.len() - 1;
        let v = trim(ks.last());
        let n = match_key(v);
        let keys = prev.map_values(|x: Seq<char>| match_key(x));
        let pushed = v.len() >= 2 && !keys.contains(n);
        assert forall|t: int| 0 <= t < ks.len() && eligible_exclusion(#[trigger] ks[t]) implies exists|i: int|
            0 <= i < kept.len() && match_key(#[trigger] kept[i]) == match_key(trim(ks[t])) by {
            if t < last {
                assert(ks[t] == k0[t]);
                let i = choose|i: int| 0 <= i < prev.len() && match_key(#[trigger] prev[i]) == match_key(trim(k0[t]));
                assert(kept[i] == prev[i]);
            } else if pushed {
                assert(kept[prev.len() as int] == v);
            } else {
                let i = choose|i: int| 0 <= i < keys.len() && keys[i] == n;
                assert(keys[i] == match_key(prev[i]));
                assert(kept[i] == prev[i]);
            }
        }
    }
}

proof fn lemma_kept_first(ks: Seq<Seq<char>>)
    ensures
        forall|i: int| 0 <= i < kept_group_keywords(ks, None, false).len() ==> #[trigger] first_of_class_at(ks, kept_group_keywords(ks, None, false), i),
    decreases ks.len(),
{
    if ks.len() == 0 {
        assert(kept_group_keywords(ks, None, false).len() == 0);
    } else {
        let k0 = ks.drop_last();
        lemma_kept_first(k0);
        let prev = kept_group_keywords(k0, None, false);
        let kept = kept_group_keywords(ks, None, false);
        let last = ks.len() - 1;
        let v = trim(ks.last());
        let n = match_key(v);
        let keys = prev.map_values(|x: Seq<char>| match_key(x));
        assert forall|i: int| 0 <= i < kept.len() implies #[trigger] first_of_class_at(ks, kept, i) by {
            if i < prev.len() {
                assert(kept[i] == prev[i]);
                assert(first_of_class_at(k0, prev, i));
                let t = choose|t: int| #![trigger first_of_class(k0, t)] 0 <= t < k0.len() && first_of_class(k0, t) && prev[i] == trim(k0[t]);
                assert(ks[t] == k0[t]);
                assert forall|u: int| 0 <= u < t && eligible_exclusion(#[trigger] ks[u]) implies match_key(trim(ks[u])) != match_key(trim(ks[t])) by {
                    assert(ks[u] == k0[u]);
                }
                assert(first_of_class(ks, t));
                assert(kept[i] == trim(ks[t]));
            } else {
                assert(kept[i] == v);
                assert forall|u: int| 0 <= u < last && eligible_exclusion(#[trigger] ks[u]) implies match_key(trim(ks[u])) != match_key(trim(ks[last])) by {
                    assert(ks[u] == k0[u]);
                    lemma_kept_cover(k0);
                    let j = choose|j: int| 0 <= j < prev.len() && match_key(#[trigger] prev[j]) == match_key(trim(k0[u]));
                    assert(keys[j] == match_key(prev[j]));
                }
                assert(first_of_class(ks, last));
                assert(kept[i] == trim(ks[last]));
            }
        }
    }
}

/// What is saved as excluded creators, for the texts given in order: each saved
/// text is the trimmed form of the first given text of its match key that can
/// be saved, and every match key of a text that can be saved is saved once.
pub proof fn lemma_exclusions_first_of_class(ks: Seq<Seq<char>>)
    ensures
        forall|i: int| 0 <= i < cleaned_exclusions(ks).len() ==> #[trigger] first_of_class_at(ks, cleaned_exclusions(ks), i),
        forall|t: int| 0 <= t < ks.len() && eligible_exclusion(#[trigger] ks[t]) ==> exists|i: int|
            0 <= i < cleaned_exclusions(ks).len() && match_key(#[trigger] cleaned_exclusions(ks)[i]) == match_key(trim(ks[t])),
        distinct_match_keys(cleaned_exclusions(ks)),
{
    let kept = kept_group_keywords(ks, None, false);
    let c = cleaned_exclusions(ks);
    lemma_key_order();
    crate::order::lemma_stable_sorted_elems(kept, key_order());
    lemma_saved_keywords_distinct(ks, None);
    assert forall|i: int| 0 <= i < c.len() implies #[trigger] first_of_class_at(ks, c, i) by {
        lemma_kept_first(ks);
        assert(c.contains(c[i]));
        assert(kept.contains(c[i]));
        let j = choose|j: int| 0 <= j < kept.len() && kept[j] == c[i];
        assert(first_of_class_at(ks, kept, j));
        let t = choose|t: int| #![trigger first_of_class(ks, t)] 0 <= t < ks.len() && first_of_class(ks, t) && kept[j] == trim(ks[t]);
        assert(first_of_class(ks, t) && c[i] == trim(ks[t]));
    }
    assert forall|t: int| 0 <= t < ks.len() && eligible_exclusion(#[trigger] ks[t]) implies exists|i: int|
        0 <= i < c.len() && match_key(#[trigger] c[i]) == match_key(trim(ks[t])) by {
        lemma_kept_cover(ks);
        let j = choose|j: int| 0 <= j < kept.len() && match_key(#[trigger] kept[j]) == match_key(trim(ks[t]));
        assert(kept.contains(kept[j]));
        assert(c.contains(kept[j]));
        let i = choose|i: int| 0 <= i < c.len() && c[i] == kept[j];
        assert(match_key(c[i]) == match_key(trim(ks[t])));
    }
}

/// Replaces the excluded creators; returns the list as saved.
pub fn save_creator_exclusions(knowledge: &mut MediaClassifyKnowledge, keywords: &Vec<String>) -> (r: Vec<String>)
    ensures
        sviews(r@) == cleaned_exclusions(sviews(keywords@)),
        final(knowledge).creator_exclusions@ == r@,
        final(knowledge).aliases == old(knowledge).aliases,
        final(knowledge).keyword_groups == old(knowledge).keyword_groups,
{
    let cleaned = normalize_keywords(keywords, None, false);
    knowledge.creator_exclusions = clone_strings(&cleaned);
    cleaned
}

/// The excluded creators.
pub fn load_creator_exclusions(knowledge: &MediaClassifyKnowledge) -> (r: Vec<String>)
    ensures
        r@ == knowledge.creator_exclusions@,
{
    clone_strings(&knowledge.creator_exclusions)
}

// ---------------------------------------------------------------- aliases

/// An alias entry as values: alias, canonical name, confirmations, last update.
pub open spec fn alias_views(a: Seq<KeywordAlias>) -> Seq<(Seq<char>, Seq<char>, u64, Seq<char>)> {
    Seq::new(a.len(), |i: int| (a[i].alias@, a[i].canonical@, a[i].confirmations, a[i].updated_at@))
}

/// The first entry for the same alias and canonical name, compared trimmed and lowercased.
pub open spec fn entry_for(a: Seq<(Seq<char>, Seq<char>, u64, Seq<char>)>, alias: Seq<char>, canonical: Seq<char>) -> Option<int>
    decreases a.len(),
{
    if a.len() == 0 {
        None
    } else {
        match entry_for(a.drop_last(), alias, canonical) {
            Some(i) => Some(i),
            None => if alias_key(a.last().0) == alias_key(alias) && alias_key(a.last().1) == alias_key(canonical) {
                Some(a.len() - 1)
            } else {
                None
            },
        }
    }
}

/// The entries after one confirmed hint: a known pair counts one more
/// confirmation, a new pair is added with one; blank hints and hints that name
/// a keyword as its own alias change nothing.
pub open spec fn confirmed(a: Seq<(Seq<char>, Seq<char>, u64, Seq<char>)>, h: AliasLearningHint, now: Seq<char>) -> Seq<(Seq<char>, Seq<char>, u64, Seq<char>)> {
    let alias = trim(h.alias@);
    let canonical = trim(h.canonical@);
    if alias.len() == 0 || canonical.len() == 0 || alias_key(alias) == alias_key(canonical) {
        a
    } else {
        match entry_for(a, alias, canonical) {
            Some(i) => a.update(i, (a[i].0, a[i].1, if a[i].2 == u64::MAX { 0 } else { (a[i].2 + 1) as u64 }, now)),
            None => a.push((alias, canonical, 1, now)),
        }
    }
}

pub open spec fn confirmed_all(a: Seq<(Seq<char>, Seq<char>, u64, Seq<char>)>, hints: Seq<AliasLearningHint>, now: Seq<char>) -> Seq<(Seq<char>, Seq<char>, u64, Seq<char>)>
    decreases hints.len(),
{
    if hints.len() == 0 { a } else { confirmed(confirmed_all(a, hints.drop_last(), now), hints.last(), now) }
}

/// Alias entries ordered by their trimmed, lowercased alias; stable.
pub open spec fn alias_order() -> spec_fn((Seq<char>, Seq<char>, u64, Seq<char>), (Seq<char>, Seq<char>, u64, Seq<char>)) -> bool {
    |x: (Seq<char>, Seq<char>, u64, Seq<char>), y: (Seq<char>, Seq<char>, u64, Seq<char>)| lex_lt(alias_key(x.0), alias_key(y.0))
}

fn find_entry(a: &Vec<KeywordAlias>, alias: &str, canonical: &str) -> (r: Option<usize>)
    ensures
        match entry_for(alias_views(a@), alias@, canonical@) {
            Some(i) => r matches Some(k) && k as int == i,
            None => r is None,
        },
        r matches Some(k) ==> k < a@.len(),
        entry_for(alias_views(a@), alias@, canonical@) matches Some(i) ==> 0 <= i < a@.len(),
{
    proof { lemma_entry_for_range(alias_views(a@), alias@, canonical@); }
    let ka = normalize(alias);
    let kc = normalize(canonical);
    let ghost v = alias_views(a@);
    let mut i: usize = 0;
    assert(v.take(0) =~= Seq::<(Seq<char>, Seq<char>, u64, Seq<char>)>::empty());
    while i < a.len()
        invariant
            i <= a.len(),
            v == alias_views(a@),
            ka@ == alias_key(alias@),
            kc@ == alias_key(canonical@),
            entry_for(v.take(i as int), alias@, canonical@) is None,
        decreases a.len() - i,
    {
        assert(v.take(i + 1).drop_last() =~= v.take(i as int));
        assert(v.take(i + 1).last() == v[i as int]);
        let ea = normalize(a[i].alias.as_str());
        let ec = normalize(a[i].canonical.as_str());
        if crate::text::chars_eq(&ea, &ka) && crate::text::chars_eq(&ec, &kc) {
            proof { lemma_entry_for_prefix(v, i + 1, alias@, canonical@); }
            assert(entry_for(v.take(i + 1), alias@, canonical@) == Some(i as int));
            return Some(i);
        }
        i = i + 1;
    }
    assert(v.take(a.len() as int) =~= v);
    None
}

proof fn lemma_entry_for_range(v: Seq<(Seq<char>, Seq<char>, u64, Seq<char>)>, alias: Seq<char>, canonical: Seq<char>)
    ensures
        entry_for(v, alias, canonical) matches Some(i) ==> 0 <= i < v.len(),
    decreases v.len(),
{
    if v.len() > 0 {
        lemma_entry_for_range(v.drop_last(), alias, canonical);
    }
}

proof fn lemma_entry_for_prefix(v: Seq<(Seq<char>, Seq<char>, u64, Seq<char>)>, n: int, alias: Seq<char>, canonical: Seq<char>)
    requires
        0 <= n <= v.len(),
        entry_for(v.take(n), alias, canonical) is Some,
    ensures
        entry_for(v, alias, canonical) == entry_for(v.take(n), alias, canonical),
    decreases v.len() - n,
{
    if n < v.len() {
        assert(v.take(n + 1).drop_last() =~= v.take(n));
        lemma_entry_for_prefix(v, n + 1, alias, canonical);
    } else {
        assert(v.take(n) =~= v);
    }
}

/// Records hints that the user confirmed, at time `now`: each known alias pair
/// counts one more confirmation, a new one is added; the entries are then
/// ordered by alias. No hints, no change.
pub fn record_confirmations_at(knowledge: &mut MediaClassifyKnowledge, hints: &Vec<AliasLearningHint>, now: &str)
    ensures
        hints@.len() == 0 ==> *final(knowledge) == *old(knowledge),
        hints@.len() > 0 ==> alias_views(final(knowledge).aliases@) == stable_sorted(
            confirmed_all(alias_views(old(knowledge).aliases@), hints@, now@), alias_order()),
        final(knowledge).creator_exclusions == old(knowledge).creator_exclusions,
        final(knowledge).keyword_groups == old(knowledge).keyword_groups,
{
    if hints.len() == 0 {
        return;
    }
    let mut i: usize = 0;
    assert(hints@.take(0) =~= Seq::<AliasLearningHint>::empty());
    while i < hints.len()
        invariant
            i <= hints.len(),
            alias_views(knowledge.aliases@) == confirmed_all(alias_views(old(knowledge).aliases@), hints@.take(i as int), now@),
            knowledge.creator_exclusions == old(knowledge).creator_exclusions,
            knowledge.keyword_groups == old(knowledge).keyword_groups,
        decreases hints.len() - i,
    {
        assert(hints@.take(i + 1).drop_last() =~= hints@.take(i as int));
        assert(hints@.take(i + 1).last() == hints@[i as int]);
        let alias = trimmed_string(hints[i].alias.as_str());
        let canonical = trimmed_string(hints[i].canonical.as_str());
        let av = chars_of(alias.as_str());
        let cv = chars_of(canonical.as_str());
        let na = normalize(alias.as_str());
        let nc = normalize(canonical.as_str());
        let ghost prev = alias_views(knowledge.aliases@);
        if av.len() > 0 && cv.len() > 0 && !crate::text::chars_eq(&na, &nc) {
            let ghost before = alias_views(knowledge.aliases@);
            assert(alias@ == trim(hints@[i as int].alias@));
            assert(canonical@ == trim(hints@[i as int].canonical@));
            let found = find_entry(&knowledge.aliases, alias.as_str(), canonical.as_str());
            assert(found matches Some(k) ==> entry_for(before, alias@, canonical@) == Some(k as int));
            match found {
                Some(k) => {
                    let old_entry = &knowledge.aliases[k];
                    let entry = KeywordAlias {
                        alias: owned(old_entry.alias.as_str()),
                        canonical: owned(old_entry.canonical.as_str()),
                        confirmations: old_entry.confirmations.wrapping_add(1),
                        updated_at: owned(now),
                    };
                    knowledge.aliases.set(k, entry);
                    assert(alias_views(knowledge.aliases@) =~= before.update(k as int,
                        (before[k as int].0, before[k as int].1, if before[k as int].2 == u64::MAX { 0 } else { (before[k as int].2 + 1) as u64 }, now@)));
                    assert(entry_for(prev, trim(hints@[i as int].alias@), trim(hints@[i as int].canonical@)) == Some(k as int));
                    assert(alias_views(knowledge.aliases@) == confirmed(prev, hints@[i as int], now@));
                },
                None => {
                    knowledge.aliases.push(KeywordAlias { alias, canonical, confirmations: 1, updated_at: owned(now) });
                    assert(alias_views(knowledge.aliases@) =~= before.push((trim(hints@[i as int].alias@), trim(hints@[i as int].canonical@), 1, now@)));
                    assert(entry_for(prev, trim(hints@[i as int].alias@), trim(hints@[i as int].canonical@)) is None);
                    assert(alias_views(knowledge.aliases@) == confirmed(prev, hints@[i as int], now@));
                },
            }
        } else {
            assert(alias_views(knowledge.aliases@) == confirmed(prev, hints@[i as int], now@));
        }
        i = i + 1;
    }
    assert(hints@.take(hints.len() as int) =~= hints@);
    let mut aliases: Vec<KeywordAlias> = Vec::new();
    std::mem::swap(&mut aliases, &mut knowledge.aliases);
    let ghost a0 = aliases@;
    let less = |x: &KeywordAlias, y: &KeywordAlias| -> (r: bool)
        ensures
            r == lex_lt(alias_key(x.alias@), alias_key(y.alias@)),
        {
            let p = normalize(x.alias.as_str());
            let q = normalize(y.alias.as_str());
            compare_chars(&p, &q) < 0
        };
    let ghost lt = |x: KeywordAlias, y: KeywordAlias| lex_lt(alias_key(x.alias@), alias_key(y.alias@));
    let sorted = sort_by(aliases, less, Ghost(lt));
    proof {
        let f = |a: KeywordAlias| (a.alias@, a.canonical@, a.confirmations, a.updated_at@);
        lemma_stable_sorted_map(a0, f, lt, alias_order());
        assert(alias_views(a0) =~= a0.map_values(f));
        assert(alias_views(sorted@) =~= sorted@.map_values(f));
    }
    knowledge.aliases = sorted;
}

/// Records confirmed hints now.
pub fn record_confirmations(knowledge: &mut MediaClassifyKnowledge, hints: &Vec<AliasLearningHint>)
    ensures
        hints@.len() == 0 ==> *final(knowledge) == *old(knowledge),
        hints@.len() > 0 ==> exists|now: Seq<char>| alias_views(final(knowledge).aliases@) == stable_sorted(
            #[trigger] confirmed_all(alias_views(old(knowledge).aliases@), hints@, now), alias_order()),
        final(knowledge).creator_exclusions == old(knowledge).creator_exclusions,
        final(knowledge).keyword_groups == old(knowledge).keyword_groups,
{
    if hints.len() == 0 {
        return;
    }
    let now = now_rfc3339();
    record_confirmations_at(knowledge, hints, now.as_str());
}

// ---------------------------------------------------------- keyword groups

/// Groups ordered by lowercase name; stable.
pub open spec fn group_order() -> spec_fn(MediaKeywordGroup, MediaKeywordGroup) -> bool {
    |a: MediaKeywordGroup, b: MediaKeywordGroup| lex_lt(lowercase(a.name@), lowercase(b.name@))
}

fn sort_groups(v: Vec<MediaKeywordGroup>) -> (r: Vec<MediaKeywordGroup>)
    ensures
        r@ == stable_sorted(v@, group_order()),
{
    let less = |a: &MediaKeywordGroup, b: &MediaKeywordGroup| -> (r: bool)
        ensures
            r == lex_lt(lowercase(a.name@), lowercase(b.name@)),
        {
            let x = chars_of(str_to_lowercase(a.name.as_str()).as_str());
            let y = chars_of(str_to_lowercase(b.name.as_str()).as_str());
            compare_chars(&x, &y) < 0
        };
    sort_by(v, less, Ghost(group_order()))
}

/// The saved keyword groups, ordered by lowercase name.
pub fn load_keyword_groups(groups: Vec<MediaKeywordGroup>) -> (r: Vec<MediaKeywordGroup>)
    ensures
        r@ == stable_sorted(groups@, group_order()),
{
    sort_groups(groups)
}

/// Two groups with the same values.
pub open spec fn same_group(a: MediaKeywordGroup, b: MediaKeywordGroup) -> bool {
    &&& a.id == b.id
    &&& a.name == b.name
    &&& a.classification_dimension == b.classification_dimension
    &&& a.keyword_sources@ == b.keyword_sources@
    &&& a.keywords@ == b.keywords@
    &&& a.created_at == b.created_at
    &&& a.updated_at == b.updated_at
}

fn copy_group(g: &MediaKeywordGroup) -> (r: MediaKeywordGroup)
    ensures
        same_group(r, *g),
{
    MediaKeywordGroup {
        id: g.id.clone(),
        name: g.name.clone(),
        classification_dimension: g.classification_dimension.clone(),
        keyword_sources: clone_strings(&g.keyword_sources),
        keywords: clone_strings(&g.keywords),
        created_at: g.created_at.clone(),
        updated_at: g.updated_at.clone(),
    }
}

/// The id of the group a request edits: its id, unless blank.
pub open spec fn editing_id(request: KeywordGroupSaveRequest) -> Option<Seq<char>> {
    match request.id {
        Some(id) => if trim(id@).len() > 0 { Some(id@) } else { None },
        None => None,
    }
}

/// Another group (not the one edited) already has the name, up to case and spaces.
pub open spec fn name_taken(groups: Seq<MediaKeywordGroup>, name: Seq<char>, editing: Option<Seq<char>>) -> bool {
    exists|i: int| 0 <= i < groups.len() && Some(#[trigger] groups[i].id@) != editing && match_key(groups[i].name@) == match_key(name)
}

pub open spec fn dimension_valid(d: Seq<char>) -> bool {
    d == "all"@ || d == "creator"@ || d == "album"@ || d == "folder"@
}

/// The saved group's values: name, dimension, sources and keywords as normalised.
pub open spec fn group_values(g: MediaKeywordGroup, request: KeywordGroupSaveRequest, exclusions: Seq<Seq<char>>) -> bool {
    let d = lowercase(trim(request.classification_dimension@));
    &&& g.name@ == trim(request.name@)
    &&& g.classification_dimension@ == d
    &&& sviews(g.keyword_sources@) == group_sources(sviews(request.keyword_sources@), d)
    &&& sviews(g.keywords@) == stable_sorted(kept_group_keywords(sviews(request.keywords@),
        if d == "all"@ || d == "creator"@ { Some(exclusion_match_keys(exclusions)) } else { None }, true), key_order())
}

/// The match keys of the excluded creators.
pub open spec fn exclusion_match_keys(ex: Seq<Seq<char>>) -> Seq<Seq<char>> {
    Seq::new(ex.len(), |i: int| match_key(ex[i]))
}

fn exclusion_keys(ex: &Vec<String>) -> (r: Vec<String>)
    ensures
        sviews(r@) == exclusion_match_keys(sviews(ex@)),
{
    let mut r: Vec<String> = Vec::new();
    let mut i: usize = 0;
    while i < ex.len()
        invariant
            i <= ex.len(),
            sviews(r@) =~= exclusion_match_keys(sviews(ex@.take(i as int))),
        decreases ex.len() - i,
    {
        let ghost r0 = r@;
        r.push(normalize_match_text(ex[i].as_str()));
        assert(sviews(r@) =~= sviews(r0).push(match_key(ex@[i as int]@)));
        i = i + 1;
    }
    assert(ex@.take(ex.len() as int) =~= ex@);
    r
}

fn find_group_index(groups: &Vec<MediaKeywordGroup>, id: &str) -> (r: Option<usize>)
    ensures
        match r {
            Some(k) => k < groups@.len() && groups@[k as int].id@ == id@
                && forall|j: int| 0 <= j < k ==> #[trigger] groups@[j].id@ != id@,
            None => forall|k: int| 0 <= k < groups@.len() ==> #[trigger] groups@[k].id@ != id@,
        },
{
    let mut j: usize = 0;
    while j < groups.len()
        invariant
            j <= groups.len(),
            forall|k: int| 0 <= k < j ==> #[trigger] groups@[k].id@ != id@,
        decreases groups.len() - j,
    {
        if str_eq(groups[j].id.as_str(), id) {
            return Some(j);
        }
        j = j + 1;
    }
    None
}

proof fn lemma_group_order()
    ensures
        crate::order::strict_order(group_order()),
{
    assert forall|a: MediaKeywordGroup, b: MediaKeywordGroup| #[trigger] group_order()(a, b) implies !group_order()(b, a) by {
        crate::order::lemma_lex_asymmetric(lowercase(a.name@), lowercase(b.name@));
    }
    assert forall|a: MediaKeywordGroup, b: MediaKeywordGroup, c: MediaKeywordGroup| #[trigger] group_order()(a, b) && #[trigger] group_order()(b, c) implies group_order()(a, c) by {
        crate::order::lemma_lex_transitive(lowercase(a.name@), lowercase(b.name@), lowercase(c.name@));
    }
}

/// Loading the keyword groups reorders them and nothing else: the same groups
/// (with their multiplicities), in non-decreasing order of lowercase name, and
/// two groups whose lowercase names are equal in the order they were stored.
pub proof fn lemma_loaded_groups(groups: Seq<MediaKeywordGroup>)
    ensures
        stable_sorted(groups, group_order()).to_multiset() == groups.to_multiset(),
        forall|i: int, j: int| 0 <= i < j < stable_sorted(groups, group_order()).len() ==>
            !lex_lt(lowercase((#[trigger] stable_sorted(groups, group_order())[j]).name@),
                lowercase((#[trigger] stable_sorted(groups, group_order())[i]).name@)),
        forall|i: int, j: int| #![trigger stable_sorted(groups, group_order())[i], stable_sorted(groups, group_order())[j]]
            0 <= i < j < stable_sorted(groups, group_order()).len()
                && lowercase(stable_sorted(groups, group_order())[i].name@) == lowercase(stable_sorted(groups, group_order())[j].name@)
            ==> exists|a: int, b: int| 0 <= a < b < groups.len() && groups[a] == stable_sorted(groups, group_order())[i]
                && groups[b] == stable_sorted(groups, group_order())[j],
{
    let o = group_order();
    lemma_group_order();
    assert forall|a: MediaKeywordGroup, b: MediaKeywordGroup, c: MediaKeywordGroup| #![trigger o(a, b), o(a, c)]
        o(a, b) implies o(a, c) || o(c, b) by {
        crate::order::lemma_lex_total(lowercase(a.name@), lowercase(c.name@));
        crate::order::lemma_lex_transitive(lowercase(c.name@), lowercase(a.name@), lowercase(b.name@));
    }
    crate::order::lemma_stable_sorted_props(groups, o);
    crate::order::lemma_stable_sorted_stable(groups, o);
    let r = stable_sorted(groups, o);
    assert forall|i: int, j: int| 0 <= i < j < r.len() && lowercase(r[i].name@) == lowercase(r[j].name@)
        implies !o(r[i], r[j]) && !o(r[j], r[i]) by {
        crate::order::lemma_lex_irreflexive(lowercase(r[i].name@));
    }
}

/// What saving `request` at time `now` does to `before`, leaving `after` and
/// answering `r`; `new_id` names a new group. Refused: a blank name, an unknown
/// dimension, no valid source, a name another group has, no valid keyword, an
/// edit of a group that does not exist.
pub open spec fn keyword_group_saved(
    before: MediaClassifyKnowledge,
    after: MediaClassifyKnowledge,
    request: KeywordGroupSaveRequest,
    now: Seq<char>,
    new_id: String,
    r: Result<MediaKeywordGroup, String>,
) -> bool {
    &&& ({
            let name = trim(request.name@);
            let d = lowercase(trim(request.classification_dimension@));
            let groups = before.keyword_groups@;
            let keywords = kept_group_keywords(sviews(request.keywords@),
                if d == "all"@ || d == "creator"@ { Some(exclusion_match_keys(sviews(before.creator_exclusions@))) } else { None }, true);
            if name.len() == 0 {
                r matches Err(e) && e@ == "关键词组名称不能为空"@
            } else if !dimension_valid(d) {
                r matches Err(e) && e@ == "关键词组归类维度无效"@
            } else if group_sources(sviews(request.keyword_sources@), d).len() == 0 {
                r matches Err(e) && e@ == "关键词组至少需要一个有效的关键词来源"@
            } else if name_taken(groups, name, editing_id(request)) {
                r matches Err(e) && e@ == "关键词组名称已存在，请使用其他名称"@
            } else if keywords.len() == 0 {
                r matches Err(e) && e@ == "关键词组至少需要一个有效关键词"@
            } else if editing_id(request) matches Some(id) && !(exists|i: int| 0 <= i < groups.len() && #[trigger] groups[i].id@ == id) {
                r matches Err(e) && e@ == "要编辑的关键词组不存在"@
            } else {
                r matches Ok(g) && group_values(g, request, sviews(before.creator_exclusions@)) && g.updated_at@ == now
                    && (editing_id(request) is None ==> g.id == new_id && g.created_at@ == now)
                    && (editing_id(request) matches Some(id) ==> g.id@ == id)
                    && (exists|k: int| 0 <= k < after.keyword_groups@.len() && same_group(#[trigger] after.keyword_groups@[k], g))
                    && after.keyword_groups@.len() == groups.len() + (if editing_id(request) is None { 1int } else { 0int })
                    && (editing_id(request) is None ==> exists|x: MediaKeywordGroup| #[trigger] same_group(x, g)
                        && after.keyword_groups@ == stable_sorted(groups.push(x), group_order()))
                    && (editing_id(request) matches Some(id) ==> exists|k: int, x: MediaKeywordGroup| #![trigger groups.update(k, x)]
                        0 <= k < groups.len() && groups[k].id@ == id && (forall|j: int| 0 <= j < k ==> #[trigger] groups[j].id@ != id)
                        && same_group(x, g) && after.keyword_groups@ == stable_sorted(groups.update(k, x), group_order()))
            }
        })
    &&& r is Err ==> after == before
    &&& after.aliases == before.aliases
    &&& after.creator_exclusions == before.creator_exclusions
}

/// Saves a keyword group at time `now`, under `new_id` when it is new (see
/// `keyword_group_saved`).
#[verifier::spinoff_prover]
#[verifier::rlimit(40)]
pub fn save_keyword_group_at(
    knowledge: &mut MediaClassifyKnowledge,
    request: KeywordGroupSaveRequest,
    now: &str,
    new_id: String,
) -> (r: Result<MediaKeywordGroup, String>)
    ensures
        keyword_group_saved(*old(knowledge), *final(knowledge), request, now@, new_id, r),
{
    let name = trimmed_string(request.name.as_str());
    let nv = chars_of(name.as_str());
    if nv.len() == 0 {
        return Err(owned("关键词组名称不能为空"));
    }
    let dt = trimmed_string(request.classification_dimension.as_str());
    let dimension = str_to_lowercase(dt.as_str());
    let ds = dimension.as_str();
    if !(str_eq(ds, "all") || str_eq(ds, "creator") || str_eq(ds, "album") || str_eq(ds, "folder")) {
        return Err(owned("关键词组归类维度无效"));
    }
    let sources = normalize_sources(&request.keyword_sources, ds);
    if sources.len() == 0 {
        return Err(owned("关键词组至少需要一个有效的关键词来源"));
    }
    let normalized_name = normalize_match_text(name.as_str());
    let editing: Option<String> = match &request.id {
        Some(id) => {
            let t = chars_of(id.as_str());
            let tt = crate::text::trim_ws(&t);
            if tt.len() > 0 { Some(owned(id.as_str())) } else { None }
        },
        None => None,
    };
    let mut i: usize = 0;
    while i < knowledge.keyword_groups.len()
        invariant
            i <= knowledge.keyword_groups.len(),
            knowledge.keyword_groups == old(knowledge).keyword_groups,
            normalized_name@ == match_key(trim(request.name@)),
            trim(request.name@).len() > 0,
            dimension_valid(lowercase(trim(request.classification_dimension@))),
            group_sources(sviews(request.keyword_sources@), lowercase(trim(request.classification_dimension@))).len() > 0,
            match editing { Some(e) => editing_id(request) == Some(e@), None => editing_id(request) is None },
            forall|k: int| 0 <= k < i ==> !(Some(#[trigger] knowledge.keyword_groups@[k].id@) != editing_id(request)
                && match_key(knowledge.keyword_groups@[k].name@) == match_key(trim(request.name@))),
        decreases knowledge.keyword_groups.len() - i,
    {
        let g = &knowledge.keyword_groups[i];
        let same = match &editing {
            Some(e) => str_eq(g.id.as_str(), e.as_str()),
            None => false,
        };
        let gk = normalize_match_text(g.name.as_str());
        if !same && str_eq(gk.as_str(), normalized_name.as_str()) {
            assert(Some(knowledge.keyword_groups@[i as int].id@) != editing_id(request));
            assert(name_taken(old(knowledge).keyword_groups@, trim(request.name@), editing_id(request)));
            assert(trim(request.name@).len() > 0);
            assert(dimension_valid(lowercase(trim(request.classification_dimension@))));
            assert(group_sources(sviews(request.keyword_sources@), lowercase(trim(request.classification_dimension@))).len() > 0);
            return Err(owned("关键词组名称已存在，请使用其他名称"));
        }
        i = i + 1;
    }
    assert(!name_taken(old(knowledge).keyword_groups@, trim(request.name@), editing_id(request)));
    let is_creator = str_eq(ds, "all") || str_eq(ds, "creator");
    let excl = exclusion_keys(&knowledge.creator_exclusions);
    let keywords = if is_creator { normalize_keywords(&request.keywords, Some(&excl), true) } else { normalize_keywords(&request.keywords, None, true) };
    proof {
        crate::order::lemma_stable_sorted_len(kept_group_keywords(sviews(request.keywords@),
            if is_creator { Some(exclusion_match_keys(sviews(old(knowledge).creator_exclusions@))) } else { None }, true), key_order());
    }
    assert(sviews(keywords@).len() == keywords@.len());
    if keywords.len() == 0 {
        return Err(owned("关键词组至少需要一个有效关键词"));
    }
    let ghost mut gx: MediaKeywordGroup = arbitrary();
    let ghost mut gk: int = 0;
    let group = match editing {
        Some(id) => {
            let found = find_group_index(&knowledge.keyword_groups, id.as_str());
            let k = match found {
                Some(k) => k,
                None => { return Err(owned("要编辑的关键词组不存在")); },
            };
            let created = owned(knowledge.keyword_groups[k].created_at.as_str());
            let gid = owned(knowledge.keyword_groups[k].id.as_str());
            let g = MediaKeywordGroup {
                id: gid,
                name,
                classification_dimension: dimension,
                keyword_sources: sources,
                keywords,
                created_at: created,
                updated_at: owned(now),
            };
            let copy = copy_group(&g);
            proof { gx = g; gk = k as int; }
            knowledge.keyword_groups.set(k, g);
            assert(same_group(knowledge.keyword_groups@[k as int], copy));
            assert(knowledge.keyword_groups@ == old(knowledge).keyword_groups@.update(k as int, gx));
            copy
        },
        None => {
            let g = MediaKeywordGroup {
                id: new_id,
                name,
                classification_dimension: dimension,
                keyword_sources: sources,
                keywords,
                created_at: owned(now),
                updated_at: owned(now),
            };
            let copy = copy_group(&g);
            proof { gx = g; }
            knowledge.keyword_groups.push(g);
            assert(same_group(knowledge.keyword_groups@.last(), copy));
            assert(knowledge.keyword_groups@ == old(knowledge).keyword_groups@.push(gx));
            copy
        },
    };
    let mut groups: Vec<MediaKeywordGroup> = Vec::new();
    std::mem::swap(&mut groups, &mut knowledge.keyword_groups);
    let ghost g0 = groups@;
    let ghost w = choose|w: int| 0 <= w < g0.len() && same_group(g0[w], group);
    let sorted = sort_groups(groups);
    proof {
        lemma_group_order();
        crate::order::lemma_stable_sorted_elems(g0, group_order());
        crate::order::lemma_stable_sorted_len(g0, group_order());
        assert(g0.contains(g0[w]));
        assert(sorted@.contains(g0[w]));
        let v = choose|v: int| 0 <= v < sorted@.len() && sorted@[v] == g0[w];
        assert(same_group(sorted@[v], group));
    }
    knowledge.keyword_groups = sorted;
    proof {
        if editing_id(request) is None {
            assert(same_group(gx, group));
            assert(knowledge.keyword_groups@ == stable_sorted(old(knowledge).keyword_groups@.push(gx), group_order()));
        } else {
            assert(same_group(gx, group));
            assert(knowledge.keyword_groups@ == stable_sorted(old(knowledge).keyword_groups@.update(gk, gx), group_order()));
        }
    }
    assert(group_values(group, request, sviews(old(knowledge).creator_exclusions@)));
    assert(group.updated_at@ == now@);
    assert(knowledge.keyword_groups@.len() == old(knowledge).keyword_groups@.len() + (if editing_id(request) is None { 1int } else { 0int }));
    Ok(group)
}

/// Saves a keyword group now, under a fresh id when it is new: as
/// `save_keyword_group_at` does, at the clock's time and with a new UUID.
pub fn save_keyword_group(knowledge: &mut MediaClassifyKnowledge, request: KeywordGroupSaveRequest) -> (r: Result<MediaKeywordGroup, String>)
    ensures
        exists|now: Seq<char>, id: String| #[trigger] keyword_group_saved(*old(knowledge), *final(knowledge), request, now, id, r),
{
    let now = now_rfc3339();
    let id = new_uuid();
    let ghost idv = id;
    let ghost rq = request;
    let ghost k0 = *knowledge;
    let r = save_keyword_group_at(knowledge, request, now.as_str(), id);
    assert(keyword_group_saved(k0, *knowledge, rq, now@, idv, r));
    r
}

/// Deletes the keyword groups with the id; refused when there is none.
pub fn delete_keyword_group(knowledge: &mut MediaClassifyKnowledge, id: &str) -> (r: Result<(), String>)
    ensures
        !(exists|i: int| 0 <= i < old(knowledge).keyword_groups@.len() && #[trigger] old(knowledge).keyword_groups@[i].id@ == id@)
            ==> (r matches Err(e) && e@ == "要删除的关键词组不存在"@) && final(knowledge).keyword_groups@ == old(knowledge).keyword_groups@,
        (exists|i: int| 0 <= i < old(knowledge).keyword_groups@.len() && #[trigger] old(knowledge).keyword_groups@[i].id@ == id@)
            ==> r is Ok && final(knowledge).keyword_groups@ == old(knowledge).keyword_groups@.filter(other_id(id@)),
        final(knowledge).aliases == old(knowledge).aliases,
        final(knowledge).creator_exclusions == old(knowledge).creator_exclusions,
{
    let mut kept: Vec<MediaKeywordGroup> = Vec::new();
    let ghost all = knowledge.keyword_groups@;
    let mut removed = false;
    let mut groups: Vec<MediaKeywordGroup> = Vec::new();
    std::mem::swap(&mut groups, &mut knowledge.keyword_groups);
    let mut rest: Vec<MediaKeywordGroup> = Vec::new();
    while groups.len() > 0
        invariant
            groups@ + rest@.reverse() == all,
        decreases groups.len(),
    {
        let ghost a0 = groups@;
        let ghost r0 = rest@;
        let x = groups.pop().unwrap();
        assert(r0.push(x).reverse() =~= seq![x] + r0.reverse());
        assert(a0 =~= groups@.push(x));
        rest.push(x);
        assert(groups@ + rest@.reverse() =~= all);
    }
    assert(rest@.reverse() =~= all);
    let ghost mut k: int = 0;
    assert(all.take(0).filter(other_id(id@)) =~= Seq::<MediaKeywordGroup>::empty()) by {
        reveal(Seq::filter);
        assert(all.take(0) =~= Seq::<MediaKeywordGroup>::empty());
        assert(all.take(0).len() == 0);
    }
    while rest.len() > 0
        invariant
            0 <= k <= all.len(),
            rest@.reverse() == all.skip(k),
            kept@ == all.take(k).filter(other_id(id@)),
            removed == exists|i: int| 0 <= i < k && #[trigger] all[i].id@ == id@,
        decreases rest.len(),
    {
        let ghost r0 = rest@;
        let x = rest.pop().unwrap();
        proof {
            assert(r0 =~= rest@.push(x));
            assert(r0.reverse() =~= seq![x] + rest@.reverse());
            assert(all.skip(k).len() == r0.len());
            assert(all.skip(k)[0] == all[k]);
            assert(all.skip(k + 1) =~= all.skip(k).drop_first());
            assert(all.take(k + 1).drop_last() =~= all.take(k));
            assert(all.take(k + 1).last() == x);
            reveal(Seq::filter);
        }
        if str_eq(x.id.as_str(), id) {
            removed = true;
        } else {
            kept.push(x);
        }
        proof { k = k + 1; }
    }
    assert(all.take(k) =~= all);
    if !removed {
        assert(kept@ =~= all) by {
            assert(forall|i: int| 0 <= i < all.len() ==> #[trigger] all[i].id@ != id@);
            lemma_filter_all(all, id@);
        }
        knowledge.keyword_groups = kept;
        return Err(owned("要删除的关键词组不存在"));
    }
    knowledge.keyword_groups = kept;
    Ok(())
}

/// Groups with another id.
pub open spec fn other_id(id: Seq<char>) -> spec_fn(MediaKeywordGroup) -> bool {
    |g: MediaKeywordGroup| g.id@ != id
}

proof fn lemma_filter_all(s: Seq<MediaKeywordGroup>, id: Seq<char>)
    requires
        forall|i: int| 0 <= i < s.len() ==> #[trigger] s[i].id@ != id,
    ensures
        s.filter(other_id(id)) == s,
    decreases s.len(),
{
    reveal(Seq::filter);
    if s.len() > 0 {
        lemma_filter_all(s.drop_last(), id);
        assert(s.drop_last().push(s.last()) =~= s);
    } else {
        assert(s.filter(other_id(id)) =~= s);
    }
}

} // verus!
