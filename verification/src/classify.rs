//! Keyword classification of media files: match scores, candidate ranking,
//! aliases, keyword merging and the automatic-classification rule.
use vstd::prelude::*;
use crate::models::{AliasLearningHint, KeywordAlias, MediaFile};
use crate::metadata::MediaMetadata;
use crate::paths::{direct_child_folder_name, direct_child_of, stem_or_empty, name_parts};
use crate::order::{lemma_stable_sorted_map, lemma_lex_irreflexive, lex_lt, compare_chars, sort_by, strict_order, sorted_by, stable_sorted, lemma_lex_asymmetric, lemma_lex_transitive};
use crate::text::{ascii_lowercase, ascii_lower_seq, str_to_lowercase, chars_eq, byte_len, utf8_len, contains_seq, contains_chars, owned, clone_strings, contains_str, alphanumeric, char_is_alphanumeric, chars_of, lower_chars, lowercase, match_key, normalize_match_text, occurs_at, matches_at, str_eq, string_of, copy_chars, sviews, trim, trim_ws};

verus! {

/// A score of 80 or more is needed to classify a file without asking.
pub const AUTO_CLASSIFY_THRESHOLD: u8 = 80;

/// The best candidate must lead the next by at least 15 points.
pub const AUTO_CLASSIFY_MARGIN: u8 = 15;

/// What an identical embedded cover adds to a candidate that text already supports.
pub const EXACT_COVER_ART_SCORE: u8 = 22;

// ------------------------------------------------------------ match scores

/// A character that may stand next to a keyword for a whole-word match.
pub open spec fn match_boundary(c: char) -> bool {
    !alphanumeric(c)
}

pub fn is_match_boundary(ch: char) -> (r: bool)
    ensures
        r == match_boundary(ch),
{
    !char_is_alphanumeric(ch)
}

/// The match of `k` at `start` has a boundary (or the text's end) on each side.
pub open spec fn bounded_at(v: Seq<char>, start: int, end: int) -> bool {
    (start == 0 || match_boundary(v[start - 1])) && (end >= v.len() || match_boundary(v[end]))
}

pub open spec fn max_opt(a: Option<u8>, b: Option<u8>) -> Option<u8> {
    match (a, b) {
        (None, x) => x,
        (x, None) => x,
        (Some(x), Some(y)) => Some(if x >= y { x } else { y }),
    }
}

/// The best score over the non-overlapping occurrences of `k` in `v` found left
/// to right from index `i`: `boundary` for a whole-word occurrence, else `partial`.
pub open spec fn best_occurrence(v: Seq<char>, k: Seq<char>, i: int, boundary: u8, partial: u8) -> Option<u8>
    decreases v.len() + 1 - i,
{
    if i < 0 || i + k.len() > v.len() {
        None
    } else if occurs_at(v, k, i) {
        let step = if k.len() == 0 { 1 } else { k.len() as int };
        let here = if bounded_at(v, i, i + k.len()) { boundary } else { partial };
        max_opt(Some(here), best_occurrence(v, k, i + step, boundary, partial))
    } else {
        best_occurrence(v, k, i + 1, boundary, partial)
    }
}

/// How well `keyword` matches `value`, both normalised: `exact` when equal, else
/// the best occurrence score; `None` when either is empty or there is no occurrence.
pub open spec fn match_score(value: Seq<char>, keyword: Seq<char>, exact: u8, boundary: u8, partial: u8) -> Option<u8> {
    let v = match_key(value);
    let k = match_key(keyword);
    if v.len() == 0 || k.len() == 0 {
        None
    } else if v == k {
        Some(exact)
    } else {
        best_occurrence(v, k, 0, boundary, partial)
    }
}

pub fn text_match_score(value: &str, keyword: &str, exact_score: u8, boundary_score: u8, partial_score: u8) -> (r: Option<u8>)
    ensures
        r == match_score(value@, keyword@, exact_score, boundary_score, partial_score),
{
    let vs = normalize_match_text(value);
    let ks = normalize_match_text(keyword);
    let v = chars_of(vs.as_str());
    let k = chars_of(ks.as_str());
    if v.len() == 0 || k.len() == 0 {
        return None;
    }
    if vs == ks {
        return Some(exact_score);
    }
    let mut best: Option<u8> = None;
    let mut i: usize = 0;
    while i <= v.len() && k.len() <= v.len() - i
        invariant
            k.len() > 0,
            max_opt(best, best_occurrence(v@, k@, i as int, boundary_score, partial_score))
                == best_occurrence(v@, k@, 0, boundary_score, partial_score),
        decreases v.len() + 1 - i,
    {
        if matches_at(&v, &k, i) {
            let end = i + k.len();
            let before_ok = i == 0 || is_match_boundary(v[i - 1]);
            let after_ok = end >= v.len() || is_match_boundary(v[end]);
            let here = if before_ok && after_ok { boundary_score } else { partial_score };
            best = match best {
                None => Some(here),
                Some(b) => Some(if b >= here { b } else { here }),
            };
            i = end;
        } else {
            i = i + 1;
        }
    }
    best
}

proof fn lemma_best_occurrence(v: Seq<char>, k: Seq<char>, i: int, boundary: u8, partial: u8)
    requires
        k.len() > 0,
        0 <= i,
    ensures
        best_occurrence(v, k, i, boundary, partial) is Some <==> exists|j: int| j >= i && occurs_at(v, k, j),
        best_occurrence(v, k, i, boundary, partial) matches Some(s) ==> s == boundary || s == partial,
        (forall|j: int| j >= i && occurs_at(v, k, j) ==> !bounded_at(v, j, j + k.len()))
            ==> best_occurrence(v, k, i, boundary, partial) != Some(boundary) || boundary == partial,
        forall|j0: int| #![trigger occurs_at(v, k, j0)] i <= j0 && occurs_at(v, k, j0) && bounded_at(v, j0, j0 + k.len())
            && (forall|j: int| i <= j < j0 ==> !occurs_at(v, k, j))
            ==> (best_occurrence(v, k, i, boundary, partial) matches Some(s) && s >= boundary),
    decreases v.len() + 1 - i,
{
    if i + k.len() > v.len() {
        assert forall|j: int| j >= i implies !occurs_at(v, k, j) by {}
    } else {
        if occurs_at(v, k, i) {
            lemma_best_occurrence(v, k, i + k.len(), boundary, partial);
        } else {
            lemma_best_occurrence(v, k, i + 1, boundary, partial);
            assert forall|j0: int| #![trigger occurs_at(v, k, j0)] i <= j0 && occurs_at(v, k, j0) && bounded_at(v, j0, j0 + k.len())
                && (forall|j: int| i <= j < j0 ==> !occurs_at(v, k, j))
                implies (best_occurrence(v, k, i, boundary, partial) matches Some(s) && s >= boundary) by {
                assert(j0 != i);
                assert forall|j: int| i + 1 <= j < j0 implies !occurs_at(v, k, j) by {}
            }
            if exists|j: int| j >= i && occurs_at(v, k, j) {
                let j = choose|j: int| j >= i && occurs_at(v, k, j);
                assert(j >= i + 1);
            }
        }
    }
}

/// What a match score says: there is one exactly when both normalised texts are
/// non-empty and the keyword occurs in the value; equal texts get the exact
/// score; otherwise the score is the whole-word or the partial one, the
/// whole-word one only where some occurrence has a boundary on both sides, and
/// at least the whole-word one where the first occurrence has.
pub proof fn lemma_match_score(value: Seq<char>, keyword: Seq<char>, exact: u8, boundary: u8, partial: u8)
    ensures
        ({
            let v = match_key(value);
            let k = match_key(keyword);
            let r = match_score(value, keyword, exact, boundary, partial);
            &&& r is Some <==> (v.len() > 0 && k.len() > 0 && contains_seq(v, k))
            &&& v.len() > 0 && v == k ==> r == Some(exact)
            &&& v != k ==> (r matches Some(s) ==> s == boundary || s == partial)
            &&& v != k && boundary != partial && r == Some(boundary)
                ==> exists|j: int| occurs_at(v, k, j) && bounded_at(v, j, j + k.len())
            &&& forall|j0: int| #![trigger occurs_at(v, k, j0)] k.len() > 0 && v != k && occurs_at(v, k, j0)
                && bounded_at(v, j0, j0 + k.len()) && (forall|j: int| 0 <= j < j0 ==> !occurs_at(v, k, j))
                ==> (r matches Some(s) && s >= boundary)
        }),
{
    let v = match_key(value);
    let k = match_key(keyword);
    if v.len() > 0 && k.len() > 0 {
        lemma_best_occurrence(v, k, 0, boundary, partial);
        if v == k {
            assert(v.subrange(0, k.len() as int) =~= k);
            assert(occurs_at(v, k, 0));
        }
        if contains_seq(v, k) {
            let j = choose|j: int| occurs_at(v, k, j);
            assert(j >= 0);
        }
        if !(exists|j: int| occurs_at(v, k, j) && bounded_at(v, j, j + k.len())) {
            assert forall|j: int| j >= 0 && occurs_at(v, k, j) implies !bounded_at(v, j, j + k.len()) by {}
        }
    }
}

pub fn filename_match_score(file_stem: &str, keyword: &str) -> (r: Option<u8>)
    ensures
        r == match_score(file_stem@, keyword@, 90, 82, 55),
{
    text_match_score(file_stem, keyword, 90, 82, 55)
}

pub fn metadata_match_score(value: &str, keyword: &str, exact_score: u8, partial_score: u8) -> (r: Option<u8>)
    ensures
        r == match_score(value@, keyword@, exact_score, partial_score, partial_score),
{
    text_match_score(value, keyword, exact_score, partial_score, partial_score)
}

/// Whether a file's best score is high enough and far enough ahead of the next.
pub open spec fn auto_classifiable(confidence: u8, runner_up: u8) -> bool {
    confidence >= AUTO_CLASSIFY_THRESHOLD && (if confidence >= runner_up { confidence - runner_up } else { 0 }) >= AUTO_CLASSIFY_MARGIN
}

pub fn is_auto_classifiable(confidence: u8, runner_up: u8) -> (r: bool)
    ensures
        r == auto_classifiable(confidence, runner_up),
        r <==> (confidence >= 80 && confidence as int >= runner_up as int + 15),
{
    confidence >= AUTO_CLASSIFY_THRESHOLD && confidence.saturating_sub(runner_up) >= AUTO_CLASSIFY_MARGIN
}

// ------------------------------------------------------------- candidates

/// The accumulated score of one candidate keyword and the evidence behind it.
#[derive(Debug, Clone)]
pub struct CandidateScore {
    pub score: u8,
    pub evidence: Vec<String>,
}

/// Candidates in the order in which their keywords were first seen.
pub type Candidates = Vec<(String, CandidateScore)>;

/// The index of the candidate for `k`, if any.
pub open spec fn candidate_index(c: Seq<(String, CandidateScore)>, k: Seq<char>) -> Option<int>
    decreases c.len(),
{
    if c.len() == 0 {
        None
    } else {
        match candidate_index(c.drop_last(), k) {
            Some(i) => Some(i),
            None => if c.last().0@ == k { Some(c.len() - 1) } else { None },
        }
    }
}

pub proof fn lemma_candidate_index(c: Seq<(String, CandidateScore)>, k: Seq<char>)
    ensures
        candidate_index(c, k) matches Some(i) ==> 0 <= i < c.len() && c[i].0@ == k && forall|j: int|
            0 <= j < i ==> c[j].0@ != k,
        candidate_index(c, k) is None ==> forall|j: int| 0 <= j < c.len() ==> c[j].0@ != k,
    decreases c.len(),
{
    if c.len() > 0 {
        lemma_candidate_index(c.drop_last(), k);
        assert forall|j: int| 0 <= j < c.len() - 1 implies c.drop_last()[j] == c[j] by {}
    }
}

/// A score raised by `add` and capped at 100.
pub open spec fn raised(old: u8, add: u8) -> u8 {
    if old + add > 100 { 100 } else { (old + add) as u8 }
}

/// `evidence` with `item` appended unless already present.
pub open spec fn with_evidence(evidence: Seq<Seq<char>>, item: Seq<char>) -> Seq<Seq<char>> {
    if evidence.contains(item) { evidence } else { evidence.push(item) }
}

fn find_candidate(candidates: &Candidates, keyword: &str) -> (r: Option<usize>)
    ensures
        r matches Some(i) ==> candidate_index(candidates@, keyword@) == Some(i as int) && i < candidates@.len(),
        r is None ==> candidate_index(candidates@, keyword@) is None,
{
    proof { lemma_candidate_index(candidates@, keyword@); }
    let mut i: usize = 0;
    while i < candidates.len()
        invariant
            i <= candidates.len(),
            forall|j: int| 0 <= j < i ==> candidates@[j].0@ != keyword@,
        decreases candidates.len() - i,
    {
        if str_eq(candidates[i].0.as_str(), keyword) {
            proof { lemma_first_index(candidates@, keyword@, i as int); }
            return Some(i);
        }
        i = i + 1;
    }
    proof { lemma_no_index(candidates@, keyword@); }
    None
}

proof fn lemma_first_index(c: Seq<(String, CandidateScore)>, k: Seq<char>, i: int)
    requires
        0 <= i < c.len(),
        c[i].0@ == k,
        forall|j: int| 0 <= j < i ==> c[j].0@ != k,
    ensures
        candidate_index(c, k) == Some(i),
    decreases c.len(),
{
    if i < c.len() - 1 {
        lemma_first_index(c.drop_last(), k, i);
    } else {
        lemma_no_index(c.drop_last(), k);
    }
}

proof fn lemma_no_index(c: Seq<(String, CandidateScore)>, k: Seq<char>)
    requires
        forall|j: int| 0 <= j < c.len() ==> c[j].0@ != k,
    ensures
        candidate_index(c, k) is None,
    decreases c.len(),
{
    if c.len() > 0 {
        lemma_no_index(c.drop_last(), k);
    }
}

/// Candidates as plain values: keyword, score, evidence.
pub open spec fn cview(c: Seq<(String, CandidateScore)>) -> Seq<(Seq<char>, u8, Seq<Seq<char>>)> {
    Seq::new(c.len(), |i: int| (c[i].0@, c[i].1.score, sviews(c[i].1.evidence@)))
}

pub open spec fn cview_index(c: Seq<(Seq<char>, u8, Seq<Seq<char>>)>, k: Seq<char>) -> Option<int>
    decreases c.len(),
{
    if c.len() == 0 {
        None
    } else {
        match cview_index(c.drop_last(), k) {
            Some(i) => Some(i),
            None => if c.last().0 == k { Some(c.len() - 1) } else { None },
        }
    }
}

/// What adding `score` and `evidence` for `k` makes of a candidate list.
pub open spec fn add_spec(c: Seq<(Seq<char>, u8, Seq<Seq<char>>)>, k: Seq<char>, score: u8, evidence: Seq<char>) -> Seq<(Seq<char>, u8, Seq<Seq<char>>)> {
    match cview_index(c, k) {
        Some(i) => c.update(i, (k, raised(c[i].1, score), with_evidence(c[i].2, evidence))),
        None => c.push((k, raised(0, score), seq![evidence])),
    }
}

pub proof fn lemma_cview_index_pub(c: Seq<(String, CandidateScore)>, k: Seq<char>)
    ensures
        cview_index(cview(c), k) == candidate_index(c, k),
{
    lemma_cview_index(c, k);
}

proof fn lemma_cview_index(c: Seq<(String, CandidateScore)>, k: Seq<char>)
    ensures
        cview_index(cview(c), k) == candidate_index(c, k),
    decreases c.len(),
{
    if c.len() > 0 {
        lemma_cview_index(c.drop_last(), k);
        assert(cview(c).drop_last() =~= cview(c.drop_last()));
    }
}

/// Adds `score` (capped at 100) and `evidence` to the candidate for `keyword`,
/// creating it at the end when absent.
pub fn add_candidate(candidates: &mut Candidates, keyword: &str, score: u8, evidence: &str)
    ensures
        cview(final(candidates)@) == add_spec(cview(old(candidates)@), keyword@, score, evidence@),
{
    proof {
        lemma_candidate_index(candidates@, keyword@);
        lemma_cview_index(candidates@, keyword@);
    }
    let ghost c0 = candidates@;
    add_candidate_entry(candidates, keyword, score, evidence);
    proof {
        match candidate_index(c0, keyword@) {
            Some(i) => {
                assert(cview(candidates@) =~= add_spec(cview(c0), keyword@, score, evidence@));
            },
            None => {
                assert(cview(candidates@) =~= add_spec(cview(c0), keyword@, score, evidence@));
            },
        }
    }
}

fn add_candidate_entry(candidates: &mut Candidates, keyword: &str, score: u8, evidence: &str)
    ensures
        match candidate_index(old(candidates)@, keyword@) {
            Some(i) => {
                &&& final(candidates)@.len() == old(candidates)@.len()
                &&& forall|j: int| 0 <= j < old(candidates)@.len() && j != i ==> final(candidates)@[j] == old(candidates)@[j]
                &&& final(candidates)@[i].0@ == keyword@
                &&& final(candidates)@[i].1.score == raised(old(candidates)@[i].1.score, score)
                &&& sviews(final(candidates)@[i].1.evidence@) == with_evidence(sviews(old(candidates)@[i].1.evidence@), evidence@)
            },
            None => {
                &&& final(candidates)@.len() == old(candidates)@.len() + 1
                &&& forall|j: int| 0 <= j < old(candidates)@.len() ==> final(candidates)@[j] == old(candidates)@[j]
                &&& final(candidates)@.last().0@ == keyword@
                &&& final(candidates)@.last().1.score == raised(0, score)
                &&& sviews(final(candidates)@.last().1.evidence@) == seq![evidence@]
            },
        },
{
    proof { lemma_candidate_index(candidates@, keyword@); }
    match find_candidate(candidates, keyword) {
        Some(i) => {
            let old_score = candidates[i].1.score;
            let new_score: u8 = if old_score as u16 + score as u16 > 100 { 100 } else { old_score + score };
            let mut ev = clone_strings(&candidates[i].1.evidence);
            let present = contains_str(&ev, evidence);
            let ghost ev0 = ev@;
            if !present {
                ev.push(owned(evidence));
                assert(sviews(ev@) =~= sviews(ev0).push(evidence@));
            }
            let k = candidates[i].0.clone();
            candidates.set(i, (k, CandidateScore { score: new_score, evidence: ev }));
        },
        None => {
            let mut ev: Vec<String> = Vec::new();
            ev.push(owned(evidence));
            assert(sviews(ev@) =~= seq![evidence@]);
            let new_score: u8 = if score > 100 { 100 } else { score };
            candidates.push((owned(keyword), CandidateScore { score: new_score, evidence: ev }));
        },
    }
}

/// The score of the candidate for `keyword`, if any.
pub fn candidate_score(candidates: &Candidates, keyword: &str) -> (r: Option<u8>)
    ensures
        r == (match candidate_index(candidates@, keyword@) {
            Some(i) => Some(candidates@[i].1.score),
            None => None::<u8>,
        }),
{
    match find_candidate(candidates, keyword) {
        Some(i) => Some(candidates[i].1.score),
        None => None,
    }
}

/// The ranking order: higher score first, then keyword by lowercase text.
pub open spec fn rank_before(a: (String, CandidateScore), b: (String, CandidateScore)) -> bool {
    a.1.score > b.1.score || (a.1.score == b.1.score && lex_lt(lowercase(a.0@), lowercase(b.0@)))
}

proof fn lemma_rank_order()
    ensures
        strict_order(|a: (String, CandidateScore), b: (String, CandidateScore)| rank_before(a, b)),
{
    assert forall|a: (String, CandidateScore), b: (String, CandidateScore)| #[trigger] rank_before(a, b) implies !rank_before(b, a) by {
        lemma_lex_asymmetric(lowercase(a.0@), lowercase(b.0@));
    }
    assert forall|a: (String, CandidateScore), b: (String, CandidateScore), c: (String, CandidateScore)|
        #[trigger] rank_before(a, b) && #[trigger] rank_before(b, c) implies rank_before(a, c) by {
        lemma_lex_transitive(lowercase(a.0@), lowercase(b.0@), lowercase(c.0@));
    }
}

fn ranks_before(a: &(String, CandidateScore), b: &(String, CandidateScore)) -> (r: bool)
    ensures
        r == rank_before(*a, *b),
{
    if a.1.score != b.1.score {
        return a.1.score > b.1.score;
    }
    let av = chars_of(a.0.as_str());
    let bv = chars_of(b.0.as_str());
    let la = lower_chars(&av);
    let lb = lower_chars(&bv);
    compare_chars(&la, &lb) < 0
}

/// Candidates ordered best first: by score, then by lowercase keyword; stable.
pub fn rank_candidates(candidates: Candidates) -> (r: Candidates)
    ensures
        r@ == stable_sorted(candidates@, |a: (String, CandidateScore), b: (String, CandidateScore)| rank_before(a, b)),
        r@.len() == candidates@.len(),
        sorted_by(r@, |a: (String, CandidateScore), b: (String, CandidateScore)| rank_before(a, b)),
        r@.to_multiset() == candidates@.to_multiset(),
        forall|i: int, j: int| 0 <= i < j < r@.len() ==> (#[trigger] r@[i]).1.score >= (#[trigger] r@[j]).1.score,
        forall|i: int, j: int| 0 <= i < j < r@.len() && (#[trigger] r@[i]).1.score == (#[trigger] r@[j]).1.score
            ==> !lex_lt(lowercase(r@[j].0@), lowercase(r@[i].0@)),
{
    let less = |a: &(String, CandidateScore), b: &(String, CandidateScore)| -> (r: bool)
        ensures
            r == rank_before(*a, *b),
        { ranks_before(a, b) };
    let r = sort_by(candidates, less, Ghost(|a: (String, CandidateScore), b: (String, CandidateScore)| rank_before(a, b)));
    proof {
        lemma_rank_order();
        crate::order::lemma_stable_sorted_props(candidates@, |a: (String, CandidateScore), b: (String, CandidateScore)| rank_before(a, b));
        assert forall|i: int, j: int| 0 <= i < j < r@.len() implies (#[trigger] r@[i]).1.score >= (#[trigger] r@[j]).1.score
            && (r@[i].1.score == r@[j].1.score ==> !lex_lt(lowercase(r@[j].0@), lowercase(r@[i].0@))) by {
            assert(!rank_before(r@[j], r@[i]));
        }
    }
    r
}

// ---------------------------------------------------------------- aliases

/// Learned aliases: pairs of an alias's match key and its canonical keyword.
/// A later pair for the same key overrides an earlier one.
#[derive(Debug, Clone)]
pub struct AliasMap {
    pub entries: Vec<(String, String)>,
}

pub open spec fn pair_views(v: Seq<(String, String)>) -> Seq<(Seq<char>, Seq<char>)> {
    Seq::new(v.len(), |i: int| (v[i].0@, v[i].1@))
}

impl View for AliasMap {
    type V = Seq<(Seq<char>, Seq<char>)>;

    open spec fn view(&self) -> Seq<(Seq<char>, Seq<char>)> {
        pair_views(self.entries@)
    }
}

/// The pairs that a list of aliases contributes: those whose key and trimmed
/// canonical name are both non-empty.
pub open spec fn alias_pairs(aliases: Seq<KeywordAlias>) -> Seq<(Seq<char>, Seq<char>)>
    decreases aliases.len(),
{
    if aliases.len() == 0 {
        Seq::empty()
    } else {
        let prev = alias_pairs(aliases.drop_last());
        let a = aliases.last();
        let key = match_key(a.alias@);
        let canonical = trim(a.canonical@);
        if key.len() > 0 && canonical.len() > 0 {
            prev.push((key, canonical))
        } else {
            prev
        }
    }
}

/// The canonical name recorded for a key: the last pair with that key.
pub open spec fn alias_lookup(pairs: Seq<(Seq<char>, Seq<char>)>, key: Seq<char>) -> Option<Seq<char>>
    decreases pairs.len(),
{
    if pairs.len() == 0 {
        None
    } else if pairs.last().0 == key {
        Some(pairs.last().1)
    } else {
        alias_lookup(pairs.drop_last(), key)
    }
}

pub fn build_alias_map(aliases: &Vec<KeywordAlias>) -> (r: AliasMap)
    ensures
        r@ == alias_pairs(aliases@),
{
    let mut entries: Vec<(String, String)> = Vec::new();
    let mut i: usize = 0;
    while i < aliases.len()
        invariant
            i <= aliases.len(),
            pair_views(entries@) == alias_pairs(aliases@.take(i as int)),
        decreases aliases.len() - i,
    {
        assert(aliases@.take(i + 1).drop_last() =~= aliases@.take(i as int));
        let key = normalize_match_text(aliases[i].alias.as_str());
        let cv = chars_of(aliases[i].canonical.as_str());
        let canonical = trim_ws(&cv);
        let kv = chars_of(key.as_str());
        if kv.len() > 0 && canonical.len() > 0 {
            let ghost e0 = entries@;
            entries.push((key, string_of(&canonical)));
            assert(pair_views(entries@) =~= pair_views(e0).push((kv@, canonical@)));
        }
        i = i + 1;
    }
    assert(aliases@.take(aliases.len() as int) =~= aliases@);
    AliasMap { entries }
}

fn lookup_alias(aliases: &AliasMap, key: &str) -> (r: Option<String>)
    ensures
        match r {
            Some(c) => alias_lookup(aliases@, key@) == Some(c@),
            None => alias_lookup(aliases@, key@) is None,
        },
{
    let ghost all = aliases@;
    let mut i: usize = aliases.entries.len();
    assert(all.take(i as int) =~= all);
    while i > 0
        invariant
            i <= aliases.entries.len(),
            all == aliases@,
            alias_lookup(all, key@) == alias_lookup(all.take(i as int), key@),
        decreases i,
    {
        assert(all.take(i as int).last() == all[i - 1]);
        assert(all.take(i as int).drop_last() =~= all.take(i - 1));
        if str_eq(aliases.entries[i - 1].0.as_str(), key) {
            return Some(aliases.entries[i - 1].1.clone());
        }
        i = i - 1;
    }
    None
}

/// The canonical keyword for `keyword`, or `keyword` itself.
pub open spec fn canonical_of(keyword: Seq<char>, aliases: Seq<(Seq<char>, Seq<char>)>) -> Seq<char> {
    match alias_lookup(aliases, match_key(keyword)) {
        Some(c) => c,
        None => keyword,
    }
}

pub fn canonical_keyword(keyword: &str, aliases: &AliasMap) -> (r: String)
    ensures
        r@ == canonical_of(keyword@, aliases@),
{
    let key = normalize_match_text(keyword);
    match lookup_alias(aliases, key.as_str()) {
        Some(c) => c,
        None => owned(keyword),
    }
}

/// An alias that names `key`: its match key is `key`, and both that key and its
/// trimmed canonical name are non-empty.
pub open spec fn alias_names_key(a: KeywordAlias, key: Seq<char>) -> bool {
    match_key(a.alias@) == key && key.len() > 0 && trim(a.canonical@).len() > 0
}

proof fn lemma_alias_lookup_last(aliases: Seq<KeywordAlias>, key: Seq<char>)
    ensures
        (forall|j: int| 0 <= j < aliases.len() ==> !alias_names_key(#[trigger] aliases[j], key))
            ==> alias_lookup(alias_pairs(aliases), key) is None,
        forall|j: int| 0 <= j < aliases.len() && alias_names_key(#[trigger] aliases[j], key)
            && (forall|j2: int| j < j2 < aliases.len() ==> !alias_names_key(#[trigger] aliases[j2], key))
            ==> alias_lookup(alias_pairs(aliases), key) == Some(trim(aliases[j].canonical@)),
    decreases aliases.len(),
{
    if aliases.len() > 0 {
        let a0 = aliases.drop_last();
        lemma_alias_lookup_last(a0, key);
        let n = aliases.len() - 1;
        assert(aliases.last() == aliases[n]);
        assert forall|j: int| 0 <= j < a0.len() implies #[trigger] a0[j] == aliases[j] by {}
        let a = aliases[n];
        let prev = alias_pairs(a0);
        if match_key(a.alias@).len() > 0 && trim(a.canonical@).len() > 0 {
            assert(alias_pairs(aliases) == prev.push((match_key(a.alias@), trim(a.canonical@))));
            assert(alias_pairs(aliases).drop_last() == prev);
        } else {
            assert(alias_pairs(aliases) == prev);
        }
        assert forall|j: int| 0 <= j < aliases.len() && alias_names_key(#[trigger] aliases[j], key)
            && (forall|j2: int| j < j2 < aliases.len() ==> !alias_names_key(#[trigger] aliases[j2], key))
            implies alias_lookup(alias_pairs(aliases), key) == Some(trim(aliases[j].canonical@)) by {
            if j < n {
                assert(!alias_names_key(aliases[n], key));
                assert(a0[j] == aliases[j]);
                assert forall|j2: int| j < j2 < a0.len() implies !alias_names_key(#[trigger] a0[j2], key) by {
                    assert(a0[j2] == aliases[j2]);
                }
            }
        }
        if forall|j: int| 0 <= j < aliases.len() ==> !alias_names_key(#[trigger] aliases[j], key) {
            assert(!alias_names_key(aliases[n], key));
            assert forall|j: int| 0 <= j < a0.len() implies !alias_names_key(#[trigger] a0[j], key) by {
                assert(a0[j] == aliases[j]);
            }
        }
    }
}

/// A keyword's canonical name through a list of aliases: the trimmed canonical
/// name of the last alias with the keyword's match key (aliases with an empty
/// key or canonical name count for nothing); the keyword as it is when no alias
/// has that key.
pub proof fn lemma_canonical_keyword(keyword: Seq<char>, aliases: Seq<KeywordAlias>)
    ensures
        (forall|j: int| 0 <= j < aliases.len() ==> !alias_names_key(#[trigger] aliases[j], match_key(keyword)))
            ==> canonical_of(keyword, alias_pairs(aliases)) == keyword,
        forall|j: int| 0 <= j < aliases.len() && alias_names_key(#[trigger] aliases[j], match_key(keyword))
            && (forall|j2: int| j < j2 < aliases.len() ==> !alias_names_key(#[trigger] aliases[j2], match_key(keyword)))
            ==> canonical_of(keyword, alias_pairs(aliases)) == trim(aliases[j].canonical@),
{
    lemma_alias_lookup_last(aliases, match_key(keyword));
}

/// The keyword a match is filed under: curated keyword groups keep their own names.
pub open spec fn target_keyword(keyword: Seq<char>, aliases: Seq<(Seq<char>, Seq<char>)>, saved: bool) -> Seq<char> {
    if saved { keyword } else { canonical_of(keyword, aliases) }
}

pub fn match_target_keyword(keyword: &str, aliases: &AliasMap, is_saved_keyword_group: bool) -> (r: String)
    ensures
        r@ == target_keyword(keyword@, aliases@, is_saved_keyword_group),
{
    if is_saved_keyword_group {
        owned(keyword)
    } else {
        canonical_keyword(keyword, aliases)
    }
}

/// A creator keyword is excluded when its match key, or that of its canonical
/// name, is among the exclusion keys.
pub open spec fn creator_excluded(keyword: Seq<char>, aliases: Seq<(Seq<char>, Seq<char>)>, exclusions: Seq<Seq<char>>) -> bool {
    exclusions.contains(match_key(keyword)) || exclusions.contains(match_key(canonical_of(keyword, aliases)))
}

pub fn is_creator_keyword_excluded(keyword: &str, aliases: &AliasMap, exclusions: &Vec<String>) -> (r: bool)
    ensures
        r == creator_excluded(keyword@, aliases@, sviews(exclusions@)),
{
    let canonical = canonical_keyword(keyword, aliases);
    let k1 = normalize_match_text(keyword);
    let k2 = normalize_match_text(canonical.as_str());
    contains_str(exclusions, k1.as_str()) || contains_str(exclusions, k2.as_str())
}

/// Hints that each of the file's matched keywords other than the chosen one is
/// an alias of it.
pub open spec fn learning_hints_for(path: Seq<char>, matched: Seq<Seq<char>>, canonical: Seq<char>) -> Seq<(Seq<char>, Seq<char>, Seq<char>)>
    decreases matched.len(),
{
    if matched.len() == 0 {
        Seq::empty()
    } else {
        let prev = learning_hints_for(path, matched.drop_last(), canonical);
        if match_key(matched.last()) == match_key(canonical) {
            prev
        } else {
            prev.push((path, matched.last(), canonical))
        }
    }
}

pub open spec fn hint_views(h: Seq<AliasLearningHint>) -> Seq<(Seq<char>, Seq<char>, Seq<char>)> {
    Seq::new(h.len(), |i: int| (h[i].source_path@, h[i].alias@, h[i].canonical@))
}

pub fn append_learning_hints(hints: &mut Vec<AliasLearningHint>, file: &MediaFile, canonical: &str)
    ensures
        hint_views(final(hints)@) == hint_views(old(hints)@) + learning_hints_for(
            file.path@,
            sviews(file.matched_keywords@),
            canonical@,
        ),
{
    let canonical_key = normalize_match_text(canonical);
    let ghost h0 = hint_views(hints@);
    let ghost m = sviews(file.matched_keywords@);
    let mut i: usize = 0;
    assert(m.take(0) =~= Seq::<Seq<char>>::empty());
    assert(hint_views(hints@) =~= h0 + learning_hints_for(file.path@, m.take(0), canonical@));
    while i < file.matched_keywords.len()
        invariant
            i <= file.matched_keywords.len(),
            m == sviews(file.matched_keywords@),
            canonical_key@ == match_key(canonical@),
            hint_views(hints@) == h0 + learning_hints_for(file.path@, m.take(i as int), canonical@),
        decreases file.matched_keywords.len() - i,
    {
        assert(m.take(i + 1).drop_last() =~= m.take(i as int));
        assert(m.take(i + 1).last() == file.matched_keywords@[i as int]@);
        let key = normalize_match_text(file.matched_keywords[i].as_str());
        if key != canonical_key {
            let ghost before = hints@;
            hints.push(AliasLearningHint {
                source_path: file.path.clone(),
                alias: file.matched_keywords[i].clone(),
                canonical: owned(canonical),
            });
            assert(hint_views(hints@) =~= hint_views(before).push((file.path@, m[i as int], canonical@)));
        }
        i = i + 1;
    }
    assert(m.take(file.matched_keywords.len() as int) =~= m);
}

// -------------------------------------------------------- keyword merging

/// Of the keywords other than `kw` whose lowercase text `kw`'s lowercase text
/// contains, the first strictly shortest in bytes; `kw` itself if none is shorter.
pub open spec fn shortest_contained(ks: Seq<Seq<char>>, kw: Seq<char>) -> Seq<char>
    decreases ks.len(),
{
    if ks.len() == 0 {
        kw
    } else {
        let prev = shortest_contained(ks.drop_last(), kw);
        let o = ks.last();
        if kw != o && contains_seq(lowercase(kw), lowercase(o)) && byte_len(o) < byte_len(prev) {
            o
        } else {
            prev
        }
    }
}

/// `o` is a keyword that `kw` may merge into: another keyword whose lowercase
/// text `kw`'s lowercase text contains.
pub open spec fn merge_candidate(o: Seq<char>, kw: Seq<char>) -> bool {
    kw != o && contains_seq(lowercase(kw), lowercase(o))
}

/// A keyword merges into the shortest (in bytes) of the keywords it may merge
/// into, the first of them on ties, when that one is shorter than the keyword
/// itself; else it stays as it is.
pub proof fn lemma_shortest_contained(ks: Seq<Seq<char>>, kw: Seq<char>)
    ensures
        ({
            let r = shortest_contained(ks, kw);
            &&& byte_len(r) <= byte_len(kw)
            &&& forall|i: int| 0 <= i < ks.len() && merge_candidate(#[trigger] ks[i], kw) ==> byte_len(r) <= byte_len(ks[i])
            &&& r == kw || exists|j: int| 0 <= j < ks.len() && ks[j] == r && merge_candidate(r, kw)
                && byte_len(r) < byte_len(kw)
                && forall|i: int| 0 <= i < j ==> !(merge_candidate(#[trigger] ks[i], kw) && byte_len(ks[i]) <= byte_len(r))
        }),
    decreases ks.len(),
{
    if ks.len() > 0 {
        let k0 = ks.drop_last();
        lemma_shortest_contained(k0, kw);
        let p = shortest_contained(k0, kw);
        let n = ks.len() - 1;
        let o = ks[n];
        assert(ks.last() == o);
        assert forall|i: int| 0 <= i < k0.len() implies #[trigger] k0[i] == ks[i] by {}
        let r = shortest_contained(ks, kw);
        if merge_candidate(o, kw) && byte_len(o) < byte_len(p) {
            assert(r == o);
            assert forall|i: int| 0 <= i < ks.len() && merge_candidate(#[trigger] ks[i], kw) implies byte_len(r) <= byte_len(ks[i]) by {
                if i < n {
                    assert(k0[i] == ks[i]);
                }
            }
            assert forall|i: int| 0 <= i < n implies !(merge_candidate(#[trigger] ks[i], kw) && byte_len(ks[i]) <= byte_len(r)) by {
                assert(k0[i] == ks[i]);
            }
        } else {
            assert(r == p);
            assert forall|i: int| 0 <= i < ks.len() && merge_candidate(#[trigger] ks[i], kw) implies byte_len(r) <= byte_len(ks[i]) by {
                if i < n {
                    assert(k0[i] == ks[i]);
                }
            }
            if r != kw {
                let j = choose|j: int| 0 <= j < k0.len() && k0[j] == r && merge_candidate(r, kw)
                    && byte_len(r) < byte_len(kw)
                    && forall|i: int| 0 <= i < j ==> !(merge_candidate(#[trigger] k0[i], kw) && byte_len(k0[i]) <= byte_len(r));
                assert(ks[j] == r);
                assert forall|i: int| 0 <= i < j implies !(merge_candidate(#[trigger] ks[i], kw) && byte_len(ks[i]) <= byte_len(r)) by {
                    assert(k0[i] == ks[i]);
                }
            }
        }
    }
}

/// Each keyword paired with the keyword it merges into.
pub fn merge_containing_keywords(keywords: &Vec<String>) -> (r: Vec<(String, String)>)
    ensures
        r@.len() == keywords@.len(),
        forall|i: int| 0 <= i < r@.len() ==> #[trigger] r@[i].0@ == keywords@[i]@ && r@[i].1@ == shortest_contained(
            sviews(keywords@),
            keywords@[i]@,
        ),
{
    let ghost ks = sviews(keywords@);
    let mut result: Vec<(String, String)> = Vec::new();
    let mut i: usize = 0;
    while i < keywords.len()
        invariant
            i <= keywords.len(),
            ks == sviews(keywords@),
            result@.len() == i,
            forall|t: int| 0 <= t < i ==> #[trigger] result@[t].0@ == keywords@[t]@ && result@[t].1@ == shortest_contained(ks, keywords@[t]@),
        decreases keywords.len() - i,
    {
        let kv = chars_of(keywords[i].as_str());
        let kw_lower = lower_chars(&kv);
        let mut shortest = keywords[i].clone();
        let mut shortest_len = utf8_len(&kv);
        let mut j: usize = 0;
        assert(ks.take(0) =~= Seq::<Seq<char>>::empty());
        while j < keywords.len()
            invariant
                j <= keywords.len(),
                i < keywords.len(),
                ks == sviews(keywords@),
                result@.len() == i,
                forall|t: int| 0 <= t < i ==> #[trigger] result@[t].0@ == keywords@[t]@ && result@[t].1@ == shortest_contained(ks, keywords@[t]@),
                kv@ == keywords@[i as int]@,
                kw_lower@ == lowercase(kv@),
                shortest@ == shortest_contained(ks.take(j as int), kv@),
                shortest_len == byte_len(shortest@),
            decreases keywords.len() - j,
        {
            assert(ks.take(j + 1).drop_last() =~= ks.take(j as int));
            assert(ks.take(j + 1).last() == keywords@[j as int]@);
            let ov = chars_of(keywords[j].as_str());
            if !chars_eq(&kv, &ov) {
                let ol = lower_chars(&ov);
                if contains_chars(&kw_lower, &ol) {
                    let olen = utf8_len(&ov);
                    if olen < shortest_len {
                        shortest = keywords[j].clone();
                        shortest_len = olen;
                    }
                }
            }
            j = j + 1;
        }
        assert(ks.take(keywords.len() as int) =~= ks);
        result.push((keywords[i].clone(), shortest));
        i = i + 1;
    }
    result
}

/// The keyword that `keyword` merges into, in a merge list.
pub fn merged_target(merged: &Vec<(String, String)>, keyword: &str) -> (r: Option<String>)
    ensures
        match r {
            Some(t) => exists|i: int| 0 <= i < merged@.len() && merged@[i].0@ == keyword@ && merged@[i].1@ == t@,
            None => forall|i: int| 0 <= i < merged@.len() ==> merged@[i].0@ != keyword@,
        },
{
    let mut i: usize = 0;
    while i < merged.len()
        invariant
            i <= merged.len(),
            forall|k: int| 0 <= k < i ==> merged@[k].0@ != keyword@,
        decreases merged.len() - i,
    {
        if str_eq(merged[i].0.as_str(), keyword) {
            return Some(merged[i].1.clone());
        }
        i = i + 1;
    }
    None
}

// ------------------------------------------------------ classification axis

/// What files are grouped by.
#[derive(Debug, Clone, Copy, PartialEq, Eq, Structural)]
pub enum ClassificationDimension {
    All,
    Creator,
    Album,
    Folder,
}

pub open spec fn dimension_of(key: Seq<char>) -> Option<ClassificationDimension> {
    if key == "all"@ {
        Some(ClassificationDimension::All)
    } else if key == "creator"@ {
        Some(ClassificationDimension::Creator)
    } else if key == "album"@ {
        Some(ClassificationDimension::Album)
    } else if key == "folder"@ {
        Some(ClassificationDimension::Folder)
    } else {
        None
    }
}

pub open spec fn dimension_text(d: ClassificationDimension) -> Seq<char> {
    match d {
        ClassificationDimension::All => "all"@,
        ClassificationDimension::Creator => "creator"@,
        ClassificationDimension::Album => "album"@,
        ClassificationDimension::Folder => "folder"@,
    }
}

/// The keyword sources a dimension may draw on.
pub open spec fn source_allowed(d: ClassificationDimension, source: Seq<char>) -> bool {
    match d {
        ClassificationDimension::All => source == "folder_name"@ || source == "artist"@ || source == "album_artist"@
            || source == "album"@ || source == "composer"@,
        ClassificationDimension::Creator => source == "folder_name"@ || source == "artist"@ || source
            == "album_artist"@ || source == "composer"@,
        ClassificationDimension::Album => source == "folder_name"@ || source == "album"@,
        ClassificationDimension::Folder => source == "folder_name"@,
    }
}

impl ClassificationDimension {
    /// Reads a dimension from its name, trimmed and lowercased.
    pub fn parse(value: &str) -> (r: Result<ClassificationDimension, String>)
        ensures
            match dimension_of(lowercase(trim(value@))) {
                Some(d) => r == Ok::<ClassificationDimension, String>(d),
                None => r is Err,
            },
    {
        let v = chars_of(value);
        let t = trim_ws(&v);
        let ts = string_of(&t);
        let key = str_to_lowercase(ts.as_str());
        let k = key.as_str();
        if str_eq(k, "all") {
            Ok(ClassificationDimension::All)
        } else if str_eq(k, "creator") {
            Ok(ClassificationDimension::Creator)
        } else if str_eq(k, "album") {
            Ok(ClassificationDimension::Album)
        } else if str_eq(k, "folder") {
            Ok(ClassificationDimension::Folder)
        } else {
            Err(owned("归类维度无效，应为 all、creator、album 或 folder"))
        }
    }

    pub fn as_str(self) -> (r: &'static str)
        ensures
            r@ == dimension_text(self),
    {
        match self {
            ClassificationDimension::All => "all",
            ClassificationDimension::Creator => "creator",
            ClassificationDimension::Album => "album",
            ClassificationDimension::Folder => "folder",
        }
    }

    pub fn allows_source(self, source: &str) -> (r: bool)
        ensures
            r == source_allowed(self, source@),
    {
        match self {
            ClassificationDimension::All => str_eq(source, "folder_name") || str_eq(source, "artist") || str_eq(
                source,
                "album_artist",
            ) || str_eq(source, "album") || str_eq(source, "composer"),
            ClassificationDimension::Creator => str_eq(source, "folder_name") || str_eq(source, "artist")
                || str_eq(source, "album_artist") || str_eq(source, "composer"),
            ClassificationDimension::Album => str_eq(source, "folder_name") || str_eq(source, "album"),
            ClassificationDimension::Folder => str_eq(source, "folder_name"),
        }
    }
}

/// The media filters that name a kind, trimmed and ASCII-lowercased, in order.
pub open spec fn media_filters(filters: Seq<Seq<char>>) -> Seq<Seq<char>>
    decreases filters.len(),
{
    if filters.len() == 0 {
        Seq::empty()
    } else {
        let prev = media_filters(filters.drop_last());
        let v = ascii_lower_seq(trim(filters.last()));
        if v == "image"@ || v == "audio"@ || v == "video"@ || v == "ebook"@ {
            prev.push(v)
        } else {
            prev
        }
    }
}

pub fn normalize_media_filters(filters: &Vec<String>) -> (r: Vec<String>)
    ensures
        sviews(r@) == media_filters(sviews(filters@)),
{
    let ghost f = sviews(filters@);
    let mut r: Vec<String> = Vec::new();
    let mut i: usize = 0;
    while i < filters.len()
        invariant
            i <= filters.len(),
            f == sviews(filters@),
            sviews(r@) == media_filters(f.take(i as int)),
        decreases filters.len() - i,
    {
        assert(f.take(i + 1).drop_last() =~= f.take(i as int));
        assert(f.take(i + 1).last() == filters@[i as int]@);
        let c = chars_of(filters[i].as_str());
        let t = trim_ws(&c);
        let l = ascii_lowercase(&t);
        let v = string_of(&l);
        let vs = v.as_str();
        if str_eq(vs, "image") || str_eq(vs, "audio") || str_eq(vs, "video") || str_eq(vs, "ebook") {
            let ghost r0 = r@;
            r.push(v);
            assert(sviews(r@) =~= sviews(r0).push(l@));
        }
        i = i + 1;
    }
    assert(f.take(filters.len() as int) =~= f);
    r
}

// ------------------------------------------------------ folder keyword map

/// Keywords looked up by the match key of a folder name. Each entry holds the
/// match key of a keyword, the keyword, and the keyword it merges into.
#[derive(Debug, Clone)]
pub struct NormalizedKeywordMap {
    pub entries: Vec<(String, String, String)>,
}

pub open spec fn triple_views(v: Seq<(String, String, String)>) -> Seq<(Seq<char>, Seq<char>, Seq<char>)> {
    Seq::new(v.len(), |i: int| (v[i].0@, v[i].1@, v[i].2@))
}

impl View for NormalizedKeywordMap {
    type V = Seq<(Seq<char>, Seq<char>, Seq<char>)>;

    open spec fn view(&self) -> Seq<(Seq<char>, Seq<char>, Seq<char>)> {
        triple_views(self.entries@)
    }
}

/// Of the entries whose key is `k`, the one whose keyword is least in text
/// order (the first on ties).
pub open spec fn least_entry(m: Seq<(Seq<char>, Seq<char>, Seq<char>)>, k: Seq<char>) -> Option<int>
    decreases m.len(),
{
    if m.len() == 0 {
        None
    } else {
        let prev = least_entry(m.drop_last(), k);
        let i = m.len() - 1;
        if m[i].0 == k {
            match prev {
                None => Some(i),
                Some(p) => if lex_lt(m[i].1, m[p].1) { Some(i) } else { Some(p) },
            }
        } else {
            prev
        }
    }
}

pub proof fn lemma_least_entry_range(m: Seq<(Seq<char>, Seq<char>, Seq<char>)>, k: Seq<char>)
    ensures
        least_entry(m, k) matches Some(i) ==> 0 <= i < m.len() && m[i].0 == k,
    decreases m.len(),
{
    if m.len() > 0 {
        lemma_least_entry_range(m.drop_last(), k);
    }
}

/// Indexes a merge list by the match keys of its keywords.
pub fn build_normalized_keyword_map(merged_map: &Vec<(String, String)>) -> (r: NormalizedKeywordMap)
    ensures
        r@.len() == merged_map@.len(),
        forall|i: int| 0 <= i < r@.len() ==> #[trigger] r@[i] == (match_key(merged_map@[i].0@), merged_map@[i].0@, merged_map@[i].1@),
{
    let mut entries: Vec<(String, String, String)> = Vec::new();
    let mut i: usize = 0;
    while i < merged_map.len()
        invariant
            i <= merged_map.len(),
            entries@.len() == i,
            forall|t: int| 0 <= t < i ==> #[trigger] triple_views(entries@)[t] == (match_key(merged_map@[t].0@), merged_map@[t].0@, merged_map@[t].1@),
        decreases merged_map.len() - i,
    {
        let key = normalize_match_text(merged_map[i].0.as_str());
        let ghost e0 = entries@;
        entries.push((key, merged_map[i].0.clone(), merged_map[i].1.clone()));
        assert(triple_views(entries@) =~= triple_views(e0).push(
            (match_key(merged_map@[i as int].0@), merged_map@[i as int].0@, merged_map@[i as int].1@),
        ));
        i = i + 1;
    }
    NormalizedKeywordMap { entries }
}

impl NormalizedKeywordMap {
    /// The merged keyword for a match key: that of the entry with the least keyword.
    pub fn get(&self, key: &str) -> (r: Option<String>)
        ensures
            match least_entry(self@, key@) {
                Some(i) => r matches Some(t) && t@ == self@[i].2,
                None => r is None,
            },
    {
        let ghost m = self@;
        let mut best: Option<usize> = None;
        let mut i: usize = 0;
        while i < self.entries.len()
            invariant
                i <= self.entries.len(),
                m == self@,
                least_entry(m.take(i as int), key@) == (match best {
                    Some(b) => Some(b as int),
                    None => None::<int>,
                }),
                best matches Some(b) ==> b < i,
            decreases self.entries.len() - i,
        {
            assert(m.take(i + 1).drop_last() =~= m.take(i as int));
            assert(m.take(i + 1)[i as int] == m[i as int]);
            if str_eq(self.entries[i].0.as_str(), key) {
                match best {
                    None => {
                        best = Some(i);
                    },
                    Some(b) => {
                        assert(m.take(i + 1)[b as int] == m[b as int]);
                        let a = chars_of(self.entries[i].1.as_str());
                        let c = chars_of(self.entries[b].1.as_str());
                        if compare_chars(&a, &c) < 0 {
                            best = Some(i);
                        }
                    },
                }
            }
            i = i + 1;
        }
        assert(m.take(self.entries.len() as int) =~= m);
        match best {
            Some(b) => Some(self.entries[b].2.clone()),
            None => None,
        }
    }
}

// ------------------------------------------------------- text candidates

pub type CandView = Seq<(Seq<char>, u8, Seq<Seq<char>>)>;

/// The candidates after scoring `value` against every keyword in turn.
pub open spec fn add_keyword_matches(
    c: CandView,
    value: Seq<char>,
    kws: Seq<Seq<char>>,
    exact: u8,
    boundary: u8,
    partial: u8,
    evidence: Seq<char>,
    aliases: Seq<(Seq<char>, Seq<char>)>,
    saved: bool,
) -> CandView
    decreases kws.len(),
{
    if kws.len() == 0 {
        c
    } else {
        let prev = add_keyword_matches(c, value, kws.drop_last(), exact, boundary, partial, evidence, aliases, saved);
        match match_score(value, kws.last(), exact, boundary, partial) {
            Some(score) => add_spec(prev, target_keyword(kws.last(), aliases, saved), score, evidence),
            None => prev,
        }
    }
}

/// The candidates after the file's folder under its scan root is looked up.
pub open spec fn folder_step(
    c: CandView,
    path: Seq<char>,
    roots: Seq<Seq<char>>,
    folders: Seq<(Seq<char>, Seq<char>, Seq<char>)>,
    aliases: Seq<(Seq<char>, Seq<char>)>,
    saved: bool,
    sources: Seq<Seq<char>>,
) -> CandView {
    if sources.contains("folder_name"@) {
        match direct_child_of(path, roots) {
            Some(f) => match least_entry(folders, match_key(f)) {
                Some(i) => add_spec(c, target_keyword(folders[i].2, aliases, saved), 100, "所属子文件夹"@),
                None => c,
            },
            None => c,
        }
    } else {
        c
    }
}

/// The candidates after a metadata field is scored, when its source is enabled.
pub open spec fn meta_step(
    c: CandView,
    source: Seq<char>,
    value: Option<String>,
    exact: u8,
    partial: u8,
    kws: Seq<Seq<char>>,
    aliases: Seq<(Seq<char>, Seq<char>)>,
    saved: bool,
    sources: Seq<Seq<char>>,
) -> CandView {
    if sources.contains(source) {
        match value {
            Some(v) => add_keyword_matches(c, v@, kws, exact, partial, partial, source, aliases, saved),
            None => c,
        }
    } else {
        c
    }
}

/// The text evidence for a file: its stem, its folder, then artist, album artist,
/// album and composer tags, each scored against the keywords.
pub open spec fn text_candidates(
    path: Seq<char>,
    roots: Seq<Seq<char>>,
    kws: Seq<Seq<char>>,
    folders: Seq<(Seq<char>, Seq<char>, Seq<char>)>,
    aliases: Seq<(Seq<char>, Seq<char>)>,
    saved: bool,
    sources: Seq<Seq<char>>,
    meta: MediaMetadata,
) -> CandView {
    let c0 = add_keyword_matches(Seq::empty(), stem_or_empty(path), kws, 90, 82, 55, "文件名"@, aliases, saved);
    let c1 = folder_step(c0, path, roots, folders, aliases, saved, sources);
    let c2 = meta_step(c1, "artist"@, meta.artist, 95, 60, kws, aliases, saved, sources);
    let c3 = meta_step(c2, "album_artist"@, meta.album_artist, 92, 60, kws, aliases, saved, sources);
    let c4 = meta_step(c3, "album"@, meta.album, 95, 60, kws, aliases, saved, sources);
    meta_step(c4, "composer"@, meta.composer, 80, 55, kws, aliases, saved, sources)
}

fn add_matches(
    c: &mut Candidates,
    value: &str,
    keywords: &Vec<String>,
    exact: u8,
    boundary: u8,
    partial: u8,
    evidence: &str,
    aliases: &AliasMap,
    saved: bool,
)
    ensures
        cview(final(c)@) == add_keyword_matches(
            cview(old(c)@),
            value@,
            sviews(keywords@),
            exact,
            boundary,
            partial,
            evidence@,
            aliases@,
            saved,
        ),
{
    let ghost c0 = cview(c@);
    let ghost ks = sviews(keywords@);
    let mut i: usize = 0;
    assert(ks.take(0) =~= Seq::<Seq<char>>::empty());
    while i < keywords.len()
        invariant
            i <= keywords.len(),
            ks == sviews(keywords@),
            cview(c@) == add_keyword_matches(c0, value@, ks.take(i as int), exact, boundary, partial, evidence@, aliases@, saved),
        decreases keywords.len() - i,
    {
        assert(ks.take(i + 1).drop_last() =~= ks.take(i as int));
        assert(ks.take(i + 1).last() == keywords@[i as int]@);
        match text_match_score(value, keywords[i].as_str(), exact, boundary, partial) {
            Some(score) => {
                let target = match_target_keyword(keywords[i].as_str(), aliases, saved);
                add_candidate(c, target.as_str(), score, evidence);
            },
            None => {},
        }
        i = i + 1;
    }
    assert(ks.take(keywords.len() as int) =~= ks);
}

fn add_meta(
    c: &mut Candidates,
    source: &str,
    value: &Option<String>,
    exact: u8,
    partial: u8,
    keywords: &Vec<String>,
    aliases: &AliasMap,
    saved: bool,
    sources: &Vec<String>,
)
    ensures
        cview(final(c)@) == meta_step(cview(old(c)@), source@, *value, exact, partial, sviews(keywords@), aliases@, saved, sviews(sources@)),
{
    if contains_str(sources, source) {
        match value {
            Some(v) => add_matches(c, v.as_str(), keywords, exact, partial, partial, source, aliases, saved),
            None => {},
        }
    }
}

/// Scores a file against the keywords by its name, folder and tags.
pub fn build_text_candidates(
    path: &str,
    scan_roots: &Vec<String>,
    keywords: &Vec<String>,
    normalized_folder_keywords: &NormalizedKeywordMap,
    aliases: &AliasMap,
    is_saved_keyword_group: bool,
    sources: &Vec<String>,
    meta: &MediaMetadata,
) -> (r: Candidates)
    ensures
        cview(r@) == text_candidates(
            path@,
            sviews(scan_roots@),
            sviews(keywords@),
            normalized_folder_keywords@,
            aliases@,
            is_saved_keyword_group,
            sviews(sources@),
            *meta,
        ),
{
    let mut c: Candidates = Vec::new();
    assert(cview(c@) =~= Seq::empty());
    let pv = chars_of(path);
    let (_name, stem, _ext) = name_parts(&pv);
    let stem_s = string_of(&stem);
    add_matches(&mut c, stem_s.as_str(), keywords, 90, 82, 55, "文件名", aliases, is_saved_keyword_group);
    if contains_str(sources, "folder_name") {
        match direct_child_folder_name(path, scan_roots) {
            Some(folder) => {
                let key = normalize_match_text(folder.as_str());
                proof { lemma_least_entry_range(normalized_folder_keywords@, key@); }
                match normalized_folder_keywords.get(key.as_str()) {
                    Some(kw) => {
                        let target = match_target_keyword(kw.as_str(), aliases, is_saved_keyword_group);
                        add_candidate(&mut c, target.as_str(), 100, "所属子文件夹");
                    },
                    None => {},
                }
            },
            None => {},
        }
    }
    add_meta(&mut c, "artist", &meta.artist, 95, 60, keywords, aliases, is_saved_keyword_group, sources);
    add_meta(&mut c, "album_artist", &meta.album_artist, 92, 60, keywords, aliases, is_saved_keyword_group, sources);
    add_meta(&mut c, "album", &meta.album, 95, 60, keywords, aliases, is_saved_keyword_group, sources);
    add_meta(&mut c, "composer", &meta.composer, 80, 55, keywords, aliases, is_saved_keyword_group, sources);
    c
}

// ------------------------------------------------------------ ranked view

pub open spec fn cand_of(e: (String, CandidateScore)) -> (Seq<char>, u8, Seq<Seq<char>>) {
    (e.0@, e.1.score, sviews(e.1.evidence@))
}

/// The ranking order on candidate values.
pub open spec fn rank_before_v(a: (Seq<char>, u8, Seq<Seq<char>>), b: (Seq<char>, u8, Seq<Seq<char>>)) -> bool {
    a.1 > b.1 || (a.1 == b.1 && lex_lt(lowercase(a.0), lowercase(b.0)))
}

/// Candidate values ranked best first.
pub open spec fn ranked(c: CandView) -> CandView {
    stable_sorted(c, |a: (Seq<char>, u8, Seq<Seq<char>>), b: (Seq<char>, u8, Seq<Seq<char>>)| rank_before_v(a, b))
}

pub proof fn lemma_ranked_view(c: Seq<(String, CandidateScore)>)
    ensures
        cview(stable_sorted(c, |a: (String, CandidateScore), b: (String, CandidateScore)| rank_before(a, b))) == ranked(cview(c)),
{
    let f = |e: (String, CandidateScore)| cand_of(e);
    let lta = |a: (String, CandidateScore), b: (String, CandidateScore)| rank_before(a, b);
    let ltb = |a: (Seq<char>, u8, Seq<Seq<char>>), b: (Seq<char>, u8, Seq<Seq<char>>)| rank_before_v(a, b);
    lemma_stable_sorted_map(c, f, lta, ltb);
    assert(cview(c) =~= c.map_values(f));
    let s = stable_sorted(c, lta);
    assert(cview(s) =~= s.map_values(f));
}

/// The best candidate's score, or 0.
pub open spec fn top_score(r: CandView) -> u8 {
    if r.len() > 0 { r[0].1 } else { 0 }
}

/// The second candidate's score, or 0.
pub open spec fn second_score(r: CandView) -> u8 {
    if r.len() > 1 { r[1].1 } else { 0 }
}

// ---------------------------------------------------------- keyword order

/// Keywords are listed by lowercase text, then by their own text.
pub open spec fn keyword_before(a: Seq<char>, b: Seq<char>) -> bool {
    lex_lt(lowercase(a), lowercase(b)) || (lowercase(a) == lowercase(b) && lex_lt(a, b))
}

pub open spec fn keyword_before_s(a: String, b: String) -> bool {
    keyword_before(a@, b@)
}

proof fn lemma_keyword_order()
    ensures
        strict_order(|a: String, b: String| keyword_before_s(a, b)),
{
    assert forall|a: String, b: String| #[trigger] keyword_before_s(a, b) implies !keyword_before_s(b, a) by {
        lemma_lex_asymmetric(lowercase(a@), lowercase(b@));
        lemma_lex_asymmetric(a@, b@);
        lemma_lex_irreflexive(lowercase(a@));
    }
    assert forall|a: String, b: String, c: String| #[trigger] keyword_before_s(a, b) && #[trigger] keyword_before_s(b, c) implies keyword_before_s(a, c) by {
        lemma_lex_transitive(lowercase(a@), lowercase(b@), lowercase(c@));
        lemma_lex_transitive(a@, b@, c@);
    }
}

fn keyword_less(a: &String, b: &String) -> (r: bool)
    ensures
        r == keyword_before_s(*a, *b),
{
    let av = chars_of(a.as_str());
    let bv = chars_of(b.as_str());
    let la = lower_chars(&av);
    let lb = lower_chars(&bv);
    let c = compare_chars(&la, &lb);
    if c != 0 {
        c < 0
    } else {
        compare_chars(&av, &bv) < 0
    }
}

/// Keywords sorted by lowercase text, then by text; stable.
pub fn sort_keywords(v: Vec<String>) -> (r: Vec<String>)
    ensures
        r@ == stable_sorted(v@, |a: String, b: String| keyword_before_s(a, b)),
        r@.len() == v@.len(),
        sviews(r@) == stable_sorted(sviews(v@), |a: Seq<char>, b: Seq<char>| keyword_before(a, b)),
{
    let ghost v0 = v@;
    let less = |a: &String, b: &String| -> (r: bool)
        ensures
            r == keyword_before_s(*a, *b),
        { keyword_less(a, b) };
    let r = sort_by(v, less, Ghost(|a: String, b: String| keyword_before_s(a, b)));
    proof {
        let f = |s: String| s@;
        lemma_stable_sorted_map(v0, f, |a: String, b: String| keyword_before_s(a, b), |a: Seq<char>, b: Seq<char>| keyword_before(a, b));
        assert(sviews(v0) =~= v0.map_values(f));
        assert(sviews(r@) =~= r@.map_values(f));
    }
    r
}

// ------------------------------------------------------- keyword gathering

/// Folder names usable as keywords: trimmed, at least two characters, each once.
pub open spec fn folder_keywords_of(names: Seq<Seq<char>>) -> Seq<Seq<char>>
    decreases names.len(),
{
    if names.len() == 0 {
        Seq::empty()
    } else {
        let prev = folder_keywords_of(names.drop_last());
        let n = trim(names.last());
        if n.len() >= 2 && !prev.contains(n) { prev.push(n) } else { prev }
    }
}

pub fn collect_folder_keywords(names: &Vec<String>) -> (r: Vec<String>)
    ensures
        sviews(r@) == folder_keywords_of(sviews(names@)),
{
    let ghost f = sviews(names@);
    let mut r: Vec<String> = Vec::new();
    let mut i: usize = 0;
    while i < names.len()
        invariant
            i <= names.len(),
            f == sviews(names@),
            sviews(r@) == folder_keywords_of(f.take(i as int)),
        decreases names.len() - i,
    {
        assert(f.take(i + 1).drop_last() =~= f.take(i as int));
        assert(f.take(i + 1).last() == names@[i as int]@);
        let c = chars_of(names[i].as_str());
        let t = trim_ws(&c);
        let ts = string_of(&t);
        if t.len() >= 2 && !contains_str(&r, ts.as_str()) {
            let ghost r0 = r@;
            r.push(ts);
            assert(sviews(r@) =~= sviews(r0).push(t@));
        }
        i = i + 1;
    }
    assert(f.take(names.len() as int) =~= f);
    r
}

/// `s` with `v` appended unless already present.
pub open spec fn push_new(s: Seq<Seq<char>>, v: Option<String>, enabled: bool) -> Seq<Seq<char>> {
    match v {
        Some(x) => if enabled && !s.contains(x@) { s.push(x@) } else { s },
        None => s,
    }
}

/// The distinct tag values of the enabled sources, in the order first seen.
pub open spec fn metadata_keywords_of(metas: Seq<MediaMetadata>, sources: Seq<Seq<char>>) -> Seq<Seq<char>>
    decreases metas.len(),
{
    if metas.len() == 0 {
        Seq::empty()
    } else {
        let prev = metadata_keywords_of(metas.drop_last(), sources);
        let m = metas.last();
        let a = push_new(prev, m.artist, sources.contains("artist"@));
        let b = push_new(a, m.album_artist, sources.contains("album_artist"@));
        let c = push_new(b, m.album, sources.contains("album"@));
        push_new(c, m.composer, sources.contains("composer"@))
    }
}

pub(crate) fn push_new_exec(r: &mut Vec<String>, v: &Option<String>, enabled: bool)
    ensures
        sviews(final(r)@) == push_new(sviews(old(r)@), *v, enabled),
{
    match v {
        Some(x) => {
            if enabled && !contains_str(r, x.as_str()) {
                let ghost r0 = r@;
                r.push(x.clone());
                assert(sviews(r@) =~= sviews(r0).push(x@));
            }
        },
        None => {},
    }
}

/// Whether creator exclusions apply to a dimension.
pub open spec fn uses_exclusions(d: ClassificationDimension) -> bool {
    d == ClassificationDimension::Creator || d == ClassificationDimension::All
}

/// Candidate keywords kept: at least two characters, not an excluded creator
/// (for the creator and all dimensions), and the first of each match key.
pub open spec fn kept_keywords(
    cands: Seq<Seq<char>>,
    d: ClassificationDimension,
    aliases: Seq<(Seq<char>, Seq<char>)>,
    exclusions: Seq<Seq<char>>,
) -> Seq<Seq<char>>
    decreases cands.len(),
{
    if cands.len() == 0 {
        Seq::empty()
    } else {
        let prev = kept_keywords(cands.drop_last(), d, aliases, exclusions);
        let k = cands.last();
        if k.len() >= 2 && !(uses_exclusions(d) && creator_excluded(k, aliases, exclusions)) && !prev.map_values(
            |x: Seq<char>| match_key(x),
        ).contains(match_key(k)) {
            prev.push(k)
        } else {
            prev
        }
    }
}

fn contains_key(keys: &Vec<String>, key: &str) -> (r: bool)
    ensures
        r == sviews(keys@).contains(key@),
{
    contains_str(keys, key)
}

/// The keywords for a scan: candidates filtered as `kept_keywords`, then sorted.
pub fn combine_keywords(
    candidates: &Vec<String>,
    dimension: ClassificationDimension,
    aliases: &AliasMap,
    exclusions: &Vec<String>,
) -> (r: Vec<String>)
    ensures
        r@ == stable_sorted(
            kept_seq(candidates@, dimension, aliases@, sviews(exclusions@)),
            |a: String, b: String| keyword_before_s(a, b),
        ),
        sviews(kept_seq(candidates@, dimension, aliases@, sviews(exclusions@))) == kept_keywords(
            sviews(candidates@),
            dimension,
            aliases@,
            sviews(exclusions@),
        ),
        sviews(r@) == stable_sorted(
            kept_keywords(sviews(candidates@), dimension, aliases@, sviews(exclusions@)),
            |a: Seq<char>, b: Seq<char>| keyword_before(a, b),
        ),
{
    let check = dimension == ClassificationDimension::Creator || dimension == ClassificationDimension::All;
    let mut kept: Vec<String> = Vec::new();
    let mut keys: Vec<String> = Vec::new();
    let ghost c = sviews(candidates@);
    let mut i: usize = 0;
    proof { lemma_kept_seq_view(candidates@.take(0), dimension, aliases@, sviews(exclusions@)); }
    assert(candidates@.take(0) =~= Seq::<String>::empty());
    while i < candidates.len()
        invariant
            i <= candidates.len(),
            c == sviews(candidates@),
            check == uses_exclusions(dimension),
            kept@ == kept_seq(candidates@.take(i as int), dimension, aliases@, sviews(exclusions@)),
            sviews(keys@) == sviews(kept@).map_values(|x: Seq<char>| match_key(x)),
        decreases candidates.len() - i,
    {
        assert(candidates@.take(i + 1).drop_last() =~= candidates@.take(i as int));
        let kv = chars_of(candidates[i].as_str());
        let key = normalize_match_text(candidates[i].as_str());
        let excluded = check && is_creator_keyword_excluded(candidates[i].as_str(), aliases, exclusions);
        if kv.len() >= 2 && !excluded && !contains_key(&keys, key.as_str()) {
            let ghost k0 = keys@;
            let ghost p0 = kept@;
            kept.push(candidates[i].clone());
            keys.push(key);
            assert(sviews(keys@) =~= sviews(k0).push(key@));
            assert(sviews(kept@) =~= sviews(p0).push(candidates@[i as int]@));
            assert(sviews(kept@).map_values(|x: Seq<char>| match_key(x)) =~= sviews(p0).map_values(
                |x: Seq<char>| match_key(x),
            ).push(match_key(candidates@[i as int]@)));
        }
        i = i + 1;
    }
    assert(candidates@.take(candidates.len() as int) =~= candidates@);
    proof { lemma_keyword_order(); lemma_kept_seq_view(candidates@, dimension, aliases@, sviews(exclusions@)); }
    sort_keywords(kept)
}

/// `kept_keywords` over the strings themselves.
pub open spec fn kept_seq(
    cands: Seq<String>,
    d: ClassificationDimension,
    aliases: Seq<(Seq<char>, Seq<char>)>,
    exclusions: Seq<Seq<char>>,
) -> Seq<String>
    decreases cands.len(),
{
    if cands.len() == 0 {
        Seq::empty()
    } else {
        let prev = kept_seq(cands.drop_last(), d, aliases, exclusions);
        let k = cands.last();
        if k@.len() >= 2 && !(uses_exclusions(d) && creator_excluded(k@, aliases, exclusions)) && !sviews(prev).map_values(
            |x: Seq<char>| match_key(x),
        ).contains(match_key(k@)) {
            prev.push(k)
        } else {
            prev
        }
    }
}

proof fn lemma_kept_seq_view(
    cands: Seq<String>,
    d: ClassificationDimension,
    aliases: Seq<(Seq<char>, Seq<char>)>,
    exclusions: Seq<Seq<char>>,
)
    ensures
        sviews(kept_seq(cands, d, aliases, exclusions)) == kept_keywords(sviews(cands), d, aliases, exclusions),
    decreases cands.len(),
{
    if cands.len() > 0 {
        lemma_kept_seq_view(cands.drop_last(), d, aliases, exclusions);
        assert(sviews(cands).drop_last() =~= sviews(cands.drop_last()));
        let prev = kept_seq(cands.drop_last(), d, aliases, exclusions);
        assert(sviews(prev.push(cands.last())) =~= sviews(prev).push(cands.last()@));
    }
}

} // verus!
