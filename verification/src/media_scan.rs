//! The media classification pass: from scanned files with their metadata to
//! keyword groups, unmatched files and keyword summaries.
use vstd::prelude::*;
use crate::classify::{
    add_candidate, add_spec, build_text_candidates, cview, cview_index, ranked, rank_candidates,
    lemma_ranked_view, text_candidates, top_score, second_score, auto_classifiable, is_auto_classifiable,
    AliasMap, Candidates, CandView, NormalizedKeywordMap, EXACT_COVER_ART_SCORE, keyword_before_s, sort_keywords,
};
use crate::metadata::{media_type_label, media_type_of, media_type_text, MediaMetadata};
use crate::models::{KeywordGroup, KeywordInfo, MediaFile};
use crate::order::{lemma_stable_sorted_elems, sorted_by, lex_lt_s, lemma_lex_total, compare_chars, lex_lt, sort_by, stable_sorted, lemma_stable_sorted_len, lemma_lex_asymmetric, lemma_lex_transitive, strict_order, lemma_stable_sorted_props};
use crate::paths::{name_or_empty, name_parts};
use crate::text::{chars_of, concat_chars, decimal, decimal_chars, owned, sviews, str_eq, string_of, copy_chars};

verus! {

/// A scanned media file with what was read from it.
#[derive(Debug, Clone)]
pub struct ScannedMedia {
    pub path: String,
    pub size_bytes: u64,
    pub metadata: MediaMetadata,
    pub modified_at: String,
}

// ------------------------------------------------------------- cover index

/// Files whose text evidence classified them on its own, by cover hash:
/// pairs of cover hash and winning keyword, in file order.
#[derive(Debug, Clone)]
pub struct CoverIndex {
    pub anchors: Vec<(String, String)>,
}

pub open spec fn anchor_views(a: Seq<(String, String)>) -> Seq<(Seq<char>, Seq<char>)> {
    Seq::new(a.len(), |i: int| (a[i].0@, a[i].1@))
}

/// The keywords anchored to cover `h`, in order.
pub open spec fn cover_keywords(anchors: Seq<(Seq<char>, Seq<char>)>, h: Seq<char>) -> Seq<Seq<char>>
    decreases anchors.len(),
{
    if anchors.len() == 0 {
        Seq::empty()
    } else {
        let prev = cover_keywords(anchors.drop_last(), h);
        if anchors.last().0 == h { prev.push(anchors.last().1) } else { prev }
    }
}

/// The keyword a cover stands for, with the number of files behind it: only when
/// every file anchored to the cover chose the same keyword.
pub open spec fn cover_owner(anchors: Seq<(Seq<char>, Seq<char>)>, h: Seq<char>) -> Option<(Seq<char>, nat)> {
    let ks = cover_keywords(anchors, h);
    if ks.len() > 0 && forall|i: int| 0 <= i < ks.len() ==> #[trigger] ks[i] == ks[0] {
        Some((ks[0], ks.len()))
    } else {
        None
    }
}

proof fn lemma_cover_keywords_contain(anchors: Seq<(Seq<char>, Seq<char>)>, h: Seq<char>, i: int)
    requires
        0 <= i < anchors.len(),
        anchors[i].0 == h,
    ensures
        cover_keywords(anchors, h).contains(anchors[i].1),
    decreases anchors.len(),
{
    let prev = anchors.drop_last();
    if i == anchors.len() - 1 {
        assert(cover_keywords(anchors, h).last() == anchors[i].1);
    } else {
        assert(prev[i] == anchors[i]);
        lemma_cover_keywords_contain(prev, h, i);
        let k = choose|k: int| 0 <= k < cover_keywords(prev, h).len() && cover_keywords(prev, h)[k] == anchors[i].1;
        assert(cover_keywords(anchors, h)[k] == anchors[i].1);
    }
}

/// A cover whose anchored files chose different keywords stands for none of
/// them, not even the keyword that most of them chose.
pub proof fn lemma_conflicting_cover_has_no_owner(anchors: Seq<(Seq<char>, Seq<char>)>, h: Seq<char>, i: int, j: int)
    requires
        0 <= i < anchors.len(),
        0 <= j < anchors.len(),
        anchors[i].0 == h,
        anchors[j].0 == h,
        anchors[i].1 != anchors[j].1,
    ensures
        cover_owner(anchors, h) is None,
{
    lemma_cover_keywords_contain(anchors, h, i);
    lemma_cover_keywords_contain(anchors, h, j);
    let ks = cover_keywords(anchors, h);
    let a = choose|a: int| 0 <= a < ks.len() && ks[a] == anchors[i].1;
    let b = choose|b: int| 0 <= b < ks.len() && ks[b] == anchors[j].1;
    if ks[a] == ks[0] {
        assert(ks[b] != ks[0]);
    }
}

impl CoverIndex {
    fn keywords_for(&self, h: &str) -> (r: Vec<String>)
        ensures
            sviews(r@) == cover_keywords(anchor_views(self.anchors@), h@),
    {
        let ghost a = anchor_views(self.anchors@);
        let mut r: Vec<String> = Vec::new();
        let mut i: usize = 0;
        assert(a.take(0) =~= Seq::<(Seq<char>, Seq<char>)>::empty());
        assert(sviews(r@) =~= Seq::<Seq<char>>::empty());
        while i < self.anchors.len()
            invariant
                i <= self.anchors.len(),
                a == anchor_views(self.anchors@),
                sviews(r@) == cover_keywords(a.take(i as int), h@),
            decreases self.anchors.len() - i,
        {
            assert(a.take(i + 1).drop_last() =~= a.take(i as int));
            assert(a.take(i + 1).last() == (self.anchors@[i as int].0@, self.anchors@[i as int].1@));
            if str_eq(self.anchors[i].0.as_str(), h) {
                let ghost r0 = r@;
                r.push(self.anchors[i].1.clone());
                assert(sviews(r@) =~= sviews(r0).push(self.anchors@[i as int].1@));
            }
            i = i + 1;
        }
        assert(a.take(self.anchors.len() as int) =~= a);
        r
    }

    /// The keyword that cover `h` stands for and how many files support it.
    pub fn owner(&self, h: &str) -> (r: Option<(String, u64)>)
        ensures
            match cover_owner(anchor_views(self.anchors@), h@) {
                Some((k, n)) => r matches Some((rk, rn)) && rk@ == k && rn as nat == n,
                None => r is None,
            },
    {
        let ks = self.keywords_for(h);
        let ghost kv = sviews(ks@);
        if ks.len() == 0 {
            assert(kv.len() == 0);
            return None;
        }
        let mut i: usize = 1;
        while i < ks.len()
            invariant
                1 <= i <= ks.len(),
                kv == sviews(ks@),
                kv == cover_keywords(anchor_views(self.anchors@), h@),
                forall|k: int| 0 <= k < i ==> #[trigger] kv[k] == kv[0],
            decreases ks.len() - i,
        {
            if !str_eq(ks[i].as_str(), ks[0].as_str()) {
                assert(kv[i as int] != kv[0]);
                assert(!(forall|k: int| 0 <= k < kv.len() ==> #[trigger] kv[k] == kv[0]));
                return None;
            }
            i = i + 1;
        }
        let n = ks.len() as u64;
        Some((ks[0].clone(), n))
    }
}

/// The note added when a cover confirms a candidate.
pub open spec fn cover_note(keyword: Seq<char>, n: nat) -> Seq<char> {
    "封面与“"@ + keyword + "”的 "@ + decimal(n) + " 个高置信度文件完全一致"@
}

fn make_cover_note(keyword: &str, n: u64) -> (r: String)
    ensures
        r@ == cover_note(keyword@, n as nat),
{
    let a = chars_of("封面与“");
    let k = chars_of(keyword);
    let b = chars_of("”的 ");
    let d = decimal_chars(n);
    let c = chars_of(" 个高置信度文件完全一致");
    let s1 = concat_chars(&a, &k);
    let s2 = concat_chars(&s1, &b);
    let s3 = concat_chars(&s2, &d);
    let s4 = concat_chars(&s3, &c);
    string_of(&s4)
}

/// A file's candidates once its cover has been consulted: an owned cover adds
/// its score to that keyword, but only if text already proposed it.
pub open spec fn with_cover(c: CandView, cover: Option<String>, anchors: Seq<(Seq<char>, Seq<char>)>) -> CandView {
    match cover {
        Some(h) => match cover_owner(anchors, h@) {
            Some((k, n)) => if cview_index(c, k) is Some {
                add_spec(c, k, EXACT_COVER_ART_SCORE, cover_note(k, n))
            } else {
                c
            },
            None => c,
        },
        None => c,
    }
}

/// What the classifier knows when it scores a file.
pub struct ClassifyContext {
    pub roots: Vec<String>,
    pub keywords: Vec<String>,
    pub folders: NormalizedKeywordMap,
    pub aliases: AliasMap,
    pub saved: bool,
    pub sources: Vec<String>,
}

/// What the classifier knows, as values: scan roots, keywords, folder-keyword
/// entries, alias pairs, whether the keywords are a curated group, and sources.
pub struct ContextView {
    pub roots: Seq<Seq<char>>,
    pub keywords: Seq<Seq<char>>,
    pub folders: Seq<(Seq<char>, Seq<char>, Seq<char>)>,
    pub aliases: Seq<(Seq<char>, Seq<char>)>,
    pub saved: bool,
    pub sources: Seq<Seq<char>>,
}

impl View for ClassifyContext {
    type V = ContextView;

    open spec fn view(&self) -> ContextView {
        ContextView {
            roots: sviews(self.roots@),
            keywords: sviews(self.keywords@),
            folders: self.folders@,
            aliases: self.aliases@,
            saved: self.saved,
            sources: sviews(self.sources@),
        }
    }
}

pub open spec fn text_cands(f: ScannedMedia, ctx: ContextView) -> CandView {
    text_candidates(f.path@, ctx.roots, ctx.keywords, ctx.folders, ctx.aliases, ctx.saved, ctx.sources, f.metadata)
}

/// The cover anchors that the files provide.
pub open spec fn anchors_of(files: Seq<ScannedMedia>, ctx: ContextView) -> Seq<(Seq<char>, Seq<char>)>
    decreases files.len(),
{
    if files.len() == 0 {
        Seq::empty()
    } else {
        let prev = anchors_of(files.drop_last(), ctx);
        let f = files.last();
        match f.metadata.cover_art_hash {
            Some(h) => {
                let r = ranked(text_cands(f, ctx));
                if auto_classifiable(top_score(r), second_score(r)) {
                    prev.push((h@, r[0].0))
                } else {
                    prev
                }
            },
            None => prev,
        }
    }
}

fn ranked_text(f: &ScannedMedia, ctx: &ClassifyContext) -> (r: Candidates)
    ensures
        cview(r@) == ranked(text_cands(*f, ctx@)),
{
    let c = build_text_candidates(
        f.path.as_str(),
        &ctx.roots,
        &ctx.keywords,
        &ctx.folders,
        &ctx.aliases,
        ctx.saved,
        &ctx.sources,
        &f.metadata,
    );
    proof { lemma_ranked_view(c@); }
    rank_candidates(c)
}

fn scores(r: &Candidates) -> (s: (u8, u8))
    ensures
        s.0 == top_score(cview(r@)),
        s.1 == second_score(cview(r@)),
{
    let a = if r.len() > 0 { r[0].1.score } else { 0 };
    let b = if r.len() > 1 { r[1].1.score } else { 0 };
    (a, b)
}

/// Finds, for every cover, the keyword that its confidently classified files share.
pub fn build_cover_art_evidence(files: &Vec<ScannedMedia>, ctx: &ClassifyContext) -> (r: CoverIndex)
    ensures
        anchor_views(r.anchors@) == anchors_of(files@, ctx@),
{
    let mut anchors: Vec<(String, String)> = Vec::new();
    let mut i: usize = 0;
    assert(files@.take(0) =~= Seq::<ScannedMedia>::empty());
    assert(anchor_views(anchors@) =~= Seq::<(Seq<char>, Seq<char>)>::empty());
    while i < files.len()
        invariant
            i <= files.len(),
            anchor_views(anchors@) == anchors_of(files@.take(i as int), ctx@),
        decreases files.len() - i,
    {
        assert(files@.take(i + 1).drop_last() =~= files@.take(i as int));
        assert(files@.take(i + 1).last() == files@[i as int]);
        match &files[i].metadata.cover_art_hash {
            Some(h) => {
                let r = ranked_text(&files[i], ctx);
                let (top, second) = scores(&r);
                if is_auto_classifiable(top, second) {
                    let ghost a0 = anchors@;
                    anchors.push((h.clone(), r[0].0.clone()));
                    assert(anchor_views(anchors@) =~= anchor_views(a0).push((h@, cview(r@)[0].0)));
                }
            },
            None => {},
        }
        i = i + 1;
    }
    assert(files@.take(files.len() as int) =~= files@);
    CoverIndex { anchors }
}

// -------------------------------------------------------------- per file

/// A file's ranked candidates, cover included.
pub open spec fn file_ranking(f: ScannedMedia, ctx: ContextView, anchors: Seq<(Seq<char>, Seq<char>)>) -> CandView {
    ranked(with_cover(text_cands(f, ctx), f.metadata.cover_art_hash, anchors))
}

/// Whether a file is classified without asking.
pub open spec fn file_auto(f: ScannedMedia, ctx: ContextView, anchors: Seq<(Seq<char>, Seq<char>)>) -> bool {
    let r = file_ranking(f, ctx, anchors);
    auto_classifiable(top_score(r), second_score(r))
}

pub open spec fn media_type_or_unknown(path: Seq<char>) -> Seq<char> {
    match media_type_of(path) {
        Some(t) => media_type_text(t),
        None => "unknown"@,
    }
}

/// The entry a scanned file becomes, given its ranking.
pub open spec fn media_file_fits(m: MediaFile, f: ScannedMedia, r: CandView, auto: bool) -> bool {
    &&& m.path@ == f.path@
    &&& m.file_name@ == name_or_empty(f.path@)
    &&& m.size_bytes == f.size_bytes
    &&& m.media_type@ == media_type_or_unknown(f.path@)
    &&& sviews(m.matched_keywords@) == r.map_values(|e: (Seq<char>, u8, Seq<Seq<char>>)| e.0)
    &&& m.confidence == top_score(r)
    &&& sviews(m.evidence@) == (if r.len() > 0 { r[0].2 } else { Seq::<Seq<char>>::empty() })
    &&& m.requires_confirmation == !auto
    &&& m.modified_at@ == f.modified_at@
    &&& m.checked == auto
}

fn classify_file(f: &ScannedMedia, ctx: &ClassifyContext, covers: &CoverIndex) -> (r: (MediaFile, bool))
    ensures
        r.1 == file_auto(*f, ctx@, anchor_views(covers.anchors@)),
        media_file_fits(r.0, *f, file_ranking(*f, ctx@, anchor_views(covers.anchors@)), r.1),
        r.1 ==> r.0.matched_keywords@.len() > 0,
{
    let ghost anchors = anchor_views(covers.anchors@);
    let mut c = build_text_candidates(
        f.path.as_str(),
        &ctx.roots,
        &ctx.keywords,
        &ctx.folders,
        &ctx.aliases,
        ctx.saved,
        &ctx.sources,
        &f.metadata,
    );
    let ghost c0 = cview(c@);
    match &f.metadata.cover_art_hash {
        Some(h) => {
            match covers.owner(h.as_str()) {
                Some((k, n)) => {
                    let present = candidate_present(&c, k.as_str());
                    if present {
                        let note = make_cover_note(k.as_str(), n);
                        add_candidate(&mut c, k.as_str(), EXACT_COVER_ART_SCORE, note.as_str());
                    }
                },
                None => {},
            }
        },
        None => {},
    }
    assert(cview(c@) == with_cover(c0, f.metadata.cover_art_hash, anchors));
    proof { lemma_ranked_view(c@); }
    let r = rank_candidates(c);
    let (top, second) = scores(&r);
    let auto = is_auto_classifiable(top, second);
    let mut matched: Vec<String> = Vec::new();
    let mut i: usize = 0;
    while i < r.len()
        invariant
            i <= r.len(),
            sviews(matched@) =~= cview(r@).take(i as int).map_values(|e: (Seq<char>, u8, Seq<Seq<char>>)| e.0),
        decreases r.len() - i,
    {
        let ghost m0 = matched@;
        matched.push(r[i].0.clone());
        assert(sviews(matched@) =~= sviews(m0).push(r@[i as int].0@));
        assert(cview(r@).take(i + 1).map_values(|e: (Seq<char>, u8, Seq<Seq<char>>)| e.0) =~= cview(r@).take(
            i as int,
        ).map_values(|e: (Seq<char>, u8, Seq<Seq<char>>)| e.0).push(cview(r@)[i as int].0));
        i = i + 1;
    }
    assert(cview(r@).take(r.len() as int) =~= cview(r@));
    let evidence = if r.len() > 0 { crate::text::clone_strings(&r[0].1.evidence) } else { Vec::new() };
    assert(sviews(evidence@) =~= (if cview(r@).len() > 0 { cview(r@)[0].2 } else { Seq::<Seq<char>>::empty() }));
    let pv = chars_of(f.path.as_str());
    let (name, _stem, _ext) = name_parts(&pv);
    let media_type = match media_type_label(f.path.as_str()) {
        Some(t) => owned(t),
        None => owned("unknown"),
    };
    let m = MediaFile {
        path: f.path.clone(),
        file_name: string_of(&name),
        size_bytes: f.size_bytes,
        media_type,
        matched_keywords: matched,
        confidence: top,
        evidence,
        requires_confirmation: !auto,
        modified_at: f.modified_at.clone(),
        checked: auto,
    };
    (m, auto)
}

fn candidate_present(c: &Candidates, k: &str) -> (r: bool)
    ensures
        r == cview_index(cview(c@), k@) is Some,
{
    proof { crate::classify::lemma_cview_index_pub(c@, k@); }
    crate::classify::candidate_score(c, k).is_some()
}

// ---------------------------------------------------------------- grouping

/// `m` is the entry of one of the first `upto` files, classified as `auto` says.
pub open spec fn from_file(m: MediaFile, files: Seq<ScannedMedia>, upto: int, ctx: ContextView, anchors: Seq<(Seq<char>, Seq<char>)>, auto: bool) -> bool {
    exists|j: int| 0 <= j < upto && #[trigger] file_auto(files[j], ctx, anchors) == auto && media_file_fits(
        m,
        files[j],
        file_ranking(files[j], ctx, anchors),
        auto,
    )
}

/// The number of files held by a list of groups.
pub open spec fn grouped_count(gs: Seq<KeywordGroup>) -> int
    decreases gs.len(),
{
    if gs.len() == 0 {
        0
    } else {
        grouped_count(gs.drop_last()) + gs.last().files@.len()
    }
}

proof fn lemma_grouped_count_update(gs: Seq<KeywordGroup>, g: int, x: KeywordGroup)
    requires
        0 <= g < gs.len(),
    ensures
        grouped_count(gs.update(g, x)) == grouped_count(gs) - gs[g].files@.len() + x.files@.len(),
    decreases gs.len(),
{
    if g < gs.len() - 1 {
        lemma_grouped_count_update(gs.drop_last(), g, x);
        assert(gs.update(g, x).drop_last() =~= gs.drop_last().update(g, x));
    } else {
        assert(gs.update(g, x).drop_last() =~= gs.drop_last());
    }
}

proof fn lemma_grouped_count_insert(gs: Seq<KeywordGroup>, p: int, x: KeywordGroup)
    requires
        0 <= p <= gs.len(),
    ensures
        grouped_count(gs.insert(p, x)) == grouped_count(gs) + x.files@.len(),
    decreases gs.len(),
{
    if p == gs.len() {
        assert(gs.insert(p, x) =~= gs.push(x));
        assert(gs.push(x).drop_last() =~= gs);
    } else {
        lemma_grouped_count_insert(gs.drop_last(), p, x);
        assert(gs.insert(p, x).drop_last() =~= gs.drop_last().insert(p, x));
    }
}

proof fn lemma_grouped_count_sorted(gs: Seq<KeywordGroup>, lt: spec_fn(KeywordGroup, KeywordGroup) -> bool)
    ensures
        grouped_count(stable_sorted(gs, lt)) == grouped_count(gs),
    decreases gs.len(),
{
    if gs.len() > 0 {
        lemma_grouped_count_sorted(gs.drop_last(), lt);
        let p = stable_sorted(gs.drop_last(), lt);
        lemma_stable_sorted_len(gs.drop_last(), lt);
        crate::order::lemma_insert_pos_range(p, gs.last(), lt, 0);
        lemma_grouped_count_insert(p, crate::order::insert_pos(p, gs.last(), lt, 0), gs.last());
    }
}

/// The paths of a list of entries.
pub open spec fn entry_paths(fs: Seq<MediaFile>) -> Seq<Seq<char>> {
    fs.map_values(|m: MediaFile| m.path@)
}

/// The paths of the scanned files.
pub open spec fn scanned_paths(files: Seq<ScannedMedia>) -> Seq<Seq<char>> {
    files.map_values(|f: ScannedMedia| f.path@)
}

/// The paths filed in a list of groups, with multiplicity.
pub open spec fn grouped_paths(gs: Seq<KeywordGroup>) -> vstd::multiset::Multiset<Seq<char>>
    decreases gs.len(),
{
    if gs.len() == 0 {
        vstd::multiset::Multiset::empty()
    } else {
        grouped_paths(gs.drop_last()).add(entry_paths(gs.last().files@).to_multiset())
    }
}

proof fn lemma_grouped_paths_update(gs: Seq<KeywordGroup>, g: int, x: KeywordGroup, p: Seq<char>)
    requires
        0 <= g < gs.len(),
        entry_paths(x.files@).to_multiset() == entry_paths(gs[g].files@).to_multiset().insert(p),
    ensures
        grouped_paths(gs.update(g, x)) == grouped_paths(gs).insert(p),
    decreases gs.len(),
{
    broadcast use vstd::multiset::group_multiset_axioms;
    if g < gs.len() - 1 {
        lemma_grouped_paths_update(gs.drop_last(), g, x, p);
        assert(gs.update(g, x).drop_last() =~= gs.drop_last().update(g, x));
    } else {
        assert(gs.update(g, x).drop_last() =~= gs.drop_last());
    }
    assert(grouped_paths(gs.update(g, x)) =~= grouped_paths(gs).insert(p));
}

proof fn lemma_grouped_paths_insert(gs: Seq<KeywordGroup>, p: int, x: KeywordGroup)
    requires
        0 <= p <= gs.len(),
    ensures
        grouped_paths(gs.insert(p, x)) == grouped_paths(gs).add(entry_paths(x.files@).to_multiset()),
    decreases gs.len(),
{
    broadcast use vstd::multiset::group_multiset_axioms;
    if p == gs.len() {
        assert(gs.insert(p, x) =~= gs.push(x));
        assert(gs.push(x).drop_last() =~= gs);
    } else {
        lemma_grouped_paths_insert(gs.drop_last(), p, x);
        assert(gs.insert(p, x).drop_last() =~= gs.drop_last().insert(p, x));
        assert(gs.insert(p, x).last() == gs.last());
    }
    assert(grouped_paths(gs.insert(p, x)) =~= grouped_paths(gs).add(entry_paths(x.files@).to_multiset()));
}

proof fn lemma_grouped_paths_sorted(gs: Seq<KeywordGroup>, lt: spec_fn(KeywordGroup, KeywordGroup) -> bool)
    ensures
        grouped_paths(stable_sorted(gs, lt)) == grouped_paths(gs),
    decreases gs.len(),
{
    if gs.len() > 0 {
        lemma_grouped_paths_sorted(gs.drop_last(), lt);
        let p = stable_sorted(gs.drop_last(), lt);
        lemma_stable_sorted_len(gs.drop_last(), lt);
        crate::order::lemma_insert_pos_range(p, gs.last(), lt, 0);
        lemma_grouped_paths_insert(p, crate::order::insert_pos(p, gs.last(), lt, 0), gs.last());
    }
}

/// A group's files and the keyword they are filed under.
pub open spec fn group_fits(g: KeywordGroup, files: Seq<ScannedMedia>, upto: int, ctx: ContextView, anchors: Seq<(Seq<char>, Seq<char>)>) -> bool {
    &&& g.files@.len() >= 1
    &&& forall|k: int| 0 <= k < g.files@.len() ==> from_file(#[trigger] g.files@[k], files, upto, ctx, anchors, true)
        && g.files@[k].matched_keywords@.len() > 0 && g.files@[k].matched_keywords@[0]@ == g.keyword@
}

pub open spec fn keywords_distinct(gs: Seq<KeywordGroup>) -> bool {
    forall|a: int, b: int| 0 <= a < b < gs.len() ==> #[trigger] gs[a].keyword@ != #[trigger] gs[b].keyword@
}

fn find_group(gs: &Vec<KeywordGroup>, keyword: &str) -> (r: Option<usize>)
    ensures
        r matches Some(g) ==> g < gs.len() && gs@[g as int].keyword@ == keyword@,
        r is None ==> forall|g: int| 0 <= g < gs.len() ==> gs@[g].keyword@ != keyword@,
{
    let mut i: usize = 0;
    while i < gs.len()
        invariant
            i <= gs.len(),
            forall|g: int| 0 <= g < i ==> gs@[g].keyword@ != keyword@,
        decreases gs.len() - i,
    {
        if str_eq(gs[i].keyword.as_str(), keyword) {
            return Some(i);
        }
        i = i + 1;
    }
    None
}

fn clone_media_files(v: &Vec<MediaFile>) -> (r: Vec<MediaFile>)
    ensures
        r@.len() == v@.len(),
        forall|k: int| 0 <= k < v@.len() ==> media_file_same(#[trigger] r@[k], v@[k]),
{
    let mut r: Vec<MediaFile> = Vec::new();
    let mut i: usize = 0;
    while i < v.len()
        invariant
            i <= v.len(),
            r@.len() == i,
            forall|k: int| 0 <= k < i ==> media_file_same(#[trigger] r@[k], v@[k]),
        decreases v.len() - i,
    {
        r.push(clone_media_file(&v[i]));
        i = i + 1;
    }
    r
}

/// Two entries that agree in every field.
pub open spec fn media_file_same(a: MediaFile, b: MediaFile) -> bool {
    &&& a.path@ == b.path@
    &&& a.file_name@ == b.file_name@
    &&& a.size_bytes == b.size_bytes
    &&& a.media_type@ == b.media_type@
    &&& a.matched_keywords@ == b.matched_keywords@
    &&& a.confidence == b.confidence
    &&& a.evidence@ == b.evidence@
    &&& a.requires_confirmation == b.requires_confirmation
    &&& a.modified_at@ == b.modified_at@
    &&& a.checked == b.checked
}

fn clone_media_file(m: &MediaFile) -> (r: MediaFile)
    ensures
        media_file_same(r, *m),
{
    MediaFile {
        path: m.path.clone(),
        file_name: m.file_name.clone(),
        size_bytes: m.size_bytes,
        media_type: m.media_type.clone(),
        matched_keywords: crate::text::clone_strings(&m.matched_keywords),
        confidence: m.confidence,
        evidence: crate::text::clone_strings(&m.evidence),
        requires_confirmation: m.requires_confirmation,
        modified_at: m.modified_at.clone(),
        checked: m.checked,
    }
}

proof fn lemma_same_fits(a: MediaFile, b: MediaFile, f: ScannedMedia, r: CandView, auto: bool)
    requires
        media_file_same(a, b),
        media_file_fits(b, f, r, auto),
    ensures
        media_file_fits(a, f, r, auto),
{
}

/// Splits the files into groups by winning keyword and the files that need a decision.
pub fn group_media_files(files: &Vec<ScannedMedia>, ctx: &ClassifyContext, covers: &CoverIndex) -> (r: (Vec<KeywordGroup>, Vec<MediaFile>))
    ensures
        forall|g: int| 0 <= g < r.0@.len() ==> group_fits(#[trigger] r.0@[g], files@, files@.len() as int, ctx@, anchor_views(covers.anchors@)),
        keywords_distinct(r.0@),
        forall|k: int| 0 <= k < r.1@.len() ==> from_file(#[trigger] r.1@[k], files@, files@.len() as int, ctx@, anchor_views(covers.anchors@), false),
        grouped_count(r.0@) + r.1@.len() == files@.len(),
        grouped_paths(r.0@).add(entry_paths(r.1@).to_multiset()) == scanned_paths(files@).to_multiset(),
{
    broadcast use vstd::multiset::group_multiset_axioms;
    let ghost anchors = anchor_views(covers.anchors@);
    let mut groups: Vec<KeywordGroup> = Vec::new();
    let mut unmatched: Vec<MediaFile> = Vec::new();
    let mut i: usize = 0;
    proof {
        broadcast use vstd::seq_lib::group_to_multiset_ensures;
        assert(scanned_paths(files@.take(0)) =~= Seq::<Seq<char>>::empty());
        assert(entry_paths(unmatched@) =~= Seq::<Seq<char>>::empty());
        assert(grouped_paths(groups@).add(entry_paths(unmatched@).to_multiset()) =~= scanned_paths(files@.take(0)).to_multiset());
    }
    while i < files.len()
        invariant
            i <= files.len(),
            anchors == anchor_views(covers.anchors@),
            forall|g: int| 0 <= g < groups@.len() ==> group_fits(#[trigger] groups@[g], files@, i as int, ctx@, anchors),
            keywords_distinct(groups@),
            forall|k: int| 0 <= k < unmatched@.len() ==> from_file(#[trigger] unmatched@[k], files@, i as int, ctx@, anchors, false),
            grouped_count(groups@) + unmatched@.len() == i,
            grouped_paths(groups@).add(entry_paths(unmatched@).to_multiset()) == scanned_paths(files@.take(i as int)).to_multiset(),
        decreases files.len() - i,
    {
        let ghost before = grouped_paths(groups@).add(entry_paths(unmatched@).to_multiset());
        proof {
            assert(scanned_paths(files@.take(i + 1)) =~= scanned_paths(files@.take(i as int)).push(files@[i as int].path@));
            vstd::seq_lib::to_multiset_build(scanned_paths(files@.take(i as int)), files@[i as int].path@);
        }
        let (m, auto) = classify_file(&files[i], ctx, covers);
        assert(from_file(m, files@, i + 1, ctx@, anchors, auto)) by {
            assert(file_auto(files@[i as int], ctx@, anchors) == auto);
        }
        assert forall|g: int| 0 <= g < groups@.len() implies group_fits(#[trigger] groups@[g], files@, i + 1, ctx@, anchors) by {
            assert forall|k: int| 0 <= k < groups@[g].files@.len() implies from_file(#[trigger] groups@[g].files@[k], files@, i + 1, ctx@, anchors, true) by {
                assert(from_file(groups@[g].files@[k], files@, i as int, ctx@, anchors, true));
            }
        }
        assert forall|k: int| 0 <= k < unmatched@.len() implies from_file(#[trigger] unmatched@[k], files@, i + 1, ctx@, anchors, false) by {
            assert(from_file(unmatched@[k], files@, i as int, ctx@, anchors, false));
        }
        if auto {
            let key = m.matched_keywords[0].clone();
            match find_group(&groups, key.as_str()) {
                Some(g) => {
                    let ghost gs0 = groups@;
                    let mut fl = clone_media_files(&groups[g].files);
                    let ghost old_files = groups@[g as int].files@;
                    fl.push(m);
                    let kw = groups[g].keyword.clone();
                    let ng = KeywordGroup { keyword: kw, file_count: 0, total_size: 0, files: fl };
                    assert(group_fits(ng, files@, i + 1, ctx@, anchors)) by {
                        assert forall|k: int| 0 <= k < ng.files@.len() implies from_file(#[trigger] ng.files@[k], files@, i + 1, ctx@, anchors, true)
                            && ng.files@[k].matched_keywords@.len() > 0 && ng.files@[k].matched_keywords@[0]@ == ng.keyword@ by {
                            if k < old_files.len() {
                                let j = choose|j: int| 0 <= j < i + 1 && #[trigger] file_auto(files@[j], ctx@, anchors) == true && media_file_fits(
                                    old_files[k], files@[j], file_ranking(files@[j], ctx@, anchors), true);
                                lemma_same_fits(ng.files@[k], old_files[k], files@[j], file_ranking(files@[j], ctx@, anchors), true);
                            }
                        }
                    }
                    proof {
                        assert(entry_paths(ng.files@) =~= entry_paths(old_files).push(m.path@)) by {
                            assert forall|k: int| 0 <= k < old_files.len() implies #[trigger] ng.files@[k].path@ == old_files[k].path@ by {
                                assert(media_file_same(ng.files@[k], old_files[k]));
                            }
                        }
                        vstd::seq_lib::to_multiset_build(entry_paths(old_files), m.path@);
                        lemma_grouped_paths_update(gs0, g as int, ng, m.path@);
                    }
                    groups.set(g, ng);
                    proof {
                        lemma_grouped_count_update(gs0, g as int, ng);
                        assert(groups@ == gs0.update(g as int, ng));
                        assert(grouped_paths(groups@).add(entry_paths(unmatched@).to_multiset()) =~= before.insert(m.path@));
                    }
                },
                None => {
                    let ghost gs0 = groups@;
                    let mut fl: Vec<MediaFile> = Vec::new();
                    fl.push(m);
                    let ng = KeywordGroup { keyword: key, file_count: 0, total_size: 0, files: fl };
                    groups.push(ng);
                    assert(groups@.drop_last() =~= gs0);
                    proof {
                        broadcast use vstd::seq_lib::group_to_multiset_ensures;
                        assert(entry_paths(ng.files@) =~= Seq::<Seq<char>>::empty().push(m.path@));
                        vstd::seq_lib::to_multiset_build(Seq::<Seq<char>>::empty(), m.path@);
                        assert(Seq::<Seq<char>>::empty().to_multiset() =~= vstd::multiset::Multiset::empty());
                        assert(grouped_paths(groups@).add(entry_paths(unmatched@).to_multiset()) =~= before.insert(m.path@));
                    }
                }
            }
        } else {
            let ghost u0 = unmatched@;
            unmatched.push(m);
            proof {
                assert(entry_paths(unmatched@) =~= entry_paths(u0).push(m.path@));
                vstd::seq_lib::to_multiset_build(entry_paths(u0), m.path@);
                assert(grouped_paths(groups@).add(entry_paths(unmatched@).to_multiset()) =~= before.insert(m.path@));
            }
        }
        i = i + 1;
    }
    assert(files@.take(files.len() as int) =~= files@);
    (groups, unmatched)
}

// -------------------------------------------------------------- ordering

pub open spec fn name_before(a: MediaFile, b: MediaFile) -> bool {
    lex_lt(a.file_name@, b.file_name@)
}

pub open spec fn keyword_first(a: KeywordGroup, b: KeywordGroup) -> bool {
    lex_lt(a.keyword@, b.keyword@)
}

/// Groups ordered by keyword text.
pub open spec fn by_keyword() -> spec_fn(KeywordGroup, KeywordGroup) -> bool {
    |x: KeywordGroup, y: KeywordGroup| keyword_first(x, y)
}

/// Files ordered by file name.
pub open spec fn by_name() -> spec_fn(MediaFile, MediaFile) -> bool {
    |x: MediaFile, y: MediaFile| name_before(x, y)
}

pub proof fn lemma_name_order()
    ensures
        strict_order(by_name()),
{
    assert forall|a: MediaFile, b: MediaFile| #[trigger] name_before(a, b) implies !name_before(b, a) by {
        lemma_lex_asymmetric(a.file_name@, b.file_name@);
    }
    assert forall|a: MediaFile, b: MediaFile, c: MediaFile| #[trigger] name_before(a, b) && #[trigger] name_before(b, c) implies name_before(a, c) by {
        lemma_lex_transitive(a.file_name@, b.file_name@, c.file_name@);
    }
}

proof fn lemma_group_order()
    ensures
        strict_order(by_keyword()),
{
    assert forall|a: KeywordGroup, b: KeywordGroup| #[trigger] keyword_first(a, b) implies !keyword_first(b, a) by {
        lemma_lex_asymmetric(a.keyword@, b.keyword@);
    }
    assert forall|a: KeywordGroup, b: KeywordGroup, c: KeywordGroup| #[trigger] keyword_first(a, b) && #[trigger] keyword_first(b, c) implies keyword_first(a, c) by {
        lemma_lex_transitive(a.keyword@, b.keyword@, c.keyword@);
    }
}

/// Files sorted by file name; stable.
pub fn sort_by_file_name(v: Vec<MediaFile>) -> (r: Vec<MediaFile>)
    ensures
        r@ == stable_sorted(v@, by_name()),
        r@.len() == v@.len(),
{
    let less = |a: &MediaFile, b: &MediaFile| -> (r: bool)
        ensures
            r == name_before(*a, *b),
        {
            let x = chars_of(a.file_name.as_str());
            let y = chars_of(b.file_name.as_str());
            compare_chars(&x, &y) < 0
        };
    sort_by(v, less, Ghost(by_name()))
}

fn sort_groups(v: Vec<KeywordGroup>) -> (r: Vec<KeywordGroup>)
    ensures
        r@ == groups_by_keyword(v@),
{
    let less = |a: &KeywordGroup, b: &KeywordGroup| -> (r: bool)
        ensures
            r == keyword_first(*a, *b),
        {
            let x = chars_of(a.keyword.as_str());
            let y = chars_of(b.keyword.as_str());
            compare_chars(&x, &y) < 0
        };
    sort_by(v, less, Ghost(by_keyword()))
}

/// The sum of the files' sizes.
pub open spec fn size_sum(fs: Seq<MediaFile>) -> int
    decreases fs.len(),
{
    if fs.len() == 0 { 0 } else { size_sum(fs.drop_last()) + fs.last().size_bytes }
}

/// `n`, or `u64::MAX` when it does not fit.
pub open spec fn capped(n: int) -> u64 {
    if n > u64::MAX { u64::MAX } else { n as u64 }
}

fn total_size(fs: &Vec<MediaFile>) -> (r: u64)
    ensures
        r == capped(size_sum(fs@)),
{
    let mut total: u64 = 0;
    let mut i: usize = 0;
    while i < fs.len()
        invariant
            i <= fs.len(),
            total == capped(size_sum(fs@.take(i as int))),
            size_sum(fs@.take(i as int)) >= 0,
        decreases fs.len() - i,
    {
        assert(fs@.take(i + 1).drop_last() =~= fs@.take(i as int));
        total = total.saturating_add(fs[i].size_bytes);
        i = i + 1;
    }
    assert(fs@.take(fs.len() as int) =~= fs@);
    total
}

/// A finished group: files by name, counted and summed.
pub open spec fn group_finished(g: KeywordGroup) -> bool {
    &&& g.file_count == g.files@.len()
    &&& g.total_size == capped(size_sum(g.files@))
    &&& sorted_by(g.files@, by_name())
}

fn finish_group(g: &KeywordGroup, Ghost(files): Ghost<Seq<ScannedMedia>>, Ghost(ctx): Ghost<ContextView>, Ghost(anchors): Ghost<Seq<(Seq<char>, Seq<char>)>>) -> (r: KeywordGroup)
    requires
        group_fits(*g, files, files.len() as int, ctx, anchors),
    ensures
        group_fits(r, files, files.len() as int, ctx, anchors),
        group_finished(r),
        r.keyword@ == g.keyword@,
        r.files@.len() == g.files@.len(),
        entry_paths(r.files@).to_multiset() == entry_paths(g.files@).to_multiset(),
{
    proof { lemma_name_order(); }
    let fl = clone_media_files(&g.files);
    let ghost fs0 = fl@;
    let sorted = sort_by_file_name(fl);
    proof {
        lemma_stable_sorted_elems(fs0, by_name());
        crate::order::lemma_stable_sorted_props(fs0, by_name());
        let f = |m: MediaFile| m.path@;
        crate::order::lemma_stable_sorted_map_multiset(fs0, by_name(), f);
        assert(entry_paths(sorted@) =~= sorted@.map_values(f));
        assert(entry_paths(fs0) =~= fs0.map_values(f));
        assert forall|k: int| 0 <= k < fs0.len() implies #[trigger] fs0[k].path@ == g.files@[k].path@ by {
            assert(media_file_same(fs0[k], g.files@[k]));
        }
        assert(entry_paths(fs0) =~= entry_paths(g.files@));
    }
    let count = sorted.len() as u64;
    let size = total_size(&sorted);
    let ng = KeywordGroup { keyword: g.keyword.clone(), file_count: count, total_size: size, files: sorted };
    assert forall|k: int| 0 <= k < ng.files@.len() implies from_file(#[trigger] ng.files@[k], files, files.len() as int, ctx, anchors, true)
        && ng.files@[k].matched_keywords@.len() > 0 && ng.files@[k].matched_keywords@[0]@ == ng.keyword@ by {
        assert(ng.files@.contains(ng.files@[k]));
        assert(fs0.contains(ng.files@[k]));
        let w = choose|w: int| 0 <= w < fs0.len() && fs0[w] == ng.files@[k];
        assert(media_file_same(fs0[w], g.files@[w]));
        assert(from_file(g.files@[w], files, files.len() as int, ctx, anchors, true));
        let j = choose|j: int| 0 <= j < files.len() && #[trigger] file_auto(files[j], ctx, anchors) == true && media_file_fits(
            g.files@[w], files[j], file_ranking(files[j], ctx, anchors), true);
        lemma_same_fits(ng.files@[k], g.files@[w], files[j], file_ranking(files[j], ctx, anchors), true);
    }
    ng
}

/// Groups sorted by keyword; stable.
pub open spec fn groups_by_keyword(dn: Seq<KeywordGroup>) -> Seq<KeywordGroup> {
    stable_sorted(dn, by_keyword())
}

proof fn lemma_sorted_groups_strict(dn: Seq<KeywordGroup>)
    requires
        keywords_distinct(dn),
    ensures
        forall|a: int, b: int| 0 <= a < b < groups_by_keyword(dn).len()
            ==> lex_lt(#[trigger] groups_by_keyword(dn)[a].keyword@, #[trigger] groups_by_keyword(dn)[b].keyword@),
{
    let r = groups_by_keyword(dn);
    lemma_group_order();
    lemma_stable_sorted_elems(dn, by_keyword());
    crate::order::lemma_stable_sorted_props(dn, by_keyword());
    assert forall|a: int, b: int| 0 <= a < b < r.len() implies lex_lt(#[trigger] r[a].keyword@, #[trigger] r[b].keyword@) by {
        assert(r.contains(r[a]));
        assert(r.contains(r[b]));
        assert(dn.contains(r[a]));
        assert(dn.contains(r[b]));
        let x = choose|x: int| 0 <= x < dn.len() && dn[x] == r[a];
        let y = choose|y: int| 0 <= y < dn.len() && dn[y] == r[b];
        assert(0 <= x < dn.len() && dn[x] == r[a]);
        assert(0 <= y < dn.len() && dn[y] == r[b]);
        assert(!keyword_first(r[b], r[a]));
        lemma_lex_total(r[a].keyword@, r[b].keyword@);
        if r[a].keyword@ == r[b].keyword@ {
            if x != y {
                if x < y {
                    assert(dn[x].keyword@ != dn[y].keyword@);
                } else {
                    assert(dn[y].keyword@ != dn[x].keyword@);
                }
            }
            assert(r.to_multiset().count(r[a]) == dn.to_multiset().count(r[a]));
            lemma_count_two(r, a, b);
            lemma_count_one(dn, x);
        }
    }
}

/// Orders the groups by keyword and each group's files by name, with counts and sizes.
pub(crate) fn finish_groups(groups: &Vec<KeywordGroup>, Ghost(files): Ghost<Seq<ScannedMedia>>, Ghost(ctx): Ghost<ContextView>, Ghost(anchors): Ghost<Seq<(Seq<char>, Seq<char>)>>) -> (r: Vec<KeywordGroup>)
    requires
        forall|g: int| 0 <= g < groups@.len() ==> group_fits(#[trigger] groups@[g], files, files.len() as int, ctx, anchors),
        keywords_distinct(groups@),
    ensures
        forall|g: int| 0 <= g < r@.len() ==> group_fits(#[trigger] r@[g], files, files.len() as int, ctx, anchors) && group_finished(r@[g]),
        forall|a: int, b: int| 0 <= a < b < r@.len() ==> lex_lt(#[trigger] r@[a].keyword@, #[trigger] r@[b].keyword@),
        grouped_count(r@) == grouped_count(groups@),
        grouped_paths(r@) == grouped_paths(groups@),
{
    let mut done: Vec<KeywordGroup> = Vec::new();
    let mut i: usize = 0;
    while i < groups.len()
        invariant
            i <= groups.len(),
            done@.len() == i,
            forall|g: int| 0 <= g < groups@.len() ==> group_fits(#[trigger] groups@[g], files, files.len() as int, ctx, anchors),
            forall|g: int| 0 <= g < i ==> #[trigger] done@[g].keyword@ == groups@[g].keyword@
                && done@[g].files@.len() == groups@[g].files@.len()
                && group_fits(done@[g], files, files.len() as int, ctx, anchors) && group_finished(done@[g]),
            grouped_count(done@) == grouped_count(groups@.take(i as int)),
            grouped_paths(done@) == grouped_paths(groups@.take(i as int)),
        decreases groups.len() - i,
    {
        let ng = finish_group(&groups[i], Ghost(files), Ghost(ctx), Ghost(anchors));
        let ghost d0 = done@;
        done.push(ng);
        assert(done@.drop_last() =~= d0);
        assert(groups@.take(i + 1).drop_last() =~= groups@.take(i as int));
        i = i + 1;
    }
    assert(groups@.take(groups.len() as int) =~= groups@);
    assert(keywords_distinct(done@)) by {
        assert forall|a: int, b: int| 0 <= a < b < done@.len() implies #[trigger] done@[a].keyword@ != #[trigger] done@[b].keyword@ by {
            assert(groups@[a].keyword@ != groups@[b].keyword@);
        }
    }
    let ghost dn = done@;
    let r = sort_groups(done);
    proof {
        lemma_group_order();
        lemma_stable_sorted_elems(dn, by_keyword());
        lemma_grouped_count_sorted(dn, by_keyword());
        lemma_grouped_paths_sorted(dn, by_keyword());
        lemma_sorted_groups_strict(dn);
        assert forall|g: int| 0 <= g < r@.len() implies group_fits(#[trigger] r@[g], files, files.len() as int, ctx, anchors) && group_finished(r@[g]) by {
            assert(r@.contains(r@[g]));
            assert(dn.contains(r@[g]));
            let w = choose|w: int| 0 <= w < dn.len() && dn[w] == r@[g];
            assert(0 <= w < dn.len() && dn[w] == r@[g]);
            assert(dn[w].keyword@ == groups@[w].keyword@);
            assert(group_fits(dn[w], files, files.len() as int, ctx, anchors) && group_finished(dn[w]));
        }
    }
    r
}

proof fn lemma_count_two(s: Seq<KeywordGroup>, a: int, b: int)
    requires
        0 <= a < b < s.len(),
        s[a] == s[b],
    ensures
        s.to_multiset().count(s[a]) >= 2,
{
    broadcast use vstd::seq_lib::group_to_multiset_ensures;
    lemma_count_at_least(s, s[a], a, b);
}

proof fn lemma_count_at_least(s: Seq<KeywordGroup>, x: KeywordGroup, a: int, b: int)
    requires
        0 <= a < b < s.len(),
        s[a] == x,
        s[b] == x,
    ensures
        s.to_multiset().count(x) >= 2,
    decreases s.len(),
{
    broadcast use vstd::seq_lib::group_to_multiset_ensures;
    let t = s.drop_last();
    assert(t.push(s.last()) =~= s);
    vstd::seq_lib::to_multiset_build(t, s.last());
    if b < s.len() - 1 {
        lemma_count_at_least(t, x, a, b);
    } else {
        assert(t.contains(x)) by { assert(t[a] == x); }
        assert(t.to_multiset().count(x) >= 1);
    }
}

proof fn lemma_count_one(s: Seq<KeywordGroup>, x: int)
    requires
        0 <= x < s.len(),
        keywords_distinct(s),
    ensures
        s.to_multiset().count(s[x]) == 1,
    decreases s.len(),
{
    broadcast use vstd::seq_lib::group_to_multiset_ensures;
    let t = s.drop_last();
    assert(t.push(s.last()) =~= s);
    vstd::seq_lib::to_multiset_build(t, s.last());
    if x < s.len() - 1 {
        assert(keywords_distinct(t));
        lemma_count_one(t, x);
        assert(s.last() != s[x]) by { assert(s[s.len() - 1].keyword@ != s[x].keyword@); }
    } else {
        assert(!t.contains(s[x])) by {
            if t.contains(s[x]) {
                let w = choose|w: int| 0 <= w < t.len() && t[w] == s[x];
                assert(s[w].keyword@ != s[x].keyword@);
            }
        }
    }
}

} // verus!
