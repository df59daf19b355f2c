//! The artists, album fields and cover hash that the tags of an audio or video
//! file carry, merged over all of its tag blocks in order.
use vstd::prelude::*;
use sha2::Digest;
use crate::metadata::{clean_author_name, lemma_normalized_clean, MediaMetadata, normalize_author, normalized_author, supports_tag_cleanup, tag_cleanup_supported};
use crate::paths::{parent_of, parent_chars, file_name_of, file_name_chars, join_path_on, join_chars_on};
use crate::ids::new_uuid;
use crate::text::{chars_of, string_of, sviews, vviews, ascii_lower_seq, ascii_lowercase, chars_eq, trim, trim_ws, owned, str_eq, concat_str};

verus! {

/// What `regex::Regex::split` yields for `text`, each piece as characters, when the
/// pattern compiles; `None` when the crate refuses the pattern.
pub uninterp spec fn regex_split_parts(pattern: Seq<char>, text: Seq<char>) -> Option<Seq<Seq<char>>>;

/// `regex::Regex::new(pattern)`, then `split(text)` with every piece copied into a
/// `String`. The result is what `regex_split_parts` names.
#[verifier::external_body]
fn regex_split(pattern: &str, text: &str) -> (r: Option<Vec<String>>)
    ensures
        match r {
            Some(v) => regex_split_parts(pattern@, text@) == Some(sviews(v@)),
            None => regex_split_parts(pattern@, text@) is None,
        },
{
    regex::Regex::new(pattern).ok().map(|re| re.split(text).map(|piece| piece.to_string()).collect())
}

/// The lowercase hexadecimal SHA-256 digest of `data`.
pub uninterp spec fn sha256_hex(data: Seq<u8>) -> Seq<char>;

/// `sha2::Sha256::digest(data)`, formatted with `{:x}`. The result is what
/// `sha256_hex` names.
#[verifier::external_body]
fn hash_cover_art(data: &[u8]) -> (r: String)
    ensures
        r@ == sha256_hex(data@),
{
    format!("{:x}", sha2::Sha256::digest(data))
}

/// Separates collaborators: "feat", "featuring" or "ft" (any case, optional dot)
/// between whitespace, or a slash between whitespace.
pub const COLLABORATION_SEPARATOR: &'static str = r"(?i)\s+(?:feat(?:uring)?|ft)\.?\s+|\s+[/／]\s+";

// ------------------------------------------------------------------ splitting

/// The characters that separate the values of a multi-valued artist field.
pub open spec fn artist_separator(c: char) -> bool {
    c == ';' || c == '；' || c == '、' || c == '|' || c == '，' || c == '\0' || c == '\r' || c == '\n'
}

/// `str::split` on the separators: the pieces between them, empty ones included.
pub open spec fn separator_parts(s: Seq<char>) -> Seq<Seq<char>>
    decreases s.len(),
{
    if s.len() == 0 {
        seq![seq![]]
    } else {
        let p = separator_parts(s.drop_last());
        if artist_separator(s.last()) {
            p.push(seq![])
        } else {
            p.update(p.len() - 1, p[p.len() - 1].push(s.last()))
        }
    }
}

pub proof fn lemma_separator_parts_nonempty(s: Seq<char>)
    ensures
        separator_parts(s).len() >= 1,
    decreases s.len(),
{
    if s.len() > 0 {
        lemma_separator_parts_nonempty(s.drop_last());
    }
}

/// Two names that differ only in ASCII case.
pub open spec fn same_ignoring_case(a: Seq<char>, b: Seq<char>) -> bool {
    ascii_lower_seq(a) == ascii_lower_seq(b)
}

/// Some name of `names` is `a` but for ASCII case.
pub open spec fn listed(names: Seq<Seq<char>>, a: Seq<char>) -> bool {
    exists|i: int| 0 <= i < names.len() && same_ignoring_case(#[trigger] names[i], a)
}

/// No two names of `names` are the same but for ASCII case.
pub open spec fn distinct_ignoring_case(names: Seq<Seq<char>>) -> bool {
    forall|i: int, j: int| 0 <= i < j < names.len() ==> !same_ignoring_case(#[trigger] names[i], #[trigger] names[j])
}

/// `a` added at the end unless it is listed already.
pub open spec fn with_name(names: Seq<Seq<char>>, a: Seq<char>) -> Seq<Seq<char>> {
    if listed(names, a) { names } else { names.push(a) }
}

/// Each of `more` added in turn with `with_name`.
pub open spec fn with_names(names: Seq<Seq<char>>, more: Seq<Seq<char>>) -> Seq<Seq<char>>
    decreases more.len(),
{
    if more.len() == 0 {
        names
    } else {
        with_name(with_names(names, more.drop_last()), more.last())
    }
}

/// The normalised form of a raw piece added with `with_name`; a piece that
/// normalises to nothing is skipped.
pub open spec fn with_piece(names: Seq<Seq<char>>, piece: Seq<char>) -> Seq<Seq<char>> {
    match normalized_author(piece) {
        Some(a) => with_name(names, a),
        None => names,
    }
}

pub open spec fn with_pieces(names: Seq<Seq<char>>, pieces: Seq<Seq<char>>) -> Seq<Seq<char>>
    decreases pieces.len(),
{
    if pieces.len() == 0 {
        names
    } else {
        with_piece(with_pieces(names, pieces.drop_last()), pieces.last())
    }
}

/// Each collaboration segment cut at the separators, its pieces added in turn.
pub open spec fn with_segments(names: Seq<Seq<char>>, segments: Seq<Seq<char>>) -> Seq<Seq<char>>
    decreases segments.len(),
{
    if segments.len() == 0 {
        names
    } else {
        with_pieces(with_segments(names, segments.drop_last()), separator_parts(segments.last()))
    }
}

/// The collaboration segments of an artist field; the whole field is one segment
/// if the pattern were refused.
pub open spec fn collaboration_segments(value: Seq<char>) -> Seq<Seq<char>> {
    match regex_split_parts(COLLABORATION_SEPARATOR@, value) {
        Some(parts) => parts,
        None => seq![value],
    }
}

/// The contributing artists that one artist field names, in order of appearance,
/// each normalised, the later of two names that differ only in ASCII case dropped.
pub open spec fn contributing_artists_of(value: Seq<char>) -> Seq<Seq<char>> {
    with_segments(seq![], collaboration_segments(value))
}

/// Every name of the list can be stored as an author name.
pub open spec fn all_clean(names: Seq<Seq<char>>) -> bool {
    forall|i: int| 0 <= i < names.len() ==> clean_author_name(#[trigger] names[i])
}

proof fn lemma_with_name_clean(names: Seq<Seq<char>>, a: Seq<char>)
    requires
        all_clean(names),
        clean_author_name(a),
    ensures
        all_clean(with_name(names, a)),
{
    if !listed(names, a) {
        assert forall|i: int| 0 <= i < names.push(a).len() implies clean_author_name(#[trigger] names.push(a)[i]) by {
            if i < names.len() {
                assert(names.push(a)[i] == names[i]);
            }
        }
    }
}

proof fn lemma_with_names_clean(names: Seq<Seq<char>>, more: Seq<Seq<char>>)
    requires
        all_clean(names),
        all_clean(more),
    ensures
        all_clean(with_names(names, more)),
    decreases more.len(),
{
    if more.len() > 0 {
        assert forall|i: int| 0 <= i < more.drop_last().len() implies clean_author_name(#[trigger] more.drop_last()[i]) by {
            assert(more.drop_last()[i] == more[i]);
        }
        lemma_with_names_clean(names, more.drop_last());
        assert(clean_author_name(more[more.len() - 1]));
        lemma_with_name_clean(with_names(names, more.drop_last()), more.last());
    }
}

proof fn lemma_with_pieces_clean(names: Seq<Seq<char>>, pieces: Seq<Seq<char>>)
    requires
        all_clean(names),
    ensures
        all_clean(with_pieces(names, pieces)),
    decreases pieces.len(),
{
    if pieces.len() > 0 {
        lemma_with_pieces_clean(names, pieces.drop_last());
        lemma_normalized_clean(pieces.last());
        if let Some(a) = normalized_author(pieces.last()) {
            lemma_with_name_clean(with_pieces(names, pieces.drop_last()), a);
        }
    }
}

proof fn lemma_with_segments_clean(names: Seq<Seq<char>>, segments: Seq<Seq<char>>)
    requires
        all_clean(names),
    ensures
        all_clean(with_segments(names, segments)),
    decreases segments.len(),
{
    if segments.len() > 0 {
        lemma_with_segments_clean(names, segments.drop_last());
        lemma_with_pieces_clean(with_segments(names, segments.drop_last()), separator_parts(segments.last()));
    }
}

/// Every contributing artist that tag blocks name can be stored as an author name.
pub proof fn lemma_tag_artists_clean(tags: Seq<TagValues>)
    ensures
        all_clean(tag_artists(tags)),
    decreases tags.len(),
{
    if tags.len() > 0 {
        lemma_tag_artists_clean(tags.drop_last());
        let t = tags.last();
        let prev = tag_artists(tags.drop_last());
        let a = match t.artist {
            Some(s) => {
                lemma_with_segments_clean(seq![], collaboration_segments(s@));
                lemma_with_names_clean(prev, contributing_artists_of(s@));
                with_names(prev, contributing_artists_of(s@))
            },
            None => prev,
        };
        match t.track_artist {
            Some(s) => {
                lemma_with_segments_clean(seq![], collaboration_segments(s@));
                lemma_with_names_clean(a, contributing_artists_of(s@));
            },
            None => {},
        }
    }
}

proof fn lemma_with_name_distinct(names: Seq<Seq<char>>, a: Seq<char>)
    requires
        distinct_ignoring_case(names),
    ensures
        distinct_ignoring_case(with_name(names, a)),
{
    if !listed(names, a) {
        let r = names.push(a);
        assert forall|i: int, j: int| 0 <= i < j < r.len() implies !same_ignoring_case(#[trigger] r[i], #[trigger] r[j]) by {
            if j == names.len() {
                assert(r[i] == names[i]);
            } else {
                assert(r[i] == names[i] && r[j] == names[j]);
            }
        }
    }
}

proof fn lemma_with_names_distinct(names: Seq<Seq<char>>, more: Seq<Seq<char>>)
    requires
        distinct_ignoring_case(names),
    ensures
        distinct_ignoring_case(with_names(names, more)),
    decreases more.len(),
{
    if more.len() > 0 {
        lemma_with_names_distinct(names, more.drop_last());
        lemma_with_name_distinct(with_names(names, more.drop_last()), more.last());
    }
}

proof fn lemma_with_pieces_distinct(names: Seq<Seq<char>>, pieces: Seq<Seq<char>>)
    requires
        distinct_ignoring_case(names),
    ensures
        distinct_ignoring_case(with_pieces(names, pieces)),
    decreases pieces.len(),
{
    if pieces.len() > 0 {
        lemma_with_pieces_distinct(names, pieces.drop_last());
        let prev = with_pieces(names, pieces.drop_last());
        match normalized_author(pieces.last()) {
            Some(a) => lemma_with_name_distinct(prev, a),
            None => {},
        }
    }
}

proof fn lemma_with_segments_distinct(names: Seq<Seq<char>>, segments: Seq<Seq<char>>)
    requires
        distinct_ignoring_case(names),
    ensures
        distinct_ignoring_case(with_segments(names, segments)),
    decreases segments.len(),
{
    if segments.len() > 0 {
        lemma_with_segments_distinct(names, segments.drop_last());
        lemma_with_pieces_distinct(with_segments(names, segments.drop_last()), separator_parts(segments.last()));
    }
}

/// Adding names keeps the names already there, in front and in order; after
/// it, each added name is there but for ASCII case, and every name behind the
/// old ones is one of the added names.
pub proof fn lemma_with_names_adds(names: Seq<Seq<char>>, more: Seq<Seq<char>>)
    ensures
        names.len() <= with_names(names, more).len(),
        with_names(names, more).take(names.len() as int) == names,
        forall|k: int| 0 <= k < more.len() ==> listed(with_names(names, more), #[trigger] more[k]),
        forall|i: int| names.len() <= i < with_names(names, more).len() ==> more.contains(#[trigger] with_names(names, more)[i]),
    decreases more.len(),
{
    if more.len() > 0 {
        let m0 = more.drop_last();
        lemma_with_names_adds(names, m0);
        let p = with_names(names, m0);
        let a = more.last();
        let r = with_names(names, more);
        assert(r == with_name(p, a));
        assert forall|k: int| 0 <= k < m0.len() implies #[trigger] m0[k] == more[k] by {}
        if listed(p, a) {
            assert(r == p);
        } else {
            assert(r == p.push(a));
            assert(r.take(names.len() as int) =~= p.take(names.len() as int));
            assert(same_ignoring_case(r[p.len() as int], a));
        }
        assert forall|k: int| 0 <= k < more.len() implies listed(r, #[trigger] more[k]) by {
            if k < m0.len() {
                assert(m0[k] == more[k]);
                assert(listed(p, m0[k]));
                let i = choose|i: int| 0 <= i < p.len() && same_ignoring_case(#[trigger] p[i], m0[k]);
                assert(r[i] == p[i]);
            } else {
                assert(more[k] == a);
                if listed(p, a) {
                } else {
                    assert(r[p.len() as int] == a);
                }
            }
        }
        assert forall|i: int| names.len() <= i < r.len() implies more.contains(#[trigger] r[i]) by {
            if i < p.len() {
                assert(r[i] == p[i]);
                assert(m0.contains(p[i]));
                let k = choose|k: int| 0 <= k < m0.len() && m0[k] == p[i];
                assert(more[k] == m0[k]);
            } else {
                assert(r[i] == a);
                assert(more[more.len() - 1] == a);
            }
        }
    }
}

fn is_artist_separator(c: char) -> (r: bool)
    ensures
        r == artist_separator(c),
{
    c == ';' || c == '；' || c == '、' || c == '|' || c == '，' || c == '\0' || c == '\r' || c == '\n'
}

fn split_at_separators(v: &Vec<char>) -> (r: Vec<Vec<char>>)
    ensures
        vviews(r@) == separator_parts(v@),
{
    let mut parts: Vec<Vec<char>> = Vec::new();
    let mut cur: Vec<char> = Vec::new();
    let mut i: usize = 0;
    assert(v@.take(0) =~= seq![]);
    assert(vviews(parts@).push(cur@) =~= seq![seq![]]);
    while i < v.len()
        invariant
            i <= v.len(),
            vviews(parts@).push(cur@) == separator_parts(v@.take(i as int)),
        decreases v.len() - i,
    {
        let ghost before = vviews(parts@).push(cur@);
        assert(v@.take(i + 1).drop_last() =~= v@.take(i as int));
        if is_artist_separator(v[i]) {
            let done = cur;
            parts.push(done);
            cur = Vec::new();
            assert(vviews(parts@).push(cur@) =~= before.push(seq![]));
        } else {
            cur.push(v[i]);
            assert(vviews(parts@).push(cur@) =~= before.update(before.len() - 1, before[before.len() - 1].push(v@[i as int])));
        }
        i = i + 1;
    }
    assert(v@.take(v.len() as int) =~= v@);
    parts.push(cur);
    assert(vviews(parts@) =~= separator_parts(v@));
    parts
}

/// Whether a name of `names` equals `a` but for ASCII case.
fn is_listed(names: &Vec<String>, a: &str) -> (r: bool)
    ensures
        r == listed(sviews(names@), a@),
{
    let av = chars_of(a);
    let al = ascii_lowercase(&av);
    let mut i: usize = 0;
    while i < names.len()
        invariant
            i <= names.len(),
            al@ == ascii_lower_seq(a@),
            forall|k: int| 0 <= k < i ==> !same_ignoring_case(#[trigger] sviews(names@)[k], a@),
        decreases names.len() - i,
    {
        let nv = chars_of(names[i].as_str());
        let nl = ascii_lowercase(&nv);
        if chars_eq(&nl, &al) {
            assert(same_ignoring_case(sviews(names@)[i as int], a@));
            return true;
        }
        i = i + 1;
    }
    false
}

fn add_name(names: &mut Vec<String>, a: String)
    ensures
        sviews(final(names)@) == with_name(sviews(old(names)@), a@),
{
    if !is_listed(names, a.as_str()) {
        let ghost before = sviews(names@);
        names.push(a);
        assert(sviews(names@) =~= before.push(a@));
    }
}

fn add_piece(names: &mut Vec<String>, piece: &Vec<char>)
    ensures
        sviews(final(names)@) == with_piece(sviews(old(names)@), piece@),
{
    match normalize_author(string_of(piece)) {
        Some(a) => add_name(names, a),
        None => {},
    }
}

fn add_pieces(names: &mut Vec<String>, pieces: &Vec<Vec<char>>)
    ensures
        sviews(final(names)@) == with_pieces(sviews(old(names)@), vviews(pieces@)),
{
    let ghost start = sviews(names@);
    let mut i: usize = 0;
    while i < pieces.len()
        invariant
            i <= pieces.len(),
            sviews(names@) == with_pieces(start, vviews(pieces@).take(i as int)),
        decreases pieces.len() - i,
    {
        assert(vviews(pieces@).take(i + 1).drop_last() =~= vviews(pieces@).take(i as int));
        add_piece(names, &pieces[i]);
        i = i + 1;
    }
    assert(vviews(pieces@).take(pieces.len() as int) =~= vviews(pieces@));
}

/// The contributing artists named by one artist field: cut at "feat."-style and
/// slash separators, then at `; ； 、 | ，`, NUL and line breaks; each piece
/// normalised, empty ones skipped, a name that repeats an earlier one but for
/// ASCII case dropped.
pub fn split_contributing_artists(value: &str) -> (r: Vec<String>)
    ensures
        sviews(r@) == contributing_artists_of(value@),
        distinct_ignoring_case(sviews(r@)),
{
    let segments: Vec<String> = match regex_split(COLLABORATION_SEPARATOR, value) {
        Some(parts) => parts,
        None => {
            let mut whole: Vec<String> = Vec::new();
            whole.push(string_of(&chars_of(value)));
            assert(sviews(whole@) =~= seq![value@]);
            whole
        },
    };
    assert(sviews(segments@) == collaboration_segments(value@));
    let mut names: Vec<String> = Vec::new();
    assert(sviews(names@) =~= seq![]);
    let mut i: usize = 0;
    while i < segments.len()
        invariant
            i <= segments.len(),
            sviews(names@) == with_segments(seq![], sviews(segments@).take(i as int)),
        decreases segments.len() - i,
    {
        assert(sviews(segments@).take(i + 1).drop_last() =~= sviews(segments@).take(i as int));
        let v = chars_of(segments[i].as_str());
        let pieces = split_at_separators(&v);
        add_pieces(&mut names, &pieces);
        i = i + 1;
    }
    assert(sviews(segments@).take(segments.len() as int) =~= sviews(segments@));
    proof {
        lemma_with_segments_distinct(seq![], collaboration_segments(value@));
    }
    names
}

/// Adds to `artists` the contributing artists of one artist field, each unless a
/// name that differs only in ASCII case is there already.
pub fn append_contributing_artists(artists: &mut Vec<String>, value: &str)
    ensures
        sviews(final(artists)@) == with_names(sviews(old(artists)@), contributing_artists_of(value@)),
        distinct_ignoring_case(sviews(old(artists)@)) ==> distinct_ignoring_case(sviews(final(artists)@)),
{
    let found = split_contributing_artists(value);
    let ghost start = sviews(artists@);
    let mut i: usize = 0;
    while i < found.len()
        invariant
            i <= found.len(),
            sviews(artists@) == with_names(start, sviews(found@).take(i as int)),
        decreases found.len() - i,
    {
        assert(sviews(found@).take(i + 1).drop_last() =~= sviews(found@).take(i as int));
        add_name(artists, found[i].clone());
        i = i + 1;
    }
    assert(sviews(found@).take(found.len() as int) =~= sviews(found@));
    proof {
        if distinct_ignoring_case(start) {
            lemma_with_names_distinct(start, sviews(found@));
        }
    }
}

// ------------------------------------------------------------- tag blocks

/// What one tag block of an audio or video file holds, as read: its Artist
/// accessor, its TrackArtist item, AlbumArtist, Album, Composer, and the data of
/// its front cover (or, lacking one, of its first picture).
#[derive(Debug, Clone)]
pub struct TagValues {
    pub artist: Option<String>,
    pub track_artist: Option<String>,
    pub album_artist: Option<String>,
    pub album: Option<String>,
    pub composer: Option<String>,
    pub cover: Option<Vec<u8>>,
}

/// The artists gathered from the tag blocks in order: each block's Artist, then its
/// TrackArtist.
pub open spec fn tag_artists(tags: Seq<TagValues>) -> Seq<Seq<char>>
    decreases tags.len(),
{
    if tags.len() == 0 {
        seq![]
    } else {
        let t = tags.last();
        let a = match t.artist {
            Some(s) => with_names(tag_artists(tags.drop_last()), contributing_artists_of(s@)),
            None => tag_artists(tags.drop_last()),
        };
        match t.track_artist {
            Some(s) => with_names(a, contributing_artists_of(s@)),
            None => a,
        }
    }
}

/// A single-valued field: the first block whose value is not blank sets it, to its
/// normalised form; a value that normalises to nothing leaves it unset for the
/// blocks that follow.
pub open spec fn first_text(cur: Option<Seq<char>>, v: Option<String>) -> Option<Seq<char>> {
    match (cur, v) {
        (None, Some(s)) => if trim(s@).len() > 0 { normalized_author(s@) } else { None },
        _ => cur,
    }
}

pub open spec fn album_artist_of(tags: Seq<TagValues>) -> Option<Seq<char>>
    decreases tags.len(),
{
    if tags.len() == 0 { None } else { first_text(album_artist_of(tags.drop_last()), tags.last().album_artist) }
}

pub open spec fn album_of(tags: Seq<TagValues>) -> Option<Seq<char>>
    decreases tags.len(),
{
    if tags.len() == 0 { None } else { first_text(album_of(tags.drop_last()), tags.last().album) }
}

pub open spec fn composer_of(tags: Seq<TagValues>) -> Option<Seq<char>>
    decreases tags.len(),
{
    if tags.len() == 0 { None } else { first_text(composer_of(tags.drop_last()), tags.last().composer) }
}

/// The cover hash: while unset, each block sets it to the hash of its picture when
/// that picture has data.
pub open spec fn cover_hash_of(tags: Seq<TagValues>) -> Option<Seq<char>>
    decreases tags.len(),
{
    if tags.len() == 0 {
        None
    } else {
        let prev = cover_hash_of(tags.drop_last());
        if prev is Some {
            prev
        } else {
            match tags.last().cover {
                Some(d) => if d@.len() > 0 { Some(sha256_hex(d@)) } else { None },
                None => None,
            }
        }
    }
}

/// The metadata that the tag blocks give together.
pub open spec fn merged_from(r: MediaMetadata, tags: Seq<TagValues>) -> bool {
    &&& sviews(r.contributing_artists@) == tag_artists(tags)
    &&& distinct_ignoring_case(sviews(r.contributing_artists@))
    &&& opt_view(r.artist) == (if tag_artists(tags).len() > 0 { Some(tag_artists(tags)[0]) } else { None })
    &&& opt_view(r.album_artist) == album_artist_of(tags)
    &&& opt_view(r.album) == album_of(tags)
    &&& opt_view(r.composer) == composer_of(tags)
    &&& opt_view(r.cover_art_hash) == cover_hash_of(tags)
}

pub open spec fn opt_view(o: Option<String>) -> Option<Seq<char>> {
    match o {
        Some(s) => Some(s@),
        None => None,
    }
}

fn take_first_text(cur: Option<String>, v: &Option<String>) -> (r: Option<String>)
    ensures
        opt_view(r) == first_text(opt_view(cur), *v),
{
    match (&cur, v) {
        (None, Some(s)) => {
            let t = trim_ws(&chars_of(s.as_str()));
            if t.len() > 0 { normalize_author(s.clone()) } else { None }
        },
        _ => cur,
    }
}

/// The metadata of an audio or video file from its tag blocks in order: the
/// contributing artists of every Artist and TrackArtist value, without repeats
/// ignoring ASCII case; the first of them as the artist; the first non-blank
/// AlbumArtist, Album and Composer, normalised; the hash of the first picture with data.
pub fn merge_tag_values(tags: &Vec<TagValues>) -> (r: MediaMetadata)
    ensures
        merged_from(r, tags@),
{
    let mut artists: Vec<String> = Vec::new();
    let mut album_artist: Option<String> = None;
    let mut album: Option<String> = None;
    let mut composer: Option<String> = None;
    let mut cover: Option<String> = None;
    let mut i: usize = 0;
    assert(sviews(artists@) =~= seq![]);
    while i < tags.len()
        invariant
            i <= tags.len(),
            sviews(artists@) == tag_artists(tags@.take(i as int)),
            distinct_ignoring_case(sviews(artists@)),
            opt_view(album_artist) == album_artist_of(tags@.take(i as int)),
            opt_view(album) == album_of(tags@.take(i as int)),
            opt_view(composer) == composer_of(tags@.take(i as int)),
            opt_view(cover) == cover_hash_of(tags@.take(i as int)),
        decreases tags.len() - i,
    {
        assert(tags@.take(i + 1).drop_last() =~= tags@.take(i as int));
        assert(tags@.take(i + 1).last() == tags@[i as int]);
        let t = &tags[i];
        if cover.is_none() {
            match &t.cover {
                Some(d) => {
                    if d.len() > 0 {
                        cover = Some(hash_cover_art(d.as_slice()));
                    }
                },
                None => {},
            }
        }
        match &t.artist {
            Some(s) => append_contributing_artists(&mut artists, s.as_str()),
            None => {},
        }
        match &t.track_artist {
            Some(s) => append_contributing_artists(&mut artists, s.as_str()),
            None => {},
        }
        album_artist = take_first_text(album_artist, &t.album_artist);
        album = take_first_text(album, &t.album);
        composer = take_first_text(composer, &t.composer);
        i = i + 1;
    }
    assert(tags@.take(tags.len() as int) =~= tags@);
    let artist = if artists.len() > 0 { Some(artists[0].clone()) } else { None };
    MediaMetadata {
        artist,
        contributing_artists: artists,
        album_artist,
        album,
        composer,
        cover_art_hash: cover,
    }
}

// ---------------------------------------------------------- rewriting tags

/// What must hold before a file's tags are rewritten: its container supports it,
/// the artist is not blank once normalised, and the scan hashed the file.
/// Gives the normalised artist.
pub fn clean_tags_precheck(path: &str, artist: &str, expected_hash: &str) -> (r: Result<String, String>)
    ensures
        !tag_cleanup_supported(path@) ==> (r matches Err(m) && m@ == "该格式暂不支持安全标签清洗"@),
        tag_cleanup_supported(path@) && normalized_author(artist@) is None ==> (r matches Err(m) && m@ == "作者名称不能为空"@),
        tag_cleanup_supported(path@) && normalized_author(artist@) is Some && expected_hash@.len() == 0
            ==> (r matches Err(m) && m@ == "扫描时未能生成文件哈希，请重新扫描"@),
        tag_cleanup_supported(path@) && expected_hash@.len() > 0 ==> match normalized_author(artist@) {
            Some(a) => r matches Ok(x) && x@ == a,
            None => true,
        },
{
    if !supports_tag_cleanup(path) {
        return Err(owned("该格式暂不支持安全标签清洗"));
    }
    let a = match normalize_author(owned(artist)) {
        Some(a) => a,
        None => return Err(owned("作者名称不能为空")),
    };
    if chars_of(expected_hash).len() == 0 {
        return Err(owned("扫描时未能生成文件哈希，请重新扫描"));
    }
    Ok(a)
}

/// A working file beside `path`, hidden and named for its purpose:
/// `.smartsorter-{purpose}-{id}-{file name}` with a fresh id, joined as the host
/// joins paths (`windows` tells whether it is Windows).
pub fn sibling_work_path(path: &str, purpose: &str, windows: bool) -> (r: Result<String, String>)
    ensures
        parent_of(path@) is None ==> (r matches Err(m) && m@ == "无法确定媒体文件所在目录"@),
        parent_of(path@) is Some && file_name_of(path@) is None ==> (r matches Err(m) && m@ == "媒体文件名无效"@),
        parent_of(path@) matches Some(p) ==> (file_name_of(path@) matches Some(n) ==> (r matches Ok(w)
            && exists|id: Seq<char>| w@ == join_path_on(p, ".smartsorter-"@ + purpose@ + "-"@ + id + "-"@ + n, windows))),
{
    let pv = chars_of(path);
    let parent = match parent_chars(&pv) {
        Some(p) => p,
        None => return Err(owned("无法确定媒体文件所在目录")),
    };
    let name = match file_name_chars(&pv) {
        Some(n) => string_of(&n),
        None => return Err(owned("媒体文件名无效")),
    };
    let id = new_uuid();
    let a = concat_str(".smartsorter-", purpose);
    let b = concat_str(a.as_str(), "-");
    let c = concat_str(b.as_str(), id.as_str());
    let d = concat_str(c.as_str(), "-");
    let e = concat_str(d.as_str(), name.as_str());
    let ev = chars_of(e.as_str());
    let w = join_chars_on(&parent, &ev, windows);
    assert(w@ == join_path_on(parent@, ".smartsorter-"@ + purpose@ + "-"@ + id@ + "-"@ + name@, windows));
    Ok(string_of(&w))
}

/// The check of a rewritten file: Artist and AlbumArtist read back as the artist,
/// and an embedded cover the backup had is still there, unchanged.
pub fn rewrite_verdict(cleaned: &MediaMetadata, artist: &str, backup_cover: &Option<String>) -> (r: Result<(), String>)
    ensures
        !(opt_view(cleaned.artist) == Some(artist@) && opt_view(cleaned.album_artist) == Some(artist@))
            ==> (r matches Err(m) && m@ == "标签写入后校验失败，Artist 或 AlbumArtist 不匹配"@),
        opt_view(cleaned.artist) == Some(artist@) && opt_view(cleaned.album_artist) == Some(artist@) ==> (
            if backup_cover is Some && opt_view(cleaned.cover_art_hash) != opt_view(*backup_cover) {
                r matches Err(m) && m@ == "标签写入后校验失败，内嵌封面未被完整保留"@
            } else {
                r is Ok
            }),
{
    let artist_ok = match &cleaned.artist {
        Some(a) => str_eq(a.as_str(), artist),
        None => false,
    };
    let album_ok = match &cleaned.album_artist {
        Some(a) => str_eq(a.as_str(), artist),
        None => false,
    };
    if !(artist_ok && album_ok) {
        return Err(owned("标签写入后校验失败，Artist 或 AlbumArtist 不匹配"));
    }
    match backup_cover {
        Some(h) => {
            let kept = match &cleaned.cover_art_hash {
                Some(c) => str_eq(c.as_str(), h.as_str()),
                None => false,
            };
            if !kept {
                return Err(owned("标签写入后校验失败，内嵌封面未被完整保留"));
            }
        },
        None => {},
    }
    Ok(())
}

/// The check that the file still is what the scan hashed, before it is replaced.
pub fn current_hash_verdict(actual: Result<String, String>, expected: &str) -> (r: Result<(), String>)
    ensures
        match actual {
            Err(e) => r matches Err(m) && m@ == "验证待清洗文件 SHA-256 失败: "@ + e@,
            Ok(h) => if h@ == expected@ { r is Ok } else {
                r matches Err(m) && m@ == "文件在扫描后发生变化，已拒绝用旧备份执行标签清洗"@
            },
        },
{
    match actual {
        Err(e) => Err(concat_str("验证待清洗文件 SHA-256 失败: ", e.as_str())),
        Ok(h) => if str_eq(h.as_str(), expected) {
            Ok(())
        } else {
            Err(owned("文件在扫描后发生变化，已拒绝用旧备份执行标签清洗"))
        },
    }
}

/// Why moving the media file aside failed.
pub fn stash_failure(error: &str) -> (r: String)
    ensures
        r@ == "暂存原媒体文件失败: "@ + error@,
{
    concat_str("暂存原媒体文件失败: ", error)
}

/// Why putting the rewritten file in place failed, and whether the media file
/// was put back.
pub fn replace_failure(error: &str, rollback_error: Option<String>) -> (r: String)
    ensures
        match rollback_error {
            Some(b) => r@ == "替换媒体文件失败: "@ + error@ + "；恢复原文件也失败: "@ + b@,
            None => r@ == "替换媒体文件失败，已恢复原文件: "@ + error@,
        },
{
    match rollback_error {
        Some(b) => {
            let a = concat_str("替换媒体文件失败: ", error);
            let c = concat_str(a.as_str(), "；恢复原文件也失败: ");
            concat_str(c.as_str(), b.as_str())
        },
        None => concat_str("替换媒体文件失败，已恢复原文件: ", error),
    }
}

} // verus!
