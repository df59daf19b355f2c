//! Media kinds by file extension, the metadata fields the classifier reads,
//! and the normalisation of author names found in tags.
use vstd::prelude::*;
use crate::paths::{extension_of, file_name_chars, split_name};
use crate::text::{chars_of, ascii_lowercase, ascii_lower_seq, str_eq, string_of, trim_by, trimmed, trim_end_by, trim_pred, trim_start_by, owned};

verus! {

#[derive(Debug, Clone, Copy, PartialEq, Eq, Structural)]
pub enum MediaType {
    Image,
    Audio,
    Video,
    Ebook,
}

/// The metadata fields read from a media file.
#[derive(Debug, Clone)]
pub struct MediaMetadata {
    /// The first contributing artist.
    pub artist: Option<String>,
    /// Contributing artists in tag order.
    pub contributing_artists: Vec<String>,
    pub album_artist: Option<String>,
    pub album: Option<String>,
    pub composer: Option<String>,
    /// Exact content hash of the embedded cover, if any.
    pub cover_art_hash: Option<String>,
}

impl MediaMetadata {
    pub fn empty() -> (r: MediaMetadata)
        ensures
            r.artist is None,
            r.contributing_artists@.len() == 0,
            r.album_artist is None,
            r.album is None,
            r.composer is None,
            r.cover_art_hash is None,
    {
        MediaMetadata {
            artist: None,
            contributing_artists: Vec::new(),
            album_artist: None,
            album: None,
            composer: None,
            cover_art_hash: None,
        }
    }
}

/// The kind of media that a lowercase extension denotes.
pub open spec fn media_type_of_ext(e: Seq<char>) -> Option<MediaType> {
    if e == "jpg"@ || e == "jpeg"@ || e == "png"@ || e == "gif"@ || e == "bmp"@ || e == "tif"@ || e == "tiff"@ || e == "webp"@ {
        Some(MediaType::Image)
    } else if e == "mp3"@ || e == "flac"@ || e == "aac"@ || e == "m4a"@ || e == "ogg"@ || e == "wav"@ {
        Some(MediaType::Audio)
    } else if e == "mp4"@ || e == "m4v"@ || e == "mov"@ || e == "mkv"@ || e == "avi"@ || e == "wmv"@ {
        Some(MediaType::Video)
    } else if e == "epub"@ || e == "pdf"@ || e == "mobi"@ || e == "azw3"@ || e == "cbz"@ || e == "cbr"@ {
        Some(MediaType::Ebook)
    } else {
        None
    }
}

/// The kind of media a path names, by its extension compared without ASCII case.
pub open spec fn media_type_of(path: Seq<char>) -> Option<MediaType> {
    match extension_of(path) {
        Some(e) => media_type_of_ext(ascii_lower_seq(e)),
        None => None,
    }
}

pub(crate) fn ext_lower(path: &str) -> (r: Option<String>)
    ensures
        match r {
            Some(e) => extension_of(path@) matches Some(x) && e@ == ascii_lower_seq(x),
            None => extension_of(path@) is None,
        },
{
    let v = chars_of(path);
    match file_name_chars(&v) {
        Some(n) => {
            let (_stem, ext) = split_name(&n);
            match ext {
                Some(e) => {
                    let l = ascii_lowercase(&e);
                    Some(string_of(&l))
                },
                None => None,
            }
        },
        None => None,
    }
}

pub fn get_media_type(path: &str) -> (r: Option<MediaType>)
    ensures
        r == media_type_of(path@),
{
    let e = match ext_lower(path) {
        Some(e) => e,
        None => return None,
    };
    let e = e.as_str();
    if str_eq(e, "jpg") || str_eq(e, "jpeg") || str_eq(e, "png") || str_eq(e, "gif") || str_eq(e, "bmp")
        || str_eq(e, "tif") || str_eq(e, "tiff") || str_eq(e, "webp") {
        Some(MediaType::Image)
    } else if str_eq(e, "mp3") || str_eq(e, "flac") || str_eq(e, "aac") || str_eq(e, "m4a") || str_eq(e, "ogg")
        || str_eq(e, "wav") {
        Some(MediaType::Audio)
    } else if str_eq(e, "mp4") || str_eq(e, "m4v") || str_eq(e, "mov") || str_eq(e, "mkv") || str_eq(e, "avi")
        || str_eq(e, "wmv") {
        Some(MediaType::Video)
    } else if str_eq(e, "epub") || str_eq(e, "pdf") || str_eq(e, "mobi") || str_eq(e, "azw3") || str_eq(e, "cbz")
        || str_eq(e, "cbr") {
        Some(MediaType::Ebook)
    } else {
        None
    }
}

pub open spec fn media_type_text(t: MediaType) -> Seq<char> {
    match t {
        MediaType::Image => "image"@,
        MediaType::Audio => "audio"@,
        MediaType::Video => "video"@,
        MediaType::Ebook => "ebook"@,
    }
}

pub fn media_type_name(media_type: MediaType) -> (r: &'static str)
    ensures
        r@ == media_type_text(media_type),
{
    match media_type {
        MediaType::Image => "image",
        MediaType::Audio => "audio",
        MediaType::Video => "video",
        MediaType::Ebook => "ebook",
    }
}

pub fn media_type_label(path: &str) -> (r: Option<&'static str>)
    ensures
        match media_type_of(path@) {
            Some(t) => r matches Some(s) && s@ == media_type_text(t),
            None => r is None,
        },
{
    match get_media_type(path) {
        Some(t) => Some(media_type_name(t)),
        None => None,
    }
}

/// The containers whose tags can be rewritten safely: mp3, flac, m4a, ogg, wav, mp4, m4v
/// (extension compared without ASCII case).
pub open spec fn tag_cleanup_supported(path: Seq<char>) -> bool {
    match extension_of(path) {
        Some(x) => {
            let e = ascii_lower_seq(x);
            e == "mp3"@ || e == "flac"@ || e == "m4a"@ || e == "ogg"@ || e == "wav"@ || e == "mp4"@ || e == "m4v"@
        },
        None => false,
    }
}

/// The kind of media a path names depends on its extension alone, compared
/// without ASCII case; every file whose tags can be cleaned up is audio or
/// video, and has a known kind.
pub proof fn lemma_media_kinds(a: Seq<char>, b: Seq<char>)
    ensures
        (extension_of(a) matches Some(x) && extension_of(b) matches Some(y) && ascii_lower_seq(x) == ascii_lower_seq(y))
            ==> media_type_of(a) == media_type_of(b),
        extension_of(a) is None ==> media_type_of(a) is None && !tag_cleanup_supported(a),
        tag_cleanup_supported(a) ==> media_type_of(a) == Some(MediaType::Audio) || media_type_of(a) == Some(MediaType::Video),
{
    reveal_strlit("mp3");
    reveal_strlit("flac");
    reveal_strlit("m4a");
    reveal_strlit("ogg");
    reveal_strlit("wav");
    reveal_strlit("mp4");
    reveal_strlit("m4v");
    reveal_strlit("jpg");
    reveal_strlit("jpeg");
    reveal_strlit("png");
    reveal_strlit("gif");
    reveal_strlit("bmp");
    reveal_strlit("tif");
    reveal_strlit("tiff");
    reveal_strlit("webp");
    if let Some(x) = extension_of(a) {
        let e = ascii_lower_seq(x);
        if tag_cleanup_supported(a) {
            let imgs = seq!["jpg"@, "jpeg"@, "png"@, "gif"@, "bmp"@, "tif"@, "tiff"@, "webp"@];
            assert forall|i: int| 0 <= i < imgs.len() implies #[trigger] imgs[i] != e by {
                assert(imgs[i][0] != e[0] || imgs[i].len() != e.len() || imgs[i][1] != e[1]);
            }
            assert(imgs[0] != e && imgs[1] != e && imgs[2] != e && imgs[3] != e);
            assert(imgs[4] != e && imgs[5] != e && imgs[6] != e && imgs[7] != e);
        }
    }
}

pub fn supports_tag_cleanup(path: &str) -> (r: bool)
    ensures
        r == tag_cleanup_supported(path@),
{
    match ext_lower(path) {
        Some(e) => {
            let e = e.as_str();
            str_eq(e, "mp3") || str_eq(e, "flac") || str_eq(e, "m4a") || str_eq(e, "ogg") || str_eq(e, "wav")
                || str_eq(e, "mp4") || str_eq(e, "m4v")
        },
        None => false,
    }
}

// ------------------------------------------------------------- author names

/// `s` without NUL characters.
pub open spec fn without_nul(s: Seq<char>) -> Seq<char>
    decreases s.len(),
{
    if s.len() == 0 {
        s
    } else if s.last() == '\0' {
        without_nul(s.drop_last())
    } else {
        without_nul(s.drop_last()).push(s.last())
    }
}

/// An author name as stored: NULs removed, whitespace trimmed, then quote marks
/// trimmed; `None` when nothing is left.
pub open spec fn normalized_author(value: Seq<char>) -> Option<Seq<char>> {
    let t = trimmed(trimmed(without_nul(value), seq![], true, true, true), seq!['"', '\''], false, true, true);
    if t.len() == 0 { None } else { Some(t) }
}

pub fn normalize_author(value: String) -> (r: Option<String>)
    ensures
        match r {
            Some(s) => normalized_author(value@) == Some(s@),
            None => normalized_author(value@) is None,
        },
{
    let v = chars_of(value.as_str());
    let mut clean: Vec<char> = Vec::new();
    let mut i: usize = 0;
    while i < v.len()
        invariant
            i <= v.len(),
            clean@ == without_nul(v@.take(i as int)),
        decreases v.len() - i,
    {
        assert(v@.take(i + 1).drop_last() =~= v@.take(i as int));
        if v[i] != '\0' {
            clean.push(v[i]);
        }
        i = i + 1;
    }
    assert(v@.take(v.len() as int) =~= v@);
    let none: Vec<char> = Vec::new();
    assert(none@ =~= seq![]);
    let t1 = trim_by(&clean, &none, true, true, true);
    let mut quotes: Vec<char> = Vec::new();
    quotes.push('"');
    quotes.push('\'');
    assert(quotes@ =~= seq!['"', '\'']);
    let t2 = trim_by(&t1, &quotes, false, true, true);
    if t2.len() == 0 {
        None
    } else {
        Some(string_of(&t2))
    }
}

/// An author name as it can be stored: not empty, without NUL characters, and
/// neither beginning nor ending with a quote mark.
pub open spec fn clean_author_name(a: Seq<char>) -> bool {
    &&& a.len() > 0
    &&& forall|i: int| 0 <= i < a.len() ==> #[trigger] a[i] != '\0'
    &&& a[0] != '"' && a[0] != '\''
    &&& a.last() != '"' && a.last() != '\''
}

proof fn lemma_without_nul(s: Seq<char>)
    ensures
        forall|i: int| 0 <= i < without_nul(s).len() ==> #[trigger] without_nul(s)[i] != '\0',
    decreases s.len(),
{
    if s.len() > 0 {
        let p = without_nul(s.drop_last());
        lemma_without_nul(s.drop_last());
        if s.last() != '\0' {
            assert forall|i: int| 0 <= i < without_nul(s).len() implies #[trigger] without_nul(s)[i] != '\0' by {
                if i < p.len() {
                    assert(without_nul(s)[i] == p[i]);
                }
            }
        }
    }
}

pub(crate) proof fn lemma_trim_start_part(s: Seq<char>, p: spec_fn(char) -> bool)
    ensures
        exists|k: int| 0 <= k <= s.len() && trim_start_by(s, p) == s.subrange(k, s.len() as int),
        trim_start_by(s, p).len() > 0 ==> !p(trim_start_by(s, p)[0]),
    decreases s.len(),
{
    if s.len() > 0 && p(s[0]) {
        lemma_trim_start_part(s.drop_first(), p);
        let k = choose|k: int| 0 <= k <= s.drop_first().len() && trim_start_by(s.drop_first(), p) == s.drop_first().subrange(k, s.drop_first().len() as int);
        assert(s.drop_first().subrange(k, s.drop_first().len() as int) =~= s.subrange(k + 1, s.len() as int));
    } else {
        assert(s.subrange(0, s.len() as int) =~= s);
    }
}

pub(crate) proof fn lemma_trim_end_part(s: Seq<char>, p: spec_fn(char) -> bool)
    ensures
        trim_end_by(s, p).len() <= s.len(),
        trim_end_by(s, p) == s.subrange(0, trim_end_by(s, p).len() as int),
        trim_end_by(s, p).len() > 0 ==> !p(trim_end_by(s, p).last()),
    decreases s.len(),
{
    if s.len() > 0 && p(s.last()) {
        lemma_trim_end_part(s.drop_last(), p);
        assert(s.drop_last().subrange(0, trim_end_by(s, p).len() as int) =~= s.subrange(0, trim_end_by(s, p).len() as int));
    } else {
        assert(s.subrange(0, s.len() as int) =~= s);
    }
}

/// What normalising gives is a name as it can be stored.
pub proof fn lemma_normalized_clean(value: Seq<char>)
    ensures
        normalized_author(value) matches Some(a) ==> clean_author_name(a),
{
    let w = without_nul(value);
    lemma_without_nul(value);
    let ws = trim_pred(seq![], true);
    lemma_trim_start_part(w, ws);
    let a1 = trim_start_by(w, ws);
    lemma_trim_end_part(a1, ws);
    let t1 = trim_end_by(a1, ws);
    let q = trim_pred(seq!['"', '\''], false);
    lemma_trim_start_part(t1, q);
    let a2 = trim_start_by(t1, q);
    lemma_trim_end_part(a2, q);
    let t = trim_end_by(a2, q);
    assert(t == trimmed(trimmed(w, seq![], true, true, true), seq!['"', '\''], false, true, true));
    if t.len() > 0 {
        let k1 = choose|k: int| 0 <= k <= w.len() && a1 == w.subrange(k, w.len() as int);
        let k2 = choose|k: int| 0 <= k <= t1.len() && a2 == t1.subrange(k, t1.len() as int);
        assert forall|i: int| 0 <= i < t.len() implies #[trigger] t[i] != '\0' by {
            assert(t[i] == a2[i]);
            assert(a2[i] == t1[k2 + i]);
            assert(t1[k2 + i] == a1[k2 + i]);
            assert(a1[k2 + i] == w[k1 + k2 + i]);
        }
        assert(t[0] == a2[0]);
        assert(!q(a2[0]));
        assert(seq!['"', '\''].contains('"'));
        assert(seq!['"', '\''].contains('\''));
        assert(!q(t.last()));
    }
}

} // verus!
