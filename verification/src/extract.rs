//! The author and metadata a media file carries, from its bytes: EXIF fields of
//! images, the tag blocks of audio and video, the metadata of e-books. The
//! parsers are outside crates; what their fields mean is decided here.
use vstd::prelude::*;
use std::io::{Cursor, Read};
use lofty::file::{FileType, TaggedFileExt};
use lofty::probe::Probe;
use lofty::tag::Accessor;
use lofty::tag::ItemKey::{AlbumArtist, Composer, TrackArtist};
use lofty::picture::PictureType::CoverFront;
use crate::ebook::{
    ebook_format, ebook_format_of, find_dc_creator, find_named_tag, find_opf_path, lossy_text, mobi_author, mobi_author_of,
    opf_path_from, selected_text_from, utf8_lossy, xml_event_list, EbookFormat,
};
use crate::metadata::{clean_author_name, get_media_type, lemma_normalized_clean, media_type_of, normalize_author, normalized_author, MediaMetadata, MediaType};
use crate::paths::{ext_or_empty, name_parts};
use crate::tags::{distinct_ignoring_case, lemma_tag_artists_clean, merge_tag_values, merged_from, opt_view, tag_artists, TagValues};
use crate::text::{chars_of, string_of, sviews, trim, trim_ws};

verus! {

// ------------------------------------------------------------------ images

/// The UserComment field of an image, as the EXIF reader holds it.
pub enum ExifComment {
    Missing,
    Ascii(Vec<Vec<u8>>),
    Bytes(Vec<u8>),
    Other,
}

/// The EXIF fields an image's author is read from: the Artist as displayed, and
/// the UserComment.
pub struct ExifAuthorFields {
    pub artist: Option<String>,
    pub comment: ExifComment,
}

/// The fields as plain values: the Artist, the kind of comment (0 missing,
/// 1 ASCII values, 2 bytes, 3 another kind), the ASCII values and the bytes.
pub open spec fn exif_view(f: ExifAuthorFields) -> (Option<Seq<char>>, u8, Seq<Seq<u8>>, Seq<u8>) {
    let (kind, ascii, bytes) = match f.comment {
        ExifComment::Missing => (0u8, Seq::<Seq<u8>>::empty(), Seq::<u8>::empty()),
        ExifComment::Ascii(v) => (1u8, v@.map_values(|x: Vec<u8>| x@), Seq::<u8>::empty()),
        ExifComment::Bytes(b) => (2u8, Seq::<Seq<u8>>::empty(), b@),
        ExifComment::Other => (3u8, Seq::<Seq<u8>>::empty(), Seq::<u8>::empty()),
    };
    (opt_view(f.artist), kind, ascii, bytes)
}

/// What the EXIF reader finds in an image's bytes (see `read_exif_author_fields`).
pub uninterp spec fn exif_author_fields(data: Seq<u8>) -> Option<(Option<Seq<char>>, u8, Seq<Seq<u8>>, Seq<u8>)>;

/// Reads the EXIF data of an image with `exif::Reader::read_from_container`,
/// and takes the primary Artist (as `display_value().with_unit(..)` shows it) and
/// UserComment. The result is what `exif_author_fields` names; `None` when the
/// reader refuses the bytes.
/// Left unsaid: that the call returns on every input. The kamadak-exif source keeps
/// `unwrap`, `expect` and `panic!` sites on its parsing paths, and neither it nor
/// its documentation names a class of inputs that stays clear of them, so no
/// input is named here as one the parser is known not to panic on, and no
/// `requires` excludes the inputs on which it might.
#[verifier::external_body]
fn read_exif_author_fields(data: &[u8]) -> (r: Option<ExifAuthorFields>)
    ensures
        match r {
            Some(f) => exif_author_fields(data@) == Some(exif_view(f)),
            None => exif_author_fields(data@) is None,
        },
{
    let exif = exif::Reader::new().read_from_container(&mut Cursor::new(data)).ok()?;
    let artist = exif.get_field(exif::Tag::Artist, exif::In::PRIMARY).map(|f| f.display_value().with_unit(&exif).to_string());
    let comment = match exif.get_field(exif::Tag::UserComment, exif::In::PRIMARY).map(|f| &f.value) {
        None => ExifComment::Missing,
        Some(exif::Value::Ascii(v)) => ExifComment::Ascii(v.clone()),
        Some(exif::Value::Byte(b)) => ExifComment::Bytes(b.clone()),
        Some(_) => ExifComment::Other,
    };
    Some(ExifAuthorFields { artist, comment })
}

/// What `String::from_utf8` gives for the bytes: the text, or none when they
/// are no UTF-8.
pub uninterp spec fn utf8_decoded(data: Seq<u8>) -> Option<Seq<char>>;

/// Calls `String::from_utf8`; the result is what `utf8_decoded` names.
#[verifier::external_body]
fn utf8_text(data: &[u8]) -> (r: Option<String>)
    ensures
        opt_view(r) == utf8_decoded(data@),
{
    String::from_utf8(data.to_vec()).ok()
}

/// What `String::from_utf16` gives for the units: the text, or none when they
/// are no UTF-16.
pub uninterp spec fn utf16_decoded(units: Seq<u16>) -> Option<Seq<char>>;

/// Calls `String::from_utf16`; the result is what `utf16_decoded` names.
#[verifier::external_body]
fn utf16_text(units: &[u16]) -> (r: Option<String>)
    ensures
        opt_view(r) == utf16_decoded(units@),
{
    String::from_utf16(units).ok()
}

/// The bytes read as little-endian 16-bit units, an odd last byte left out.
pub open spec fn le_units(b: Seq<u8>) -> Seq<u16> {
    Seq::new(b.len() / 2, |i: int| (b[2 * i] + 256 * b[2 * i + 1]) as u16)
}

/// The index of the first zero unit from `i` on, or the length.
pub open spec fn first_zero(u: Seq<u16>, i: int) -> int
    decreases u.len() - i,
{
    if i < 0 || i >= u.len() { u.len() as int } else if u[i] == 0 { i } else { first_zero(u, i + 1) }
}

/// The units before the first zero.
pub open spec fn units_before_nul(b: Seq<u8>) -> Seq<u16> {
    le_units(b).take(first_zero(le_units(b), 0))
}

/// The first of the ASCII values, from `i` on, that is UTF-8 text.
pub open spec fn first_utf8(vals: Seq<Seq<u8>>, i: int) -> Option<Seq<char>>
    decreases vals.len() - i,
{
    if i < 0 || i >= vals.len() {
        None
    } else {
        match utf8_decoded(vals[i]) {
            Some(t) => Some(t),
            None => first_utf8(vals, i + 1),
        }
    }
}

/// The author an image's EXIF fields name: the Artist unless it is blank, else
/// the UserComment: its first ASCII value that is UTF-8, or its bytes read as
/// UTF-16LE up to the first NUL.
pub open spec fn image_author_of(f: (Option<Seq<char>>, u8, Seq<Seq<u8>>, Seq<u8>)) -> Option<Seq<char>> {
    if f.0 is Some && trim(f.0->0).len() > 0 {
        f.0
    } else if f.1 == 1 {
        first_utf8(f.2, 0)
    } else if f.1 == 2 {
        utf16_decoded(units_before_nul(f.3))
    } else {
        None
    }
}

/// The author an image's bytes name, before normalisation.
pub open spec fn image_author_in(data: Seq<u8>) -> Option<Seq<char>> {
    match exif_author_fields(data) {
        Some(f) => image_author_of(f),
        None => None,
    }
}

proof fn lemma_first_zero(u: Seq<u16>, k: int, i: int)
    requires
        0 <= k <= i <= u.len(),
        forall|j: int| k <= j < i ==> u[j] != 0,
        i == u.len() || u[i] == 0,
    ensures
        first_zero(u, k) == i,
    decreases i - k,
{
    if k < i {
        lemma_first_zero(u, k + 1, i);
    }
}

fn utf16_before_nul(b: &Vec<u8>) -> (r: Vec<u16>)
    ensures
        r@ == units_before_nul(b@),
{
    let ghost le = le_units(b@);
    let mut r: Vec<u16> = Vec::new();
    let n = b.len() / 2;
    let mut i: usize = 0;
    while i < n
        invariant
            n == b@.len() / 2,
            le == le_units(b@),
            i <= n,
            r@ == le.take(i as int),
            forall|j: int| 0 <= j < i ==> le[j] != 0,
        decreases n - i,
    {
        assert(2 * i + 1 < b@.len()) by (nonlinear_arith)
            requires i < n, n == b@.len() / 2;
        assert(b@.len() == b.len());
        let j: usize = i + i;
        let lo = b[j] as u16;
        let hi = b[j + 1] as u16;
        let unit: u16 = lo + hi * 256;
        assert(unit == le[i as int]);
        if unit == 0 {
            proof { lemma_first_zero(le, 0, i as int); }
            return r;
        }
        r.push(unit);
        assert(r@ =~= le.take(i + 1));
        i = i + 1;
    }
    proof { lemma_first_zero(le, 0, n as int); }
    assert(le.take(n as int) =~= le);
    r
}

fn first_utf8_value(vals: &Vec<Vec<u8>>) -> (r: Option<String>)
    ensures
        opt_view(r) == first_utf8(vals@.map_values(|x: Vec<u8>| x@), 0),
{
    let ghost vs = vals@.map_values(|x: Vec<u8>| x@);
    let mut i: usize = vals.len();
    let mut found: Option<String> = None;
    while i > 0
        invariant
            i <= vals.len(),
            vs == vals@.map_values(|x: Vec<u8>| x@),
            opt_view(found) == first_utf8(vs, i as int),
        decreases i,
    {
        i = i - 1;
        assert(vs[i as int] == vals@[i as int]@);
        match utf8_text(vals[i].as_slice()) {
            Some(t) => { found = Some(t); },
            None => {},
        }
    }
    found
}

/// The author an image's EXIF data names, before normalisation.
pub fn image_author(data: &[u8]) -> (r: Option<String>)
    ensures
        opt_view(r) == image_author_in(data@),
{
    let fields = match read_exif_author_fields(data) {
        Some(f) => f,
        None => return None,
    };
    let ghost fv = exif_view(fields);
    let ExifAuthorFields { artist, comment } = fields;
    if let Some(a) = artist {
        let t = trim_ws(&chars_of(a.as_str()));
        if t.len() > 0 {
            return Some(a);
        }
    }
    match comment {
        ExifComment::Ascii(v) => first_utf8_value(&v),
        ExifComment::Bytes(b) => {
            let units = utf16_before_nul(&b);
            utf16_text(units.as_slice())
        },
        _ => None,
    }
}

// ----------------------------------------------------------------- e-books

/// The text of the archive entry `name`, as the zip reader gives it.
pub uninterp spec fn zip_entry_text(data: Seq<u8>, name: Seq<char>) -> Option<Seq<char>>;

/// Opens the bytes with `zip::ZipArchive::new`, finds the entry with `by_name`
/// and reads it with `read_to_string`; `None` when any step fails. The result is
/// what `zip_entry_text` names.
/// Left unsaid: that the call returns on every input. The zip source keeps
/// `unwrap`, `expect` and `panic!` sites on its parsing paths, and neither it nor
/// its documentation names a class of inputs that stays clear of them, so no
/// input is named here as one the parser is known not to panic on, and no
/// `requires` excludes the inputs on which it might.
#[verifier::external_body]
fn read_zip_entry(data: &[u8], name: &str) -> (r: Option<String>)
    ensures
        opt_view(r) == zip_entry_text(data@, name@),
{
    let mut archive = zip::ZipArchive::new(Cursor::new(data)).ok()?;
    let mut entry = archive.by_name(name).ok()?;
    let mut content = String::new();
    entry.read_to_string(&mut content).ok()?;
    Some(content)
}

/// The Author entry of a PDF's Info dictionary, as lopdf holds it.
pub enum PdfAuthorValue {
    Text(Vec<u8>),
    Name(Vec<u8>),
    Other,
}

/// The Author entry as plain values: 0 a string, 1 a name, 2 another kind; its bytes.
pub open spec fn pdf_view(v: PdfAuthorValue) -> (u8, Seq<u8>) {
    match v {
        PdfAuthorValue::Text(b) => (0u8, b@),
        PdfAuthorValue::Name(b) => (1u8, b@),
        PdfAuthorValue::Other => (2u8, Seq::<u8>::empty()),
    }
}

/// What lopdf finds as the Author of a PDF's Info dictionary.
pub uninterp spec fn pdf_info_author(data: Seq<u8>) -> Option<(u8, Seq<u8>)>;

/// Loads the bytes with `lopdf::Document::load_mem`, follows the trailer's Info
/// reference with `get_dictionary` and takes its Author entry; `None` when there
/// is none. The result is what `pdf_info_author` names.
/// Left unsaid: that the call returns on every input. The lopdf source keeps
/// `unwrap`, `expect` and `panic!` sites on its parsing paths, and neither it nor
/// its documentation names a class of inputs that stays clear of them, so no
/// input is named here as one the parser is known not to panic on, and no
/// `requires` excludes the inputs on which it might.
#[verifier::external_body]
fn read_pdf_author(data: &[u8]) -> (r: Option<PdfAuthorValue>)
    ensures
        match r {
            Some(v) => pdf_info_author(data@) == Some(pdf_view(v)),
            None => pdf_info_author(data@) is None,
        },
{
    let document = lopdf::Document::load_mem(data).ok()?;
    let info_ref = match document.trailer.get(b"Info") {
        Ok(lopdf::Object::Reference(reference)) => *reference,
        _ => return None,
    };
    let info = document.get_dictionary(info_ref).ok()?;
    match info.get(b"Author").ok()? {
        lopdf::Object::String(value, _) => Some(PdfAuthorValue::Text(value.clone())),
        lopdf::Object::Name(value) => Some(PdfAuthorValue::Name(value.clone())),
        _ => Some(PdfAuthorValue::Other),
    }
}

/// The author of a PDF: its Author string or name, read as lossy UTF-8.
pub open spec fn pdf_author_in(data: Seq<u8>) -> Option<Seq<char>> {
    match pdf_info_author(data) {
        Some((kind, bytes)) => if kind <= 1 { Some(utf8_lossy(bytes)) } else { None },
        None => None,
    }
}

/// The author of an EPUB: the container names the OPF file, whose creator is taken.
pub open spec fn epub_author_in(data: Seq<u8>) -> Option<Seq<char>> {
    match zip_entry_text(data, "META-INF/container.xml"@) {
        Some(c) => match opf_path_from(xml_event_list(c, true).0, 0) {
            Some(p) => match zip_entry_text(data, p) {
                Some(opf) => selected_text_from(xml_event_list(opf, true).0, "creator"@, true, 0),
                None => None,
            },
            None => None,
        },
        None => None,
    }
}

/// The author an e-book at `path` names, by its format, before normalisation:
/// EPUB creator, PDF Author, MOBI author, or the Writer of a comic's ComicInfo.xml.
pub open spec fn ebook_author_in(path: Seq<char>, data: Seq<u8>) -> Option<Seq<char>> {
    match ebook_format_of(path) {
        None => None,
        Some(EbookFormat::Epub) => epub_author_in(data),
        Some(EbookFormat::Pdf) => pdf_author_in(data),
        Some(EbookFormat::Mobi) => mobi_author_of(utf8_lossy(data)),
        Some(EbookFormat::Comic) => match zip_entry_text(data, "ComicInfo.xml"@) {
            Some(x) => selected_text_from(xml_event_list(x, true).0, "Writer"@, false, 0),
            None => None,
        },
    }
}

fn epub_author(data: &[u8]) -> (r: Option<String>)
    ensures
        opt_view(r) == epub_author_in(data@),
{
    let container = match read_zip_entry(data, "META-INF/container.xml") {
        Some(c) => c,
        None => return None,
    };
    let opf_path = match find_opf_path(container.as_str()) {
        Some(p) => p,
        None => return None,
    };
    let opf = match read_zip_entry(data, opf_path.as_str()) {
        Some(o) => o,
        None => return None,
    };
    find_dc_creator(opf.as_str())
}

fn pdf_author(data: &[u8]) -> (r: Option<String>)
    ensures
        opt_view(r) == pdf_author_in(data@),
{
    match read_pdf_author(data) {
        Some(PdfAuthorValue::Text(b)) => Some(lossy_text(b.as_slice())),
        Some(PdfAuthorValue::Name(b)) => Some(lossy_text(b.as_slice())),
        _ => None,
    }
}

/// The author an e-book names, by the format its path gives.
pub fn ebook_author(path: &str, data: &[u8]) -> (r: Option<String>)
    ensures
        opt_view(r) == ebook_author_in(path@, data@),
{
    match ebook_format(path) {
        None => None,
        Some(EbookFormat::Epub) => epub_author(data),
        Some(EbookFormat::Pdf) => pdf_author(data),
        Some(EbookFormat::Mobi) => mobi_author(data),
        Some(EbookFormat::Comic) => match read_zip_entry(data, "ComicInfo.xml") {
            Some(x) => find_named_tag(x.as_str(), "Writer"),
            None => None,
        },
    }
}

// ------------------------------------------------------- audio and video

/// One tag block of an audio or video file, as lofty reads it: its Artist
/// accessor, TrackArtist, AlbumArtist, Album accessor and Composer items, the
/// data of its front cover and of its first picture, in this order.
pub struct TagBlock(
    pub Option<String>,
    pub Option<String>,
    pub Option<String>,
    pub Option<String>,
    pub Option<String>,
    pub Option<Vec<u8>>,
    pub Option<Vec<u8>>,
);

pub open spec fn bytes_view(o: Option<Vec<u8>>) -> Option<Seq<u8>> {
    match o {
        Some(v) => Some(v@),
        None => None,
    }
}

/// A tag block as plain values.
pub open spec fn block_view(b: TagBlock) -> (Option<Seq<char>>, Option<Seq<char>>, Option<Seq<char>>, Option<Seq<char>>, Option<Seq<char>>, Option<Seq<u8>>, Option<Seq<u8>>) {
    (opt_view(b.0), opt_view(b.1), opt_view(b.2), opt_view(b.3), opt_view(b.4), bytes_view(b.5), bytes_view(b.6))
}

/// Tag blocks as plain values.
pub open spec fn blocks_view(bs: Seq<TagBlock>) -> Seq<(Option<Seq<char>>, Option<Seq<char>>, Option<Seq<char>>, Option<Seq<char>>, Option<Seq<char>>, Option<Seq<u8>>, Option<Seq<u8>>)> {
    bs.map_values(|b: TagBlock| block_view(b))
}

/// The tag blocks lofty reads from the bytes of a file of extension `ext`.
pub uninterp spec fn tag_blocks_of(data: Seq<u8>, ext: Seq<char>) -> Seq<(Option<Seq<char>>, Option<Seq<char>>, Option<Seq<char>>, Option<Seq<char>>, Option<Seq<char>>, Option<Seq<u8>>, Option<Seq<u8>>)>;

/// Reads the bytes as the file type `lofty::file::FileType::from_ext` gives for
/// `ext`, with `lofty::probe::Probe::with_file_type(..).read()` (default parse options),
/// and takes each tag block's fields; no block when the type is unknown or the
/// read fails. The result is what `tag_blocks_of` names.
/// Left unsaid: that the call returns on every input. The lofty source keeps
/// `unwrap`, `expect` and `panic!` sites on its parsing paths, and neither it nor
/// its documentation names a class of inputs that stays clear of them, so no
/// input is named here as one the parser is known not to panic on, and no
/// `requires` excludes the inputs on which it might.
#[verifier::external_body]
fn read_tag_blocks(data: &[u8], ext: &str) -> (r: Vec<TagBlock>)
    ensures
        blocks_view(r@) == tag_blocks_of(data@, ext@),
{
    let tagged = FileType::from_ext(ext).and_then(|f| Probe::with_file_type(Cursor::new(data), f).read().ok());
    tagged.map_or(vec![], |tagged| tagged.tags().iter().map(|t| TagBlock(
        t.artist().map(Into::into),
        t.get_string(TrackArtist).map(Into::into),
        t.get_string(AlbumArtist).map(Into::into),
        t.album().map(Into::into),
        t.get_string(Composer).map(Into::into),
        t.get_picture_type(CoverFront).map(|p| p.data().to_vec()),
        t.pictures().first().map(|p| p.data().to_vec()),
    )).collect())
}

/// What a tag block gives the merge: its fields, and the front cover or, lacking
/// one, the first picture.
pub open spec fn block_values(t: TagValues, b: (Option<Seq<char>>, Option<Seq<char>>, Option<Seq<char>>, Option<Seq<char>>, Option<Seq<char>>, Option<Seq<u8>>, Option<Seq<u8>>)) -> bool {
    &&& opt_view(t.artist) == b.0
    &&& opt_view(t.track_artist) == b.1
    &&& opt_view(t.album_artist) == b.2
    &&& opt_view(t.album) == b.3
    &&& opt_view(t.composer) == b.4
    &&& bytes_view(t.cover) == (if b.5 is Some { b.5 } else { b.6 })
}

/// The tag values read from the bytes, block by block.
pub open spec fn tags_from_blocks(tags: Seq<TagValues>, data: Seq<u8>, ext: Seq<char>) -> bool {
    &&& tags.len() == tag_blocks_of(data, ext).len()
    &&& forall|i: int| 0 <= i < tags.len() ==> block_values(#[trigger] tags[i], tag_blocks_of(data, ext)[i])
}

fn tag_values_of_blocks(blocks: Vec<TagBlock>) -> (r: Vec<TagValues>)
    ensures
        r@.len() == blocks@.len(),
        forall|i: int| 0 <= i < r@.len() ==> block_values(#[trigger] r@[i], block_view(blocks@[i])),
{
    let ghost orig = blocks@;
    let mut rest = blocks;
    let mut rev: Vec<TagValues> = Vec::new();
    while rest.len() > 0
        invariant
            rest@.len() + rev@.len() == orig.len(),
            forall|i: int| 0 <= i < rest@.len() ==> #[trigger] rest@[i] == orig[i],
            forall|k: int| 0 <= k < rev@.len() ==> block_values(#[trigger] rev@[k], block_view(orig[orig.len() - 1 - k])),
        decreases rest.len(),
    {
        let TagBlock(artist, track_artist, album_artist, album, composer, front_cover, first_picture) = rest.pop().unwrap();
        let cover = match front_cover {
            Some(c) => Some(c),
            None => first_picture,
        };
        rev.push(TagValues { artist, track_artist, album_artist, album, composer, cover });
    }
    let mut r: Vec<TagValues> = Vec::new();
    while rev.len() > 0
        invariant
            r@.len() + rev@.len() == orig.len(),
            forall|k: int| 0 <= k < rev@.len() ==> block_values(#[trigger] rev@[k], block_view(orig[orig.len() - 1 - k])),
            forall|i: int| 0 <= i < r@.len() ==> block_values(#[trigger] r@[i], block_view(orig[i])),
        decreases rev.len(),
    {
        let t = rev.pop().unwrap();
        r.push(t);
    }
    r
}

/// The metadata of an audio or video file from its bytes: its tag blocks merged.
pub fn tagged_media_metadata(path: &str, data: &[u8]) -> (r: MediaMetadata)
    ensures
        exists|tags: Seq<TagValues>| #[trigger] tags_from_blocks(tags, data@, ext_or_empty(path@)) && merged_from(r, tags),
{
    let (_name, _stem, ext) = name_parts(&chars_of(path));
    let ext_s = string_of(&ext);
    let blocks = read_tag_blocks(data, ext_s.as_str());
    let ghost bv = blocks_view(blocks@);
    let tags = tag_values_of_blocks(blocks);
    assert(tags_from_blocks(tags@, data@, ext_or_empty(path@))) by {
        assert forall|i: int| 0 <= i < tags@.len() implies block_values(#[trigger] tags@[i], tag_blocks_of(data@, ext_or_empty(path@))[i]) by {
            assert(bv[i] == block_view(blocks@[i]));
        }
    }
    merge_tag_values(&tags)
}

// ------------------------------------------------------------- by media type

/// The metadata of an image or e-book: only the artist, normalised from `raw`.
pub open spec fn author_only(r: MediaMetadata, raw: Option<Seq<char>>) -> bool {
    &&& opt_view(r.artist) == (match raw { Some(a) => normalized_author(a), None => None })
    &&& r.contributing_artists@.len() == 0
    &&& r.album_artist is None
    &&& r.album is None
    &&& r.composer is None
    &&& r.cover_art_hash is None
}

/// No metadata at all.
pub open spec fn no_metadata(r: MediaMetadata) -> bool {
    &&& r.artist is None
    &&& r.contributing_artists@.len() == 0
    &&& r.album_artist is None
    &&& r.album is None
    &&& r.composer is None
    &&& r.cover_art_hash is None
}

/// What `extract_all_metadata` gives for a path and its bytes.
pub open spec fn metadata_extracted(path: Seq<char>, data: Seq<u8>, r: MediaMetadata) -> bool {
    match media_type_of(path) {
        None => no_metadata(r),
        Some(MediaType::Image) => author_only(r, image_author_in(data)),
        Some(MediaType::Ebook) => author_only(r, ebook_author_in(path, data)),
        Some(_) => exists|tags: Seq<TagValues>| #[trigger] tags_from_blocks(tags, data, ext_or_empty(path)) && merged_from(r, tags),
    }
}

/// What `extract_author` gives for a path and its bytes.
pub open spec fn author_extracted(path: Seq<char>, data: Seq<u8>, r: Option<String>) -> bool {
    match media_type_of(path) {
        None => r is None,
        Some(MediaType::Image) => opt_view(r) == (match image_author_in(data) { Some(a) => normalized_author(a), None => None }),
        Some(MediaType::Ebook) => opt_view(r) == (match ebook_author_in(path, data) { Some(a) => normalized_author(a), None => None }),
        Some(_) => exists|m: MediaMetadata, tags: Seq<TagValues>|
            #![trigger tags_from_blocks(tags, data, ext_or_empty(path)), merged_from(m, tags)]
            tags_from_blocks(tags, data, ext_or_empty(path)) && merged_from(m, tags) && r == m.artist,
    }
}

proof fn lemma_tag_artists_by_view(t1: Seq<TagValues>, t2: Seq<TagValues>)
    requires
        t1.len() == t2.len(),
        forall|i: int| 0 <= i < t1.len() ==> opt_view((#[trigger] t1[i]).artist) == opt_view(t2[i].artist)
            && opt_view(t1[i].track_artist) == opt_view(t2[i].track_artist),
    ensures
        tag_artists(t1) == tag_artists(t2),
    decreases t1.len(),
{
    if t1.len() > 0 {
        assert forall|i: int| 0 <= i < t1.drop_last().len() implies opt_view((#[trigger] t1.drop_last()[i]).artist) == opt_view(t2.drop_last()[i].artist)
            && opt_view(t1.drop_last()[i].track_artist) == opt_view(t2.drop_last()[i].track_artist) by {
            assert(t1.drop_last()[i] == t1[i]);
            assert(t2.drop_last()[i] == t2[i]);
        }
        lemma_tag_artists_by_view(t1.drop_last(), t2.drop_last());
        assert(opt_view(t1[t1.len() - 1].artist) == opt_view(t2[t1.len() - 1].artist));
    }
}

/// The author a file names is the artist among its metadata: for one path and
/// its bytes, `extract_author` gives what `extract_all_metadata` gives as the artist.
pub proof fn lemma_author_is_artist(path: Seq<char>, data: Seq<u8>, a: Option<String>, m: MediaMetadata)
    requires
        author_extracted(path, data, a),
        metadata_extracted(path, data, m),
    ensures
        opt_view(a) == opt_view(m.artist),
{
    match media_type_of(path) {
        None => {},
        Some(MediaType::Image) => {},
        Some(MediaType::Ebook) => {},
        Some(_) => {
            let e = ext_or_empty(path);
            let (m2, t2) = choose|m2: MediaMetadata, t2: Seq<TagValues>|
                #![trigger tags_from_blocks(t2, data, e), merged_from(m2, t2)]
                tags_from_blocks(t2, data, e) && merged_from(m2, t2) && a == m2.artist;
            let t1 = choose|t1: Seq<TagValues>| #[trigger] tags_from_blocks(t1, data, e) && merged_from(m, t1);
            assert forall|i: int| 0 <= i < t1.len() implies opt_view((#[trigger] t1[i]).artist) == opt_view(t2[i].artist)
                && opt_view(t1[i].track_artist) == opt_view(t2[i].track_artist) by {
                assert(block_values(t1[i], tag_blocks_of(data, e)[i]));
                assert(block_values(t2[i], tag_blocks_of(data, e)[i]));
            }
            lemma_tag_artists_by_view(t1, t2);
        },
    }
}

/// The author a file names, when there is one, can be stored as an author name:
/// not empty, without NUL characters, and neither beginning nor ending with a
/// quote mark; and a file of no known media type names none.
pub proof fn lemma_author_name_clean(path: Seq<char>, data: Seq<u8>, a: Option<String>)
    requires
        author_extracted(path, data, a),
    ensures
        a matches Some(x) ==> clean_author_name(x@),
        media_type_of(path) is None ==> a is None,
{
    match media_type_of(path) {
        None => {},
        Some(MediaType::Image) => {
            if let Some(raw) = image_author_in(data) {
                lemma_normalized_clean(raw);
            }
        },
        Some(MediaType::Ebook) => {
            if let Some(raw) = ebook_author_in(path, data) {
                lemma_normalized_clean(raw);
            }
        },
        Some(_) => {
            let e = ext_or_empty(path);
            let (m, t) = choose|m: MediaMetadata, t: Seq<TagValues>|
                #![trigger tags_from_blocks(t, data, e), merged_from(m, t)]
                tags_from_blocks(t, data, e) && merged_from(m, t) && a == m.artist;
            lemma_tag_artists_clean(t);
            if tag_artists(t).len() > 0 {
                assert(clean_author_name(tag_artists(t)[0]));
            }
        },
    }
}

/// The shape of a file's metadata by its media type: nothing for an unknown
/// type; only an artist for an image or an e-book; for audio and video the
/// artist is the first contributing artist, and no two contributing artists
/// are the same name ignoring ASCII case.
pub proof fn lemma_metadata_shape(path: Seq<char>, data: Seq<u8>, m: MediaMetadata)
    requires
        metadata_extracted(path, data, m),
    ensures
        media_type_of(path) is None ==> no_metadata(m),
        media_type_of(path) == Some(MediaType::Image) || media_type_of(path) == Some(MediaType::Ebook) ==> {
            &&& m.contributing_artists@.len() == 0
            &&& m.album_artist is None
            &&& m.album is None
            &&& m.composer is None
            &&& m.cover_art_hash is None
        },
        media_type_of(path) == Some(MediaType::Audio) || media_type_of(path) == Some(MediaType::Video) ==> {
            &&& opt_view(m.artist) == (if m.contributing_artists@.len() > 0 { Some(m.contributing_artists@[0]@) } else { None })
            &&& distinct_ignoring_case(sviews(m.contributing_artists@))
        },
{
    if media_type_of(path) == Some(MediaType::Audio) || media_type_of(path) == Some(MediaType::Video) {
        let t = choose|t: Seq<TagValues>| #[trigger] tags_from_blocks(t, data, ext_or_empty(path)) && merged_from(m, t);
        assert(sviews(m.contributing_artists@).len() == m.contributing_artists@.len());
        if m.contributing_artists@.len() > 0 {
            assert(sviews(m.contributing_artists@)[0] == m.contributing_artists@[0]@);
        }
    }
}

/// Every metadata field a file carries, by the media type its path gives:
/// the merged tag blocks of audio and video, the normalised author of images and
/// e-books, nothing for other files. `data` is the file's content.
pub fn extract_all_metadata(path: &str, data: &[u8]) -> (r: MediaMetadata)
    ensures
        metadata_extracted(path@, data@, r),
        match media_type_of(path@) {
            None => no_metadata(r),
            Some(MediaType::Image) => author_only(r, image_author_in(data@)),
            Some(MediaType::Ebook) => author_only(r, ebook_author_in(path@, data@)),
            Some(_) => exists|tags: Seq<TagValues>| #[trigger] tags_from_blocks(tags, data@, ext_or_empty(path@)) && merged_from(r, tags),
        },
{
    match get_media_type(path) {
        None => MediaMetadata::empty(),
        Some(MediaType::Image) => crate::ebook::author_metadata(image_author(data)),
        Some(MediaType::Ebook) => crate::ebook::author_metadata(ebook_author(path, data)),
        Some(_) => tagged_media_metadata(path, data),
    }
}

/// The author a file names, by the media type its path gives: the normalised
/// author of an image or e-book, the first contributing artist of audio and video.
pub fn extract_author(path: &str, data: &[u8]) -> (r: Option<String>)
    ensures
        author_extracted(path@, data@, r),
        match media_type_of(path@) {
            None => r is None,
            Some(MediaType::Image) => opt_view(r) == (match image_author_in(data@) { Some(a) => normalized_author(a), None => None }),
            Some(MediaType::Ebook) => opt_view(r) == (match ebook_author_in(path@, data@) { Some(a) => normalized_author(a), None => None }),
            Some(_) => exists|m: MediaMetadata, tags: Seq<TagValues>|
                #![trigger tags_from_blocks(tags, data@, ext_or_empty(path@)), merged_from(m, tags)]
                tags_from_blocks(tags, data@, ext_or_empty(path@)) && merged_from(m, tags) && r == m.artist,
        },
{
    match get_media_type(path) {
        None => None,
        Some(MediaType::Image) => match image_author(data) {
            Some(a) => normalize_author(a),
            None => None,
        },
        Some(MediaType::Ebook) => match ebook_author(path, data) {
            Some(a) => normalize_author(a),
            None => None,
        },
        Some(_) => {
            let m = tagged_media_metadata(path, data);
            let ghost mg = m;
            let r = m.artist;
            assert(r == mg.artist);
            r
        },
    }
}

} // verus!
