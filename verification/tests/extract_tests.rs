use std::io::{Cursor, Write};

use smart_sorter::extract::{ebook_author, extract_all_metadata, extract_author, image_author};

fn zip_of(entries: &[(&str, &str)]) -> Vec<u8> {
    let mut writer = zip::ZipWriter::new(Cursor::new(Vec::new()));
    let options = zip::write::SimpleFileOptions::default().compression_method(zip::CompressionMethod::Stored);
    for (name, text) in entries {
        writer.start_file(*name, options).unwrap();
        writer.write_all(text.as_bytes()).unwrap();
    }
    writer.finish().unwrap().into_inner()
}

fn epub(creator: &str) -> Vec<u8> {
    let container = r#"<?xml version="1.0"?><container><rootfiles><rootfile full-path="OEBPS/content.opf"/></rootfiles></container>"#;
    let opf = format!(
        r#"<?xml version="1.0"?><package><metadata><dc:title>T</dc:title><dc:creator>{}</dc:creator></metadata></package>"#,
        creator
    );
    zip_of(&[("META-INF/container.xml", container), ("OEBPS/content.opf", &opf)])
}

#[test]
fn reads_the_creator_of_an_epub_from_its_bytes() {
    let data = epub("Jane Doe");
    assert_eq!(ebook_author("book.epub", &data), Some("Jane Doe".to_string()));
    assert_eq!(extract_author("book.epub", &data), Some("Jane Doe".to_string()));
    let meta = extract_all_metadata("book.epub", &data);
    assert_eq!(meta.artist, Some("Jane Doe".to_string()));
    assert!(meta.contributing_artists.is_empty());
    assert!(meta.album.is_none());
}

#[test]
fn reads_the_writer_of_a_comic_archive() {
    let data = zip_of(&[("ComicInfo.xml", "<ComicInfo><Writer>Alan</Writer></ComicInfo>")]);
    assert_eq!(extract_author("issue.cbz", &data), Some("Alan".to_string()));
}

#[test]
fn unreadable_or_unknown_files_give_no_author() {
    assert_eq!(extract_author("notes.txt", b"Artist: someone"), None);
    assert_eq!(image_author(b"not an image"), None);
    assert_eq!(extract_author("photo.jpg", b""), None);
    assert_eq!(extract_author("book.epub", b"not a zip"), None);
    let meta = extract_all_metadata("song.mp3", b"");
    assert!(meta.artist.is_none());
    assert!(meta.contributing_artists.is_empty());
    assert!(meta.cover_art_hash.is_none());
    let none = extract_all_metadata("notes.txt", b"x");
    assert!(none.artist.is_none() && none.album_artist.is_none() && none.composer.is_none());
}

#[test]
fn match_text_drops_every_unicode_space() {
    assert_eq!(smart_sorter::text::normalize_match_text("\u{3000}A b\u{2003}C\u{a0}\u{85}"), "abc");
    assert_eq!(smart_sorter::text::normalize_match_text("A\u{200b}B"), "a\u{200b}b");
}

#[test]
fn an_author_name_is_stored_without_outer_quotes() {
    let data = epub(" \"Jane Doe' ");
    let author = extract_author("book.epub", &data);
    assert_eq!(author, Some("Jane Doe".to_string()));
    assert_eq!(extract_all_metadata("book.epub", &data).artist, author);
    assert_eq!(extract_author("book.epub", &epub(" '\" ")), None);
}
