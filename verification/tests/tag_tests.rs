use smart_sorter::ebook::{author_metadata, ebook_format, find_dc_creator, find_named_tag, find_opf_path, mobi_author, EbookFormat};
use smart_sorter::metadata::{get_media_type, media_type_label, normalize_author, supports_tag_cleanup, MediaType};
use smart_sorter::tag_cleanup::{infer_target_artist, precheck_record, select_cleanup_files, AuthorFolderMode};
use smart_sorter::models::{MediaTagCleanupExecuteRequest, MediaTagCleanupFile, MediaTagCleanupResult, OperationStatus};
use smart_sorter::tags::{append_contributing_artists, merge_tag_values, split_contributing_artists, TagValues};

#[test]
fn prefers_the_organized_author_folder_over_an_existing_tag() {
    let aliases = vec![("alias".to_string(), "标准作者".to_string())];
    let (artist, source) = infer_target_artist(
        r"D:\Media\Alias\nested\work.mp4",
        &vec![r"D:\Media".to_string()],
        &aliases,
        Some("旧作者"),
        AuthorFolderMode::Children,
    );

    assert_eq!(artist.as_deref(), Some("标准作者"));
    assert_eq!(source, "一级作者目录");
}

#[test]
fn falls_back_to_the_existing_artist_for_files_at_the_scan_root() {
    let (artist, source) = infer_target_artist(
        r"D:\Media\work.mp3",
        &vec![r"D:\Media".to_string()],
        &Vec::new(),
        Some("作者A"),
        AuthorFolderMode::Children,
    );

    assert_eq!(artist.as_deref(), Some("作者A"));
    assert_eq!(source, "现有 Artist 标签");
}

#[test]
fn selected_author_folder_mode_uses_the_selected_root_name() {
    let (artist, source) = infer_target_artist(
        r"D:\Media\作者A\专辑B\work.mp3",
        &vec![r"D:\Media\作者A".to_string()],
        &Vec::new(),
        Some("旧作者"),
        AuthorFolderMode::Selected,
    );

    assert_eq!(artist.as_deref(), Some("作者A"));
    assert_eq!(source, "所选作者目录");
}

#[test]
fn unknown_artist_without_folder_or_tag() {
    let (artist, source) = infer_target_artist(
        r"D:\Media\work.mp3",
        &vec![r"D:\Media".to_string()],
        &Vec::new(),
        Some("   "),
        AuthorFolderMode::Children,
    );
    assert_eq!(artist, None);
    assert_eq!(source, "未识别");
}

#[test]
fn recognizes_documented_media_extensions() {
    assert_eq!(get_media_type("cover.gif"), Some(MediaType::Image));
    assert_eq!(get_media_type("cover.bmp"), Some(MediaType::Image));
    assert_eq!(get_media_type("video.mkv"), Some(MediaType::Video));
    assert_eq!(get_media_type("video.avi"), Some(MediaType::Video));
    assert_eq!(get_media_type("video.wmv"), Some(MediaType::Video));
}

#[test]
fn media_types_ignore_extension_case_and_have_labels() {
    assert_eq!(get_media_type("Song.FLAC"), Some(MediaType::Audio));
    assert_eq!(get_media_type("book.Azw3"), Some(MediaType::Ebook));
    assert_eq!(get_media_type("notes.txt"), None);
    assert_eq!(get_media_type("no_extension"), None);
    assert_eq!(media_type_label("a.mp4"), Some("video"));
    assert_eq!(media_type_label("a.doc"), None);
}

#[test]
fn splits_contributing_artists_in_tag_order() {
    assert_eq!(
        split_contributing_artists(" 作者A；频道名、嘉宾B | 作者A "),
        vec!["作者A", "频道名", "嘉宾B"]
    );
}

#[test]
fn splits_multivalue_and_collaboration_artist_formats() {
    assert_eq!(
        split_contributing_artists("作者A\0频道名 / 嘉宾B feat. 嘉宾C，组合D\r\n作者A"),
        vec!["作者A", "频道名", "嘉宾B", "嘉宾C", "组合D"]
    );
}

#[test]
fn splits_windows_contributing_artists_value() {
    assert_eq!(
        split_contributing_artists("黧落大总攻; TG@Jingluoasmr;"),
        vec!["黧落大总攻", "TG@Jingluoasmr"]
    );
}

#[test]
fn appending_artists_skips_names_already_present_ignoring_case() {
    let mut artists = vec!["Alice".to_string()];
    append_contributing_artists(&mut artists, "alice ft. Bob; BOB");
    assert_eq!(artists, vec!["Alice", "Bob"]);
}

#[test]
fn limits_tag_cleanup_to_supported_containers() {
    assert!(supports_tag_cleanup("track.mp3"));
    assert!(supports_tag_cleanup("movie.mp4"));
    assert!(!supports_tag_cleanup("movie.mkv"));
    assert!(!supports_tag_cleanup("movie.mov"));
}

#[test]
fn author_names_lose_nul_whitespace_and_quotes() {
    assert_eq!(normalize_author("  \"作者A\"\0 ".to_string()), Some("作者A".to_string()));
    assert_eq!(normalize_author(" '' ".to_string()), None);
}

fn tag(artist: Option<&str>, album_artist: Option<&str>, album: Option<&str>, cover: Option<Vec<u8>>) -> TagValues {
    TagValues {
        artist: artist.map(str::to_string),
        track_artist: artist.map(str::to_string),
        album_artist: album_artist.map(str::to_string),
        album: album.map(str::to_string),
        composer: None,
        cover,
    }
}

#[test]
fn tag_blocks_merge_in_order() {
    let tags = vec![
        tag(Some("作者A / 作者B"), Some("  "), None, Some(Vec::new())),
        tag(Some("作者b；作者C"), Some("\"专辑作者\""), Some("专辑"), Some(b"abc".to_vec())),
    ];
    let meta = merge_tag_values(&tags);
    assert_eq!(meta.contributing_artists, vec!["作者A", "作者B", "作者C"]);
    assert_eq!(meta.artist.as_deref(), Some("作者A"));
    assert_eq!(meta.album_artist.as_deref(), Some("专辑作者"));
    assert_eq!(meta.album.as_deref(), Some("专辑"));
    assert_eq!(meta.composer, None);
    assert_eq!(
        meta.cover_art_hash.as_deref(),
        Some("ba7816bf8f01cfea414140de5dae2223b00361a396177a9cb410ff61f20015ad")
    );
}

#[test]
fn no_tags_give_empty_metadata() {
    let meta = merge_tag_values(&Vec::new());
    assert!(meta.contributing_artists.is_empty());
    assert_eq!(meta.artist, None);
    assert_eq!(meta.cover_art_hash, None);
}

#[test]
fn reads_the_opf_path_from_an_epub_container() {
    let xml = r#"<?xml version="1.0"?>
<container version="1.0" xmlns="urn:oasis:names:tc:opendocument:xmlns:container">
  <rootfiles>
    <rootfile full-path="OEBPS/content.opf" media-type="application/oebps-package+xml"/>
  </rootfiles>
</container>"#;
    assert_eq!(find_opf_path(xml), Some("OEBPS/content.opf".to_string()));
    assert_eq!(find_opf_path("<container><rootfiles/></container>"), None);
}

#[test]
fn reads_the_creator_of_an_opf_package() {
    let xml = r#"<package><metadata><dc:title>书名</dc:title><dc:creator opf:role="aut"> 作者甲 </dc:creator></metadata></package>"#;
    assert_eq!(find_dc_creator(xml), Some("作者甲".to_string()));
    assert_eq!(find_dc_creator("<package><dc:title>x</dc:title></package>"), None);
}

#[test]
fn reads_the_writer_of_a_comic() {
    let xml = "<ComicInfo><Title>T</Title><Writer>漫画作者</Writer></ComicInfo>";
    assert_eq!(find_named_tag(xml, "Writer"), Some("漫画作者".to_string()));
    assert_eq!(find_named_tag(xml, "Penciller"), None);
}

#[test]
fn reads_the_author_marker_of_mobi_data() {
    assert_eq!(mobi_author(b"xxAUTHOR\0\0  Jane Doe\0rest"), Some("Jane Doe".to_string()));
    assert_eq!(mobi_author(b"creator: Bob\nAUTHOR"), Some("Bob".to_string()));
    assert_eq!(mobi_author(b"nothing here"), None);
}

#[test]
fn ebook_formats_by_extension() {
    assert_eq!(ebook_format("a.EPUB"), Some(EbookFormat::Epub));
    assert_eq!(ebook_format("a.azw3"), Some(EbookFormat::Mobi));
    assert_eq!(ebook_format("a.cbr"), Some(EbookFormat::Comic));
    assert_eq!(ebook_format("a.pdf"), Some(EbookFormat::Pdf));
    assert_eq!(ebook_format("a.mp3"), None);
}

#[test]
fn author_metadata_keeps_only_the_normalised_artist() {
    let meta = author_metadata(Some(" 'Writer' ".to_string()));
    assert_eq!(meta.artist.as_deref(), Some("Writer"));
    assert!(meta.contributing_artists.is_empty());
    assert_eq!(author_metadata(None).artist, None);
}

#[test]
fn files_stopped_before_cleaning_are_recorded_with_or_without_the_artist() {
    let file = |supported: bool, sha: &str| MediaTagCleanupFile {
        path: "D:\\Music\\a.mp3".to_string(),
        file_name: "a.mp3".to_string(),
        size_bytes: 1,
        sha256: sha.to_string(),
        media_type: "audio".to_string(),
        current_artist: None,
        target_artist: None,
        author_source: String::new(),
        supported,
        skip_reason: None,
        checked: true,
    };
    let skipped = precheck_record(&file(false, "h"), Some("Alice"), true).unwrap();
    assert_eq!(skipped.status, OperationStatus::Skipped);
    assert_eq!(skipped.target_path, "未写入标签");
    assert_eq!(skipped.error_message.as_deref(), Some("文件格式不支持"));
    let failed = precheck_record(&file(true, ""), Some("Alice"), true).unwrap();
    assert_eq!(failed.status, OperationStatus::Failed);
    assert_eq!(failed.target_path, "Artist / AlbumArtist = Alice");
    assert!(!failed.reversible);
    assert!(precheck_record(&file(true, "h"), Some("Alice"), true).is_none());
}

#[test]
fn a_cleanup_run_takes_each_selected_file_once_and_refuses_unknown_paths() {
    let file = |path: &str| MediaTagCleanupFile {
        path: path.to_string(),
        file_name: String::new(),
        size_bytes: 1,
        sha256: "h".to_string(),
        media_type: "audio".to_string(),
        current_artist: None,
        target_artist: None,
        author_source: String::new(),
        supported: true,
        skip_reason: None,
        checked: true,
    };
    let scan = MediaTagCleanupResult {
        task_id: "t".to_string(),
        source_paths: Vec::new(),
        author_folder_mode: "children".to_string(),
        cleanup_mode: String::new(),
        verify_content_hash: true,
        scanned_count: 3,
        ready_count: 3,
        files: vec![file("a.mp3"), file("b.mp3"), file("c.mp3")],
    };
    let request = |paths: &[&str], task: &str| MediaTagCleanupExecuteRequest {
        task_id: task.to_string(),
        selected_paths: paths.iter().map(|p| p.to_string()).collect(),
        author_assignments: Vec::new(),
    };
    assert_eq!(select_cleanup_files(&scan, &request(&["c.mp3", "a.mp3", "c.mp3"], "t")).unwrap(), vec![0, 2]);
    assert_eq!(select_cleanup_files(&scan, &request(&["a.mp3", "x.mp3"], "t")).unwrap_err(), "包含不属于当前扫描结果的文件，请重新扫描");
    assert_eq!(select_cleanup_files(&scan, &request(&[], "t")).unwrap_err(), "请至少选择一个可清洗的媒体文件");
    assert_eq!(select_cleanup_files(&scan, &request(&["a.mp3"], "u")).unwrap_err(), "任务 ID 不匹配，请重新扫描");
}
