use smart_sorter::classify::{
    add_candidate, build_alias_map, build_normalized_keyword_map, canonical_keyword, candidate_score,
    filename_match_score, is_auto_classifiable, is_creator_keyword_excluded, match_target_keyword,
    merge_containing_keywords, merged_target, metadata_match_score, rank_candidates, Candidates,
    ClassificationDimension, AUTO_CLASSIFY_MARGIN, AUTO_CLASSIFY_THRESHOLD, EXACT_COVER_ART_SCORE,
};
use smart_sorter::knowledge::normalize_sources;
use smart_sorter::media_scan::CoverIndex;
use smart_sorter::models::KeywordAlias;
use smart_sorter::paths::{direct_child_folder_name, find_root_dir};
use smart_sorter::text::normalize_match_text;

fn score_of(candidates: &Candidates, keyword: &str) -> u8 {
    candidate_score(candidates, keyword).unwrap()
}

#[test]
fn selects_the_longest_matching_scan_root() {
    let source = r"D:\Media2\Author\work.mp4";
    let roots = vec![r"D:\Media".to_string(), r"D:\Media2".to_string()];

    assert_eq!(find_root_dir(source, &roots), r"D:\Media2".to_string());
}

#[test]
fn reads_direct_folder_as_a_file_keyword() {
    let source = r"D:\Media\Author\nested\work.mp4";
    let roots = vec![r"D:\Media".to_string()];

    assert_eq!(
        direct_child_folder_name(source, &roots).as_deref(),
        Some("Author")
    );
}

#[test]
fn merge_keywords_is_case_insensitive_and_uses_the_shortest_match() {
    let keywords = vec![
        "小凛蝶子".to_string(),
        "蝶子".to_string(),
        "Other".to_string(),
    ];
    let merged = merge_containing_keywords(&keywords);

    assert_eq!(merged_target(&merged, "小凛蝶子"), Some("蝶子".to_string()));
    assert_eq!(merged_target(&merged, "蝶子"), Some("蝶子".to_string()));
    assert_eq!(merged_target(&merged, "Other"), Some("Other".to_string()));
}

#[test]
fn classification_dimension_filters_incompatible_sources() {
    let all = ClassificationDimension::parse("all").unwrap();
    let creator = ClassificationDimension::parse("creator").unwrap();
    let album = ClassificationDimension::parse("album").unwrap();

    assert!(all.allows_source("artist"));
    assert!(all.allows_source("album"));
    assert!(all.allows_source("folder_name"));
    assert!(creator.allows_source("artist"));
    assert!(!creator.allows_source("album"));
    assert!(album.allows_source("album"));
    assert!(!album.allows_source("artist"));
}

#[test]
fn scoring_requires_a_strong_and_clear_winner_for_auto_classification() {
    assert_eq!(filename_match_score("Alice - Live", "Alice"), Some(82));
    assert_eq!(filename_match_score("NotAliceLive", "Alice"), Some(55));
    assert_eq!(metadata_match_score("Alice", "Alice", 95, 60), Some(95));

    let mut candidates: Candidates = Vec::new();
    add_candidate(&mut candidates, "Alice", 95, "artist");
    add_candidate(&mut candidates, "Alice", 55, "文件名");
    add_candidate(&mut candidates, "Album", 60, "文件名");

    assert_eq!(score_of(&candidates, "Alice"), 100);
    assert!(score_of(&candidates, "Alice") >= AUTO_CLASSIFY_THRESHOLD);
    assert!(score_of(&candidates, "Alice") - score_of(&candidates, "Album") >= AUTO_CLASSIFY_MARGIN);
}

#[test]
fn exact_cover_only_strengthens_an_existing_text_candidate() {
    let mut candidates: Candidates = Vec::new();
    add_candidate(&mut candidates, "Alice", 60, "artist");
    let keyword = "Alice";
    let anchor_count = 3;

    if candidate_score(&candidates, keyword).is_some() {
        add_candidate(
            &mut candidates,
            keyword,
            EXACT_COVER_ART_SCORE,
            &format!("封面与“{}”的 {} 个高置信度文件完全一致", keyword, anchor_count),
        );
    }
    let ranked = rank_candidates(candidates);

    assert_eq!(ranked[0].0, "Alice");
    assert_eq!(ranked[0].1.score, 82);
    assert!(is_auto_classifiable(ranked[0].1.score, 0));
}

#[test]
fn conflicting_cover_owners_are_not_used_as_evidence() {
    let index = CoverIndex {
        anchors: vec![
            ("cover".to_string(), "Alice".to_string()),
            ("cover".to_string(), "Alice".to_string()),
            ("cover".to_string(), "Bob".to_string()),
        ],
    };

    assert!(index.owner("cover").is_none());
}

#[test]
fn a_cover_with_one_owner_counts_its_files() {
    let index = CoverIndex {
        anchors: vec![
            ("cover".to_string(), "Alice".to_string()),
            ("other".to_string(), "Bob".to_string()),
            ("cover".to_string(), "Alice".to_string()),
        ],
    };

    assert_eq!(index.owner("cover"), Some(("Alice".to_string(), 2)));
    assert_eq!(index.owner("missing"), None);
}

#[test]
fn historical_aliases_resolve_to_the_canonical_keyword() {
    let aliases = vec![KeywordAlias {
        alias: "Jay Chou".into(),
        canonical: "周杰伦".into(),
        confirmations: 3,
        updated_at: String::new(),
    }];
    let alias_map = build_alias_map(&aliases);

    assert_eq!(canonical_keyword("jay chou", &alias_map), "周杰伦");
    assert_eq!(canonical_keyword("Other", &alias_map), "Other");
}

#[test]
fn saved_keyword_group_preserves_its_curated_target_name() {
    let aliases = vec![KeywordAlias {
        alias: "Jay Chou".into(),
        canonical: "周杰伦".into(),
        confirmations: 3,
        updated_at: String::new(),
    }];
    let alias_map = build_alias_map(&aliases);

    assert_eq!(
        match_target_keyword("Jay Chou", &alias_map, true),
        "Jay Chou"
    );
    assert_eq!(
        match_target_keyword("Jay Chou", &alias_map, false),
        "周杰伦"
    );
}

#[test]
fn folder_keyword_matching_ignores_case_and_whitespace() {
    let merged = vec![("频道 X".to_string(), "频道 X".to_string())];
    let normalized = build_normalized_keyword_map(&merged);

    assert_eq!(
        normalized.get(&normalize_match_text(" 频道x ")),
        Some("频道 X".to_string())
    );
}

#[test]
fn creator_exclusions_filter_the_keyword_and_its_aliases() {
    let aliases = vec![KeywordAlias {
        alias: "Channel X".into(),
        canonical: "频道X".into(),
        confirmations: 1,
        updated_at: String::new(),
    }];
    let alias_map = build_alias_map(&aliases);
    let exclusions = vec![normalize_match_text("频道X")];

    assert!(is_creator_keyword_excluded("Channel X", &alias_map, &exclusions));
    assert!(is_creator_keyword_excluded("频道 X", &alias_map, &exclusions));
    assert!(!is_creator_keyword_excluded("其他作者", &alias_map, &exclusions));
}

#[test]
fn all_dimension_accepts_every_keyword_source() {
    let sources = normalize_sources(
        &vec![
            "folder_name".into(),
            "artist".into(),
            "album_artist".into(),
            "album".into(),
            "composer".into(),
        ],
        "all",
    );

    assert_eq!(
        sources,
        vec!["folder_name", "artist", "album_artist", "album", "composer"]
    );
}
