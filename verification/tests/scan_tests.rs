use smart_sorter::media_plan::preview_media_classify;
use smart_sorter::media_scan::ScannedMedia;
use smart_sorter::metadata::MediaMetadata;
use smart_sorter::execution::{chain_step, ExecutionOutcome};
use smart_sorter::models::{
    ClassifyExecuteRequest, ConflictStrategy, FileSnapshot, KeywordGroup, MediaClassifyKnowledge, MediaClassifyResult, MediaFile,
    OperationStatus, PlannedOperation,
};
use smart_sorter::preview::resolve_target;
use smart_sorter::scan::scan_media_with_keywords;

fn scanned(path: &str, artist: Option<&str>) -> ScannedMedia {
    let mut metadata = MediaMetadata::empty();
    metadata.artist = artist.map(|a| a.to_string());
    ScannedMedia {
        path: path.to_string(),
        size_bytes: 10,
        metadata,
        modified_at: "2024-01-01T00:00:00Z".to_string(),
    }
}

fn sample_scan() -> MediaClassifyResult {
    let files = vec![
        scanned(r"D:\Media\Alice\song1.mp3", Some("Alice")),
        scanned(r"D:\Media\Alice\Alice-song2.mp3", Some("Alice")),
        scanned(r"D:\Media\Misc\x.mp3", None),
    ];
    let knowledge = MediaClassifyKnowledge {
        aliases: Vec::new(),
        creator_exclusions: Vec::new(),
        keyword_groups: Vec::new(),
    };
    scan_media_with_keywords(
        "task-1".to_string(),
        vec![r"D:\Media".to_string()],
        &vec!["folder_name".to_string(), "artist".to_string()],
        "all",
        None,
        &knowledge,
        &vec!["Alice".to_string(), "Misc".to_string()],
        &files,
    )
    .unwrap()
}

#[test]
fn scan_files_each_scanned_path_exactly_once() {
    let result = sample_scan();
    assert_eq!(result.scanned_count, 3);

    let mut seen: Vec<String> = Vec::new();
    for group in &result.groups {
        assert_eq!(group.file_count as usize, group.files.len());
        for file in &group.files {
            seen.push(file.path.clone());
        }
    }
    for file in &result.unmatched_files {
        seen.push(file.path.clone());
    }
    seen.sort();
    assert_eq!(
        seen,
        vec![
            r"D:\Media\Alice\Alice-song2.mp3".to_string(),
            r"D:\Media\Alice\song1.mp3".to_string(),
            r"D:\Media\Misc\x.mp3".to_string(),
        ]
    );

    let alice = result.groups.iter().find(|g| g.keyword == "Alice").unwrap();
    assert_eq!(alice.files.len(), 2);
    assert_eq!(alice.total_size, 20);
    assert_eq!(alice.files[0].file_name, "Alice-song2.mp3");
    assert_eq!(alice.files[1].file_name, "song1.mp3");
}

#[test]
fn scan_refuses_an_unknown_dimension() {
    let knowledge = MediaClassifyKnowledge {
        aliases: Vec::new(),
        creator_exclusions: Vec::new(),
        keyword_groups: Vec::new(),
    };
    let result = scan_media_with_keywords(
        "task-1".to_string(),
        vec![r"D:\Media".to_string()],
        &vec!["artist".to_string()],
        "colour",
        None,
        &knowledge,
        &Vec::new(),
        &Vec::new(),
    );
    assert!(result.is_err());
}

#[test]
fn classify_preview_moves_selected_files_and_leaves_files_in_place() {
    let result = sample_scan();
    let request = ClassifyExecuteRequest {
        task_id: "task-1".to_string(),
        keyword_assignments: Vec::new(),
        selected_paths: vec![
            r"D:\Media\Alice\song1.mp3".to_string(),
            r"D:\Media\Alice\Alice-song2.mp3".to_string(),
        ],
    };
    let preview = preview_media_classify(&result, &request, &|_p: &str| false, true).unwrap();

    assert_eq!(preview.total, 1);
    assert_eq!(preview.items.len(), 1);
    assert_eq!(preview.items[0].source_path, r"D:\Media\Alice\song1.mp3");
    assert_eq!(preview.items[0].target_path, r"D:\Media\Alice\Alice-song1.mp3");
    assert_eq!(preview.items[0].action_desc, "移动到 Alice 并重命名");
    assert!(preview.learning_hints.is_empty());
}

#[test]
fn classify_preview_refuses_another_task() {
    let result = sample_scan();
    let request = ClassifyExecuteRequest {
        task_id: "task-2".to_string(),
        keyword_assignments: Vec::new(),
        selected_paths: Vec::new(),
    };
    let err = preview_media_classify(&result, &request, &|_p: &str| false, true).unwrap_err();
    assert_eq!(err, "任务 ID 不匹配，请重新扫描");
}

#[test]
fn auto_rename_resolves_a_target_reserved_by_an_earlier_file() {
    let base = format!("/tmp/smart-sorter-preview-{}", uuid::Uuid::new_v4());
    let target = format!("{}/report.txt", base);
    let mut reserved: Vec<String> = Vec::new();
    let probe = |_p: &str| -> Option<FileSnapshot> { None };

    let (first, first_conflict) =
        resolve_target(target.clone(), ConflictStrategy::AutoRename, &mut reserved, &probe, false);
    let (second, second_conflict) =
        resolve_target(target, ConflictStrategy::AutoRename, &mut reserved, &probe, false);

    assert_eq!(first, format!("{}/report.txt", base));
    assert!(first_conflict.is_none());
    assert_eq!(second, format!("{}/report (2).txt", base));
    assert_eq!(
        second_conflict.map(|conflict| conflict.conflict_type),
        Some("batch_name_collision".to_string())
    );
}

#[test]
fn auto_rename_on_windows_joins_with_a_backslash() {
    let target = r"C:\Temp\smart-sorter-preview\report.txt".to_string();
    let mut reserved: Vec<String> = Vec::new();
    let probe = |_p: &str| -> Option<FileSnapshot> { None };
    resolve_target(target.clone(), ConflictStrategy::AutoRename, &mut reserved, &probe, true);
    let (second, _) = resolve_target(target, ConflictStrategy::AutoRename, &mut reserved, &probe, true);
    assert_eq!(second, "C:\\Temp\\smart-sorter-preview\\report (2).txt");
}

#[test]
fn a_failed_step_blocks_the_rest_of_its_chain() {
    let planned = |target: &str| PlannedOperation {
        action_type: "move".to_string(),
        source_path: r"D:\a.txt".to_string(),
        target_path: target.to_string(),
        conflict_strategy: None,
        expected_target_exists: false,
        expected_target_hash: None,
        requires_confirmation: false,
    };
    let mut operations = Vec::new();
    let failed = ExecutionOutcome {
        status: OperationStatus::Failed,
        target_path: r"D:\b\a.txt".to_string(),
        error_message: Some("boom".to_string()),
        reversible: false,
    };
    let blocked = chain_step(&mut operations, false, &planned(r"D:\b\a.txt"), Some((failed, None)));
    assert!(blocked);
    let blocked = chain_step(&mut operations, blocked, &planned(r"D:\c\a.txt"), None);
    assert!(blocked);
    assert_eq!(operations.len(), 2);
    assert_eq!(operations[0].status, OperationStatus::Failed);
    assert_eq!(operations[1].status, OperationStatus::Skipped);
    assert_eq!(operations[1].error_message.as_deref(), Some("前置操作未成功，已跳过"));
}

#[test]
fn a_hand_assigned_keyword_teaches_the_other_matches_as_aliases() {
    let file = MediaFile {
        path: r"D:\Media\Mix\duet.mp3".to_string(),
        file_name: "duet.mp3".to_string(),
        size_bytes: 5,
        media_type: "audio".to_string(),
        matched_keywords: vec!["Alice".to_string(), "Bob".to_string()],
        confidence: 90,
        evidence: Vec::new(),
        requires_confirmation: true,
        modified_at: String::new(),
        checked: false,
    };
    let scan = MediaClassifyResult {
        task_id: "t".to_string(),
        source_paths: vec![r"D:\Media".to_string()],
        classification_dimension: "all".to_string(),
        scanned_count: 1,
        total_keywords: 1,
        no_match_count: 0,
        unmatched_files: Vec::new(),
        keywords: Vec::new(),
        groups: vec![KeywordGroup { keyword: "Alice".to_string(), file_count: 1, total_size: 5, files: vec![file] }],
    };
    let request = ClassifyExecuteRequest {
        task_id: "t".to_string(),
        keyword_assignments: vec![(r"D:\Media\Mix\duet.mp3".to_string(), "Bob".to_string())],
        selected_paths: vec![r"D:\Media\Mix\duet.mp3".to_string()],
    };
    let preview = preview_media_classify(&scan, &request, &|_p: &str| false, true).unwrap();
    assert_eq!(preview.items.len(), 1);
    assert_eq!(preview.items[0].target_path, r"D:\Media\Bob\Bob-duet.mp3");
    assert_eq!(preview.learning_hints.len(), 1);
    assert_eq!(preview.learning_hints[0].alias, "Alice");
    assert_eq!(preview.learning_hints[0].canonical, "Bob");
}
