use smart_sorter::duplicates::{
    build_duplicate_result, build_size_candidates, delete_planned, group_by_hash, validate_delete_request, FileDeletionSnapshot,
};
use std::cell::RefCell;
use smart_sorter::execution::{deletion_message, delete_operation, requires_delete_confirmation};
use smart_sorter::models::{DuplicateFile, DuplicateGroup, DuplicateResult, OperationStatus, PlannedOperation};
use smart_sorter::paths::path_key;

fn group(group_id: &str, paths: &[&str]) -> DuplicateGroup {
    DuplicateGroup {
        group_id: group_id.into(),
        hash: "snapshot-hash".into(),
        file_size: 0,
        files: paths
            .iter()
            .map(|path| DuplicateFile {
                path: (*path).into(),
                created_at: String::new(),
                modified_at: String::new(),
                keep: false,
            })
            .collect(),
    }
}

fn snapshot(groups: Vec<DuplicateGroup>) -> DuplicateResult {
    DuplicateResult {
        task_id: "task-1".into(),
        scanned_count: 0,
        total_groups: groups.len() as u64,
        total_wasted_bytes: 0,
        groups,
        errors: Vec::new(),
    }
}

#[test]
fn path_keys_deduplicate_equivalent_windows_paths() {
    assert_eq!(
        path_key("C:/Files/Report.txt", true),
        path_key("c:\\files\\report.txt", true)
    );
    assert_ne!(
        path_key("/Files/Report.txt", false),
        path_key("/files/report.txt", false)
    );
}

#[test]
fn delete_request_cannot_remove_every_file_in_a_group() {
    let result = snapshot(vec![group("group-1", &["one.txt", "two.txt"])]);
    let error = validate_delete_request(&result, &vec!["one.txt".into(), "two.txt".into()], true).unwrap_err();
    assert!(error.contains("至少需要保留一个"));
}

#[test]
fn delete_request_rejects_files_outside_the_scan_snapshot() {
    let result = snapshot(vec![group("group-1", &["one.txt", "two.txt"])]);
    let error = validate_delete_request(&result, &vec!["outside.txt".into()], true).unwrap_err();
    assert!(error.contains("不属于当前扫描结果"));
}

#[test]
fn zero_byte_files_are_valid_duplicate_candidates() {
    let candidates = build_size_candidates(&vec![("empty-a".to_string(), 0), ("empty-b".to_string(), 0)]);
    assert_eq!(
        candidates,
        vec![(0, vec!["empty-a".to_string(), "empty-b".to_string()])]
    );
}

#[test]
fn detects_delete_operations_that_require_confirmation() {
    let delete = PlannedOperation {
        action_type: "delete".into(),
        source_path: "source.txt".into(),
        target_path: String::new(),
        conflict_strategy: None,
        expected_target_exists: false,
        expected_target_hash: None,
        requires_confirmation: true,
    };
    let unchecked_delete = PlannedOperation {
        requires_confirmation: false,
        ..delete.clone()
    };

    assert!(requires_delete_confirmation(&[delete]));
    assert!(!requires_delete_confirmation(&[unchecked_delete]));
}

#[test]
fn delete_request_keeps_a_file_and_returns_the_chosen_snapshot() {
    let mut g = group("group-1", &["one.txt", "two.txt", "three.txt"]);
    g.file_size = 42;
    let result = snapshot(vec![g]);
    let chosen = validate_delete_request(&result, &vec!["two.txt".into(), "THREE.TXT".into()], true).unwrap();
    assert_eq!(chosen.len(), 2);
    assert_eq!(chosen[0].path, "two.txt");
    assert_eq!(chosen[0].file_size, 42);
    assert_eq!(chosen[0].hash, "snapshot-hash");
    assert_eq!(chosen[1].path, "three.txt");
}

#[test]
fn delete_request_with_nothing_chosen_is_refused() {
    let result = snapshot(vec![group("group-1", &["one.txt", "two.txt"])]);
    let error = validate_delete_request(&result, &Vec::new(), true).unwrap_err();
    assert_eq!(error, "没有可删除的重复文件");
}

#[test]
fn size_candidates_keep_only_sizes_shared_by_two_files() {
    let candidates = build_size_candidates(&vec![
        ("a".to_string(), 5),
        ("b".to_string(), 7),
        ("c".to_string(), 5),
    ]);
    assert_eq!(candidates, vec![(5, vec!["a".to_string(), "c".to_string()])]);
}

#[test]
fn deletion_reports_successes_and_failures() {
    let ok = delete_operation("a.txt", &Ok(()));
    let failed = delete_operation("b.txt", &Err("busy".to_string()));
    assert_eq!(deletion_message(&vec![ok.clone()]), "成功删除 1 个重复文件");
    assert_eq!(deletion_message(&vec![ok, failed]), "删除完成：成功 1，失败 1");
}

#[test]
fn a_scan_puts_files_of_one_hash_in_one_group_and_no_path_in_two() {
    let entry = |p: &str, m: &str| (p.to_string(), 4u64, String::new(), m.to_string());
    let hashed = vec![
        ("h1".to_string(), entry("a", "1")),
        ("h2".to_string(), entry("b", "1")),
        ("h1".to_string(), entry("c", "2")),
        ("h3".to_string(), entry("d", "1")),
        ("h3".to_string(), entry("e", "3")),
    ];
    let grouped = group_by_hash(&hashed);
    assert_eq!(grouped.len(), 3);
    let result = build_duplicate_result("t".to_string(), 5, &grouped, Vec::new());
    assert_eq!(result.total_groups, 2);
    assert_eq!(result.total_wasted_bytes, 8);
    let paths: Vec<Vec<String>> =
        result.groups.iter().map(|g| g.files.iter().map(|f| f.path.clone()).collect()).collect();
    assert_eq!(paths, vec![vec!["c".to_string(), "a".to_string()], vec!["e".to_string(), "d".to_string()]]);
    assert_eq!(result.groups[0].hash, "h1");
    assert!(result.groups[0].files[0].keep && !result.groups[0].files[1].keep);
}

#[test]
fn only_files_still_as_scanned_are_deleted() {
    let files = vec![
        FileDeletionSnapshot { path: "same.txt".to_string(), file_size: 3, hash: "abc".to_string() },
        FileDeletionSnapshot { path: "grown.txt".to_string(), file_size: 3, hash: "abc".to_string() },
        FileDeletionSnapshot { path: "edited.txt".to_string(), file_size: 3, hash: "abc".to_string() },
    ];
    let removed = RefCell::new(Vec::new());
    let ops = delete_planned(
        &files,
        &|p: &str| Ok(if p == "grown.txt" { 5 } else { 3 }),
        &|p: &str| Ok(if p == "edited.txt" { "xyz".to_string() } else { "abc".to_string() }),
        &|p: &str| {
            removed.borrow_mut().push(p.to_string());
            Ok(())
        },
    );
    assert_eq!(removed.into_inner(), vec!["same.txt".to_string()]);
    assert_eq!(ops.len(), 3);
    assert_eq!(ops[0].status, OperationStatus::Success);
    assert_eq!(ops[1].status, OperationStatus::Failed);
    assert_eq!(ops[1].error_message.as_deref(), Some("文件大小已变更（扫描时 3 字节，当前 5 字节），已跳过删除"));
    assert_eq!(ops[2].status, OperationStatus::Failed);
    assert_eq!(ops[2].error_message.as_deref(), Some("文件内容已变更，已跳过删除"));
}

#[test]
fn a_path_listed_in_two_groups_stands_for_its_last_listing() {
    let mut first = group("group-1", &["a.txt", "b.txt"]);
    first.file_size = 1;
    first.hash = "h1".into();
    let mut second = group("group-2", &["A.TXT", "c.txt"]);
    second.file_size = 2;
    second.hash = "h2".into();
    let chosen = validate_delete_request(&snapshot(vec![first, second]), &vec!["a.txt".into()], true).unwrap();
    assert_eq!(chosen.len(), 1);
    assert_eq!(chosen[0].path, "A.TXT");
    assert_eq!(chosen[0].file_size, 2);
    assert_eq!(chosen[0].hash, "h2");
}
