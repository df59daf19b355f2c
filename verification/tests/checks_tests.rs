use smart_sorter::classify::{add_candidate, rank_candidates, Candidates};
use smart_sorter::duplicates::{deletion_hash_verdict, deletion_plan, deletion_size_verdict, group_by_hash};
use smart_sorter::execution::{overwrite_hash_verdict, source_hash_verdict, source_size_verdict};
use smart_sorter::models::{DuplicateDeleteRequest, DuplicateResult};
use smart_sorter::paths::{distinct_by_key, file_name_chars, is_scan_root};
use smart_sorter::scan::select_media_files;
use smart_sorter::tag_cleanup::cleanup_size_verdict;
use smart_sorter::undo::{restore_hash_verdict, undo_target_verdict};

fn entry(hash: &str, path: &str) -> (String, (String, u64, String, String)) {
    (hash.to_string(), (path.to_string(), 3, "c".to_string(), "m".to_string()))
}

#[test]
fn hashed_files_group_by_first_seen_hash() {
    let groups = group_by_hash(&vec![entry("h1", "a"), entry("h2", "b"), entry("h1", "c")]);
    assert_eq!(groups.len(), 2);
    assert_eq!(groups[0].hash, "h1");
    assert_eq!(groups[0].files.iter().map(|f| f.0.as_str()).collect::<Vec<_>>(), vec!["a", "c"]);
    assert_eq!(groups[1].hash, "h2");
    assert_eq!(groups[1].files.len(), 1);
}

#[test]
fn scanned_paths_keep_the_first_of_each_key() {
    let paths = vec!["C:/a.txt".to_string(), "c:\\A.TXT".to_string(), "b".to_string()];
    assert_eq!(distinct_by_key(&paths, true), vec!["C:/a.txt", "b"]);
    assert!(is_scan_root("d:/media", &vec!["D:\\Media".to_string()], true));
    assert!(!is_scan_root("D:\\Media\\x", &vec!["D:\\Media".to_string()], true));
}

#[test]
fn media_scans_keep_the_requested_kinds_once() {
    let raw = vec![
        ("a.mp3".to_string(), 1),
        ("b.txt".to_string(), 2),
        ("a.mp3".to_string(), 1),
        ("c.JPG".to_string(), 3),
    ];
    assert_eq!(select_media_files(&raw, &vec!["Audio".to_string()]), vec![("a.mp3".to_string(), 1)]);
    assert_eq!(
        select_media_files(&raw, &Vec::new()),
        vec![("a.mp3".to_string(), 1), ("c.JPG".to_string(), 3)]
    );
}

#[test]
fn deletions_need_the_current_scan() {
    let request = DuplicateDeleteRequest { task_id: "t1".into(), paths_to_delete: vec!["a".into()] };
    assert_eq!(deletion_plan(None, &request, true).unwrap_err(), "没有可用的重复文件扫描结果，请重新扫描");
    let other = DuplicateResult {
        task_id: "t0".into(),
        scanned_count: 0,
        total_groups: 0,
        total_wasted_bytes: 0,
        groups: Vec::new(),
        errors: Vec::new(),
    };
    assert_eq!(deletion_plan(Some(&other), &request, true).unwrap_err(), "扫描任务已过期，请重新扫描后再删除");
}

#[test]
fn recorded_sizes_and_hashes_are_checked_with_their_messages() {
    assert_eq!(
        deletion_size_verdict(5, Ok(6)).unwrap_err(),
        "文件大小已变更（扫描时 5 字节，当前 6 字节），已跳过删除"
    );
    assert_eq!(deletion_size_verdict(5, Err("io".into())).unwrap_err(), "读取文件信息失败: io");
    assert!(deletion_size_verdict(5, Ok(5)).is_ok());
    assert_eq!(deletion_hash_verdict("h", Ok("x".into())).unwrap_err(), "文件内容已变更，已跳过删除");
    assert_eq!(source_size_verdict(5, Ok(6)).unwrap_err(), "文件大小已变更（预览时 5 字节，当前 6 字节）");
    assert_eq!(source_hash_verdict("h", Err("io".into())).unwrap_err(), "计算源文件 SHA-256 失败: io");
    assert_eq!(
        overwrite_hash_verdict("h", Ok("x".into())).unwrap_err(),
        "目标文件在预览后已变更，已跳过覆盖以保护该文件"
    );
    assert_eq!(
        cleanup_size_verdict(5, Ok(6)).unwrap_err(),
        "文件大小在扫描后发生变化（扫描时 5 字节，当前 6 字节），请重新扫描"
    );
    assert_eq!(
        undo_target_verdict("h", Ok("x".into())).unwrap_err(),
        "目标文件已被替换或修改，拒绝撤销以保护当前文件"
    );
    assert_eq!(restore_hash_verdict("h", Ok("x".into()), true).unwrap_err(), "已清洗文件已被修改，拒绝用旧备份覆盖");
    assert_eq!(restore_hash_verdict("h", Ok("x".into()), false).unwrap_err(), "标签备份文件已损坏或被替换");
    assert!(restore_hash_verdict("h", Ok("h".into()), false).is_ok());
}

#[test]
fn candidates_rank_by_score_then_keyword() {
    let mut candidates: Candidates = Vec::new();
    add_candidate(&mut candidates, "beta", 60, "a");
    add_candidate(&mut candidates, "Alpha", 60, "b");
    add_candidate(&mut candidates, "gamma", 90, "c");
    let ranked = rank_candidates(candidates);
    let names: Vec<&str> = ranked.iter().map(|c| c.0.as_str()).collect();
    assert_eq!(names, vec!["gamma", "Alpha", "beta"]);
}

#[test]
fn file_names_pass_over_a_trailing_current_folder() {
    let name = |p: &str| file_name_chars(&p.chars().collect()).map(|v| v.into_iter().collect::<String>());
    assert_eq!(name(r"D:\a\b\."), Some("b".to_string()));
    assert_eq!(name("/tmp/x/./"), Some("x".to_string()));
    assert_eq!(name("/tmp/x/.."), None);
    assert_eq!(name("."), None);
    assert_eq!(name("/tmp/report.txt"), Some("report.txt".to_string()));
}
