use smart_sorter::execution::{
    conflict_backup_path, copy_verdict, execution_message, file_operation_precheck, learned_hints,
    media_execution_message, move_operation,
};
use smart_sorter::matcher::{evaluate_condition, match_number, number_from_text, parse_datetime, FileFacts};
use smart_sorter::media_plan::{build_target_path, ci_remove_first, resolve_unique_target, sanitize_segment};
use smart_sorter::models::{
    AliasLearningHint, Condition, ConditionField, ExecutionLog, ExecutionSummary, JsonValue, Operation,
    OperationStatus, Operator, RenameMode, RenameParams, RouteParams, ConflictStrategy, UndoStatus,
};
use smart_sorter::storage::load_history;
use smart_sorter::tag_cleanup::{cleanup_message, tag_backup_path};
use smart_sorter::tags::{clean_tags_precheck, current_hash_verdict, replace_failure, rewrite_verdict, sibling_work_path};
use smart_sorter::metadata::MediaMetadata;
use smart_sorter::transformer::{compute_rename, compute_route, expand_template, sanitize_path, PathMeta, TransformContext};
use smart_sorter::undo::undo_plan;

fn no_meta() -> PathMeta {
    PathMeta { size: None, created: None, modified: None }
}

fn object(fields: Vec<(&str, JsonValue)>) -> JsonValue {
    JsonValue::Object(fields.into_iter().map(|(k, v)| (k.to_string(), v)).collect())
}

#[test]
fn sanitized_paths_drop_blank_and_dotted_segments() {
    assert_eq!(sanitize_path("  D:\\ a. \\ b/ "), "D:\\a\\b");
    assert_eq!(sanitize_path("D:"), "D:");
    assert_eq!(sanitize_path(" x//y.. "), "\\x\\y");
}

#[test]
fn templates_expand_names_sizes_and_sequence() {
    let ctx = TransformContext { sequence: 7, seq_padding: 3 };
    assert_eq!(expand_template("{filename}_{seq}", "C:\\docs\\report.txt", &no_meta(), &ctx), "report_007");
    assert_eq!(expand_template(" {parent_dir}/{extension} ", "C:\\docs\\report.txt", &no_meta(), &ctx), "docs/txt");
    let meta = PathMeta {
        size: Some(1_572_864),
        created: Some(("2023".to_string(), "04".to_string(), "09".to_string())),
        modified: None,
    };
    assert_eq!(expand_template("{size_mb}MB {created_year}-{created_month}", "a.bin", &meta, &ctx), "1.5MB 2023-04");
    let half = PathMeta { size: Some(2_359_296), created: None, modified: None };
    assert_eq!(expand_template("{size_mb}", "a.bin", &half, &ctx), "2.2");
}

#[test]
fn renames_replace_text_in_the_stem() {
    let mut ctx = TransformContext::default();
    let params = RenameParams {
        mode: RenameMode::Replace,
        detail: object(vec![("find", JsonValue::Text("old".into())), ("replace", JsonValue::Text("new".into()))]),
    };
    assert_eq!(compute_rename("C:\\docs\\old-name.txt", &params, &no_meta(), &mut ctx, true), Some("C:\\docs\\new-name.txt".to_string()));
    assert_eq!(ctx.sequence, 1);
}

#[test]
fn sequence_renames_advance_the_counter() {
    let mut ctx = TransformContext::default();
    let params = RenameParams {
        mode: RenameMode::Sequence,
        detail: object(vec![("padding", JsonValue::Number(2))]),
    };
    assert_eq!(compute_rename("C:\\docs\\a.txt", &params, &no_meta(), &mut ctx, true), Some("C:\\docs\\a_01.txt".to_string()));
    assert_eq!(compute_rename("C:\\docs\\b.txt", &params, &no_meta(), &mut ctx, true), Some("C:\\docs\\b_02.txt".to_string()));
    assert_eq!(ctx.sequence, 3);
    assert_eq!(ctx.seq_padding, 2);
}

#[test]
fn routes_join_the_expanded_destination_and_the_file_name() {
    let ctx = TransformContext::default();
    let params = RouteParams { dest_pattern: "D:\\Sorted\\{extension}".into(), conflict_strategy: ConflictStrategy::Skip };
    assert_eq!(compute_route("C:\\in\\x.PDF", &params, &no_meta(), &ctx, true), Some("D:\\Sorted\\PDF\\x.PDF".to_string()));
}

fn facts(path: &str) -> FileFacts {
    FileFacts { path: path.into(), size: Some(2048), created: None, modified: None, now: (0, 0) }
}

#[test]
fn regex_and_size_conditions() {
    let no_instant = |_: &JsonValue| -> Option<i64> { None };
    let regex = Condition {
        field: ConditionField::Extension,
        operator: Operator::Regex,
        value: JsonValue::Text("^(jpe?g|png)$".into()),
    };
    assert!(evaluate_condition(&facts("C:\\a\\photo.jpg"), &regex, &no_instant));
    assert!(!evaluate_condition(&facts("C:\\a\\photo.gif"), &regex, &no_instant));
    let bad = Condition { field: ConditionField::Filename, operator: Operator::Regex, value: JsonValue::Text("(".into()) };
    assert!(!evaluate_condition(&facts("C:\\a\\photo.jpg"), &bad, &no_instant));
    let size = Condition { field: ConditionField::SizeBytes, operator: Operator::Gt, value: JsonValue::Number(1024) };
    assert!(evaluate_condition(&facts("x.bin"), &size, &no_instant));
}

#[test]
fn media_targets_name_the_keyword_and_the_topic() {
    assert_eq!(sanitize_segment(" a:b? "), "a_b_");
    assert_eq!(sanitize_segment(" .. "), "未命名");
    assert_eq!(ci_remove_first("Hello ALICE world", "alice"), "Hello  world");
    assert_eq!(
        build_target_path("D:\\in\\Alice - Live.mp3", "alice", "D:\\Media", true).unwrap(),
        "D:\\Media\\alice\\alice-Live.mp3"
    );
    assert_eq!(
        build_target_path("D:\\in\\Alice.mp3", "Alice", "D:\\Media", true).unwrap(),
        "D:\\Media\\Alice\\Alice-Alice.mp3"
    );
}

#[test]
fn unique_targets_skip_taken_names() {
    let mut used = Vec::new();
    let on_disk = |p: &str| p == "D:\\out\\a.txt";
    let first = resolve_unique_target("D:\\out\\a.txt".to_string(), &mut used, &on_disk, true);
    assert_eq!(first, "D:\\out\\a (2).txt");
    let second = resolve_unique_target("D:\\out\\a.txt".to_string(), &mut used, &on_disk, true);
    assert_eq!(second, "D:\\out\\a (3).txt");
    let free = resolve_unique_target("D:\\out\\b.txt".to_string(), &mut used, &on_disk, true);
    assert_eq!(free, "D:\\out\\b.txt");
    assert_eq!(used.len(), 3);
}

fn op(source: &str, status: OperationStatus, reversible: bool) -> Operation {
    Operation {
        op_id: "id".into(),
        action: "move".into(),
        source_path: source.into(),
        target_path: format!("{}.moved", source),
        status,
        error_message: if status == OperationStatus::Failed { Some("boom".into()) } else { None },
        reversible,
        target_hash: None,
        backup_path: None,
        backup_hash: None,
    }
}

fn log(id: &str, at: &str, ops: Vec<Operation>, undo_status: UndoStatus) -> ExecutionLog {
    ExecutionLog {
        log_id: id.into(),
        task_id: "t".into(),
        rule_set_name: "r".into(),
        executed_at: at.into(),
        duration_ms: 0,
        summary: ExecutionSummary { total: 0, succeeded: 0, failed: 0, skipped: 0 },
        operations: ops,
        undo_status,
    }
}

#[test]
fn undo_takes_reversible_successes_last_first() {
    let l = log(
        "l",
        "2024",
        vec![
            op("a", OperationStatus::Success, true),
            op("b", OperationStatus::Failed, true),
            op("c", OperationStatus::Success, false),
            op("d", OperationStatus::Success, true),
        ],
        UndoStatus::Available,
    );
    assert_eq!(undo_plan(&l).unwrap(), vec![3, 0]);
    let expired = log("e", "2024", Vec::new(), UndoStatus::Expired);
    assert_eq!(undo_plan(&expired).unwrap_err(), "此操作已过期，无法撤销");
}

#[test]
fn history_lists_the_newest_run_first() {
    let logs = vec![
        log("old", "2024-01-01T00:00:00+08:00", Vec::new(), UndoStatus::Available),
        log("new", "2024-02-01T00:00:00+08:00", Vec::new(), UndoStatus::Available),
    ];
    let sorted = load_history(logs);
    assert_eq!(sorted[0].log_id, "new");
    assert_eq!(sorted[1].log_id, "old");
}

#[test]
fn run_messages_count_outcomes() {
    let ok = vec![op("a", OperationStatus::Success, true), op("b", OperationStatus::Skipped, false)];
    assert_eq!(execution_message(&ok).unwrap(), "执行完成：1 成功，1 跳过");
    let failed = vec![op("a", OperationStatus::Success, true), op("b", OperationStatus::Failed, false)];
    assert_eq!(
        execution_message(&failed).unwrap_err(),
        "执行完成：1 成功, 1 失败, 0 跳过\n\n失败详情:\n  b → b.moved\n    原因: boom"
    );
}

#[test]
fn classifying_runs_learn_only_from_moved_files() {
    let moved = move_operation("a.mp3", "X\\a.mp3", &Ok(()), Some("hash".into()));
    assert!(moved.reversible);
    let failed = move_operation("b.mp3", "X\\b.mp3", &Err("busy".into()), None);
    assert_eq!(failed.status, OperationStatus::Failed);
    assert_eq!(failed.error_message.as_deref(), Some("busy"));
    let hints = vec![
        AliasLearningHint { source_path: "a.mp3".into(), alias: "A".into(), canonical: "甲".into() },
        AliasLearningHint { source_path: "b.mp3".into(), alias: "B".into(), canonical: "乙".into() },
    ];
    let learned = learned_hints(&hints, &vec![moved.clone(), failed.clone()]);
    assert_eq!(learned.len(), 1);
    assert_eq!(learned[0].alias, "A");
    assert_eq!(
        media_execution_message(&vec![moved.clone()], 1, None).unwrap(),
        "执行完成：1 个文件已归类；已学习 1 条别名"
    );
    assert_eq!(
        media_execution_message(&vec![moved.clone()], 0, Some("磁盘已满".into())).unwrap(),
        "执行完成：1 个文件已归类；别名学习未保存：磁盘已满"
    );
    assert_eq!(media_execution_message(&vec![moved, failed], 1, None).unwrap_err(), "执行完成：1 成功，1 失败");
}

#[test]
fn file_operations_refuse_missing_sources_and_taken_targets() {
    assert_eq!(file_operation_precheck("a", false, "b", false).unwrap_err(), "源文件不存在: a");
    assert_eq!(file_operation_precheck("a", true, "b", true).unwrap_err(), "目标文件已存在，拒绝覆盖: b");
    assert!(file_operation_precheck("a", true, "b", false).is_ok());
    assert!(copy_verdict("h", Ok("h".into())).is_ok());
    assert_eq!(copy_verdict("h", Ok("x".into())).unwrap_err(), "文件复制后哈希校验失败，操作已回滚");
    assert_eq!(copy_verdict("h", Err("io".into())).unwrap_err(), "校验目标文件哈希失败: io");
}

#[test]
fn backups_sit_beside_their_target() {
    let backup = conflict_backup_path("D:\\out\\a.txt", true);
    assert!(backup.starts_with("D:\\out\\.a.txt.smartsorter-backup-"));
    assert!(backup.len() > "D:\\out\\.a.txt.smartsorter-backup-".len());
    let tag_backup = tag_backup_path("C:\\data", "task", "D:\\m\\song.mp3", true);
    assert!(tag_backup.starts_with("C:\\data\\media_tag_backups\\task\\"));
    assert!(tag_backup.ends_with(".mp3"));
    let stage = sibling_work_path("D:\\m\\song.mp3", "tag-stage", true).unwrap();
    assert!(stage.starts_with("D:\\m\\.smartsorter-tag-stage-"));
    assert!(stage.ends_with("-song.mp3"));
}

#[test]
fn tag_rewrites_are_checked_before_and_after() {
    assert_eq!(clean_tags_precheck("a.mkv", "A", "h").unwrap_err(), "该格式暂不支持安全标签清洗");
    assert_eq!(clean_tags_precheck("a.mp3", " \"\" ", "h").unwrap_err(), "作者名称不能为空");
    assert_eq!(clean_tags_precheck("a.mp3", "A", "").unwrap_err(), "扫描时未能生成文件哈希，请重新扫描");
    assert_eq!(clean_tags_precheck("a.mp3", " 'A' ", "h").unwrap(), "A");

    let mut cleaned = MediaMetadata::empty();
    cleaned.artist = Some("A".into());
    assert_eq!(rewrite_verdict(&cleaned, "A", &None).unwrap_err(), "标签写入后校验失败，Artist 或 AlbumArtist 不匹配");
    cleaned.album_artist = Some("A".into());
    assert!(rewrite_verdict(&cleaned, "A", &None).is_ok());
    assert_eq!(
        rewrite_verdict(&cleaned, "A", &Some("cover".into())).unwrap_err(),
        "标签写入后校验失败，内嵌封面未被完整保留"
    );
    cleaned.cover_art_hash = Some("cover".into());
    assert!(rewrite_verdict(&cleaned, "A", &Some("cover".into())).is_ok());

    assert!(current_hash_verdict(Ok("h".into()), "h").is_ok());
    assert_eq!(current_hash_verdict(Ok("x".into()), "h").unwrap_err(), "文件在扫描后发生变化，已拒绝用旧备份执行标签清洗");
    assert_eq!(replace_failure("e1", None), "替换媒体文件失败，已恢复原文件: e1");
    assert_eq!(replace_failure("e1", Some("e2".into())), "替换媒体文件失败: e1；恢复原文件也失败: e2");
    assert_eq!(
        cleanup_message(&ExecutionSummary { total: 3, succeeded: 1, failed: 1, skipped: 1 }),
        "标签清洗完成：成功 1，失败 1，跳过 1"
    );
}

#[test]
fn condition_dates_read_numbers_and_local_dates() {
    assert_eq!(parse_datetime(&JsonValue::Number(1_000)), Some(1_000));
    assert!(parse_datetime(&JsonValue::Text("2024-01-02".into())).is_some());
    assert!(parse_datetime(&JsonValue::Text("2024-01-02T03:04:05".into())).is_some());
    assert_eq!(parse_datetime(&JsonValue::Text("yesterday".into())), None);
    assert_eq!(parse_datetime(&JsonValue::Bool(true)), None);
    let day = parse_datetime(&JsonValue::Text("2024-01-02".into())).unwrap();
    let later = parse_datetime(&JsonValue::Text("2024-01-02T03:04:05".into())).unwrap();
    assert_eq!(later - day, 3 * 3600 + 4 * 60 + 5);
}

#[test]
fn sizes_compare_with_fractional_targets() {
    assert!(matches!(number_from_text("1000.5"), JsonValue::Decimal(10005, 1)));
    assert!(matches!(number_from_text("-2"), JsonValue::Number(-2)));
    assert!(matches!(number_from_text("1e21"), JsonValue::Null));
    assert!(matches!(number_from_text("12."), JsonValue::Null));
    assert!(matches!(number_from_text("99999999999999999999"), JsonValue::Null));
    assert!(match_number(1001, Operator::Gt, &JsonValue::Decimal(10005, 1)));
    assert!(!match_number(1000, Operator::Gt, &JsonValue::Decimal(10005, 1)));
    assert!(match_number(1000, Operator::Lte, &JsonValue::Decimal(10005, 1)));
    assert!(!match_number(1000, Operator::Equals, &JsonValue::Decimal(10005, 1)));
    assert!(match_number(1000, Operator::Equals, &JsonValue::Decimal(10000, 1)));
    assert!(match_number(0, Operator::Lt, &JsonValue::Decimal(5, 30)));
    assert!(match_number(1, Operator::Gt, &JsonValue::Decimal(5, 30)));
    let range = JsonValue::List(vec![JsonValue::Decimal(5, 1), JsonValue::Number(2)]);
    assert!(match_number(1, Operator::Between, &range));
    assert!(!match_number(0, Operator::Between, &range));
}

#[test]
fn outside_windows_new_paths_are_joined_with_a_slash() {
    let mut ctx = TransformContext::default();
    let params = RenameParams {
        mode: RenameMode::Replace,
        detail: object(vec![("find", JsonValue::Text("old".into())), ("replace", JsonValue::Text("new".into()))]),
    };
    assert_eq!(compute_rename("/docs/old-name.txt", &params, &no_meta(), &mut ctx, false), Some("/docs/new-name.txt".to_string()));
    assert_eq!(build_target_path("/in/Alice - Live.mp3", "alice", "/Media", false).unwrap(), "/Media/alice/alice-Live.mp3");
    assert!(conflict_backup_path("/out/a.txt", false).starts_with("/out/.a.txt.smartsorter-backup-"));
    assert!(tag_backup_path("/data", "task", "/m/song.mp3", false).starts_with("/data/media_tag_backups/task/"));
    assert!(sibling_work_path("/m/song.mp3", "tag-stage", false).unwrap().starts_with("/m/.smartsorter-tag-stage-"));
}
