use smart_sorter::knowledge::{
    load_creator_exclusions, load_keyword_groups, record_confirmations_at, save_creator_exclusions,
    save_keyword_group_at,
};
use smart_sorter::models::{AliasLearningHint, KeywordGroupSaveRequest, MediaClassifyKnowledge, MediaKeywordGroup};
use smart_sorter::storage::{append, MAX_LOG_ENTRIES};
use smart_sorter::models::{ExecutionLog, ExecutionSummary, UndoStatus};

fn empty_knowledge() -> MediaClassifyKnowledge {
    MediaClassifyKnowledge {
        aliases: Vec::new(),
        creator_exclusions: Vec::new(),
        keyword_groups: Vec::new(),
    }
}

#[test]
fn persists_and_counts_confirmed_aliases() {
    let mut knowledge = empty_knowledge();
    let hint = AliasLearningHint {
        source_path: "D:\\media\\file.mp3".into(),
        alias: "Jay Chou".into(),
        canonical: "周杰伦".into(),
    };

    record_confirmations_at(&mut knowledge, &vec![hint.clone(), hint], "2024-01-01T00:00:00+08:00");

    assert_eq!(knowledge.aliases.len(), 1);
    assert_eq!(knowledge.aliases[0].confirmations, 2);
    assert_eq!(knowledge.aliases[0].canonical, "周杰伦");
}

#[test]
fn persists_creator_exclusions_without_case_or_space_duplicates() {
    let mut knowledge = empty_knowledge();
    let saved = save_creator_exclusions(
        &mut knowledge,
        &vec!["音乐频道".into(), " 音乐 频道 ".into(), "A".into()],
    );

    assert_eq!(saved, vec!["音乐频道"]);
    assert_eq!(load_creator_exclusions(&knowledge), vec!["音乐频道"]);
}

#[test]
fn saves_named_keyword_groups_and_filters_creator_exclusions() {
    let mut knowledge = empty_knowledge();
    save_creator_exclusions(&mut knowledge, &vec!["频道名".into()]);

    let group = save_keyword_group_at(
        &mut knowledge,
        KeywordGroupSaveRequest {
            id: None,
            name: "常用作者".into(),
            classification_dimension: "creator".into(),
            keyword_sources: vec!["artist".into(), "folder_name".into()],
            keywords: vec!["作者A".into(), "频道名".into(), "作者A".into()],
        },
        "2024-01-01T00:00:00+08:00",
        "group-1".to_string(),
    )
    .unwrap();

    assert_eq!(group.keywords, vec!["作者A"]);
    assert_eq!(load_keyword_groups(knowledge.keyword_groups.clone()).len(), 1);

    let duplicate = save_keyword_group_at(
        &mut knowledge,
        KeywordGroupSaveRequest {
            id: None,
            name: " 常用 作者 ".into(),
            classification_dimension: "creator".into(),
            keyword_sources: vec!["artist".into()],
            keywords: vec!["作者B".into()],
        },
        "2024-01-02T00:00:00+08:00",
        "group-2".to_string(),
    );
    assert_eq!(duplicate.unwrap_err(), "关键词组名称已存在，请使用其他名称");

    let updated = save_keyword_group_at(
        &mut knowledge,
        KeywordGroupSaveRequest {
            id: Some(group.id.clone()),
            name: "常用作者（已编辑）".into(),
            classification_dimension: "creator".into(),
            keyword_sources: vec!["artist".into()],
            keywords: vec!["作者B".into()],
        },
        "2024-01-03T00:00:00+08:00",
        "group-3".to_string(),
    )
    .unwrap();

    assert_eq!(updated.id, group.id);
    assert_eq!(
        load_keyword_groups(knowledge.keyword_groups.clone())[0].keywords,
        vec!["作者B"]
    );
}

fn log(id: usize) -> ExecutionLog {
    ExecutionLog {
        log_id: format!("log-{}", id),
        task_id: "task".into(),
        rule_set_name: "rules".into(),
        executed_at: String::new(),
        duration_ms: 0,
        summary: ExecutionSummary { total: 0, succeeded: 0, failed: 0, skipped: 0 },
        operations: Vec::new(),
        undo_status: UndoStatus::Available,
    }
}

#[test]
fn history_keeps_only_the_latest_entries() {
    let mut logs = Vec::new();
    for i in 0..MAX_LOG_ENTRIES {
        append(&mut logs, log(i));
    }
    assert_eq!(logs.len(), MAX_LOG_ENTRIES);
    append(&mut logs, log(MAX_LOG_ENTRIES));
    assert_eq!(logs.len(), MAX_LOG_ENTRIES);
    assert_eq!(logs[0].log_id, "log-1");
    assert_eq!(logs[MAX_LOG_ENTRIES - 1].log_id, format!("log-{}", MAX_LOG_ENTRIES));
}

#[test]
fn loaded_groups_are_ordered_by_lowercase_name_keeping_stored_order_on_ties() {
    let named = |id: &str, name: &str| MediaKeywordGroup {
        id: id.to_string(),
        name: name.to_string(),
        classification_dimension: "creator".to_string(),
        keyword_sources: Vec::new(),
        keywords: Vec::new(),
        created_at: String::new(),
        updated_at: String::new(),
    };
    let loaded = load_keyword_groups(vec![named("1", "beta"), named("2", "alpha"), named("3", "Alpha"), named("4", "Beta")]);
    let ids: Vec<&str> = loaded.iter().map(|g| g.id.as_str()).collect();
    assert_eq!(ids, vec!["2", "3", "1", "4"]);
}

#[test]
fn the_first_text_of_each_match_key_is_saved_as_an_exclusion() {
    let mut knowledge = empty_knowledge();
    let saved = save_creator_exclusions(
        &mut knowledge,
        &vec!["  Bob ".into(), "bob".into(), "A".into(), "Alice".into(), "A LICE".into()],
    );
    assert_eq!(saved, vec!["Alice", "Bob"]);
}
