//! The data the library works on: rules, previews, execution logs, duplicate
//! scans and media classification results, as plain values.
use vstd::prelude::*;

verus! {

// ------------------------------------------------------------------ rules

/// A JSON value as rule parameters carry it. Whole numbers are integers; a
/// number with a fraction is a decimal: its digits as an integer, over ten to
/// the power of its scale.
#[derive(Debug)]
pub enum JsonValue {
    Null,
    Bool(bool),
    Number(i64),
    Decimal(i64, u32),
    Text(String),
    List(Vec<JsonValue>),
    Object(Vec<(String, JsonValue)>),
}

#[derive(Debug)]
pub struct RuleSet {
    pub id: String,
    pub name: String,
    pub description: Option<String>,
    pub created_at: String,
    pub updated_at: String,
    pub rules: Vec<Rule>,
}

#[derive(Debug)]
pub struct Rule {
    pub id: String,
    pub enabled: bool,
    pub name: String,
    pub condition_group: ConditionGroup,
    pub actions: Vec<Action>,
}

#[derive(Debug)]
pub struct ConditionGroup {
    pub logic: Logic,
    pub conditions: Vec<Condition>,
    pub sub_groups: Vec<ConditionGroup>,
}

#[derive(Debug, Clone, Copy, PartialEq, Eq, Structural)]
pub enum Logic {
    And,
    Or,
}

#[derive(Debug)]
pub struct Condition {
    pub field: ConditionField,
    pub operator: Operator,
    pub value: JsonValue,
}

#[derive(Debug, Clone, Copy, PartialEq, Eq, Structural)]
pub enum ConditionField {
    Filename,
    Extension,
    FullName,
    SizeBytes,
    CreatedAt,
    ModifiedAt,
    ParentDir,
}

#[derive(Debug, Clone, Copy, PartialEq, Eq, Structural)]
pub enum Operator {
    Equals,
    NotEquals,
    Contains,
    NotContains,
    StartsWith,
    EndsWith,
    Regex,
    In,
    NotIn,
    Gt,
    Gte,
    Lt,
    Lte,
    Between,
    Before,
    After,
    WithinDays,
}

#[derive(Debug)]
pub enum Action {
    Rename(RenameParams),
    Move(RouteParams),
    Copy(RouteParams),
    Delete(DeleteParams),
}

#[derive(Debug)]
pub struct RenameParams {
    pub mode: RenameMode,
    pub detail: JsonValue,
}

#[derive(Debug, Clone, Copy, PartialEq, Eq, Structural)]
pub enum RenameMode {
    Replace,
    Prefix,
    Suffix,
    Sequence,
}

#[derive(Debug, Clone)]
pub struct RouteParams {
    pub dest_pattern: String,
    pub conflict_strategy: ConflictStrategy,
}

#[derive(Debug, Clone, Copy, PartialEq, Eq, Structural)]
pub enum ConflictStrategy {
    Skip,
    Overwrite,
    AutoRename,
}

#[derive(Debug, Clone, Copy)]
pub struct DeleteParams {
    pub confirm_required: bool,
}

// ---------------------------------------------------------------- preview

#[derive(Debug, Clone)]
pub struct PreviewRequest {
    pub source_paths: Vec<String>,
    pub rule_set_id: String,
    pub recursive: bool,
    pub max_depth: Option<u32>,
}

#[derive(Debug, Clone)]
pub struct PreviewResult {
    pub task_id: String,
    pub rule_set_name: String,
    pub generated_at: String,
    pub summary: PreviewSummary,
    pub items: Vec<PreviewItem>,
    pub errors: Vec<PreviewError>,
}

#[derive(Debug, Clone, Copy)]
pub struct PreviewSummary {
    pub total_scanned: u64,
    pub matched: u64,
    pub to_rename: u64,
    pub to_move: u64,
    pub to_copy: u64,
    pub to_delete: u64,
    pub conflicts: u64,
    pub errors: u64,
}

#[derive(Debug, Clone)]
pub struct PreviewItem {
    pub id: String,
    pub checked: bool,
    pub source: FileSnapshot,
    pub target: FileTarget,
    pub changes: Vec<ChangeDetail>,
    pub conflict: Option<Conflict>,
    pub operations: Vec<PlannedOperation>,
}

#[derive(Debug, Clone)]
pub struct FileSnapshot {
    pub path: String,
    pub name: String,
    pub size_bytes: u64,
    pub created_at: String,
    pub modified_at: String,
    pub sha256: String,
}

#[derive(Debug, Clone)]
pub struct FileTarget {
    pub path: String,
    pub name: String,
}

#[derive(Debug, Clone)]
pub struct ChangeDetail {
    pub rule_id: String,
    pub rule_name: String,
    pub action_type: String,
    pub description: String,
}

#[derive(Debug, Clone)]
pub struct Conflict {
    pub conflict_type: String,
    pub existing_file: Option<FileSnapshot>,
    pub resolution: ConflictStrategy,
    pub resolved_path: String,
}

#[derive(Debug, Clone)]
pub struct PreviewError {
    pub path: String,
    pub error: String,
    pub message: String,
}

/// One step of a preview item's plan, carried to execution.
#[derive(Debug, Clone)]
pub struct PlannedOperation {
    pub action_type: String,
    pub source_path: String,
    pub target_path: String,
    pub conflict_strategy: Option<ConflictStrategy>,
    pub expected_target_exists: bool,
    pub expected_target_hash: Option<String>,
    pub requires_confirmation: bool,
}

#[derive(Debug, Clone)]
pub struct ExecuteTaskRequest {
    pub task_id: String,
    pub checked_ids: Vec<String>,
    pub confirmed_delete_ids: Vec<String>,
}

#[derive(Debug, Clone)]
pub struct ProgressPayload {
    pub task_id: String,
    pub current: u64,
    pub total: u64,
    pub current_file: String,
    pub phase: String,
}

// -------------------------------------------------------------------- log

#[derive(Debug, Clone)]
pub struct ExecutionLog {
    pub log_id: String,
    pub task_id: String,
    pub rule_set_name: String,
    pub executed_at: String,
    pub duration_ms: u64,
    pub summary: ExecutionSummary,
    pub operations: Vec<Operation>,
    pub undo_status: UndoStatus,
}

#[derive(Debug, Clone, Copy, PartialEq, Eq, Structural)]
pub struct ExecutionSummary {
    pub total: u64,
    pub succeeded: u64,
    pub failed: u64,
    pub skipped: u64,
}

#[derive(Debug, Clone)]
pub struct Operation {
    pub op_id: String,
    pub action: String,
    pub source_path: String,
    pub target_path: String,
    pub status: OperationStatus,
    pub error_message: Option<String>,
    pub reversible: bool,
    pub target_hash: Option<String>,
    pub backup_path: Option<String>,
    pub backup_hash: Option<String>,
}

#[derive(Debug, Clone, Copy, PartialEq, Eq, Structural)]
pub enum OperationStatus {
    Success,
    Failed,
    Skipped,
}

#[derive(Debug, Clone, Copy, PartialEq, Eq, Structural)]
pub enum UndoStatus {
    Available,
    Partial,
    Expired,
}

// -------------------------------------------------------------- duplicates

#[derive(Debug, Clone)]
pub struct DuplicateResult {
    pub task_id: String,
    pub scanned_count: u64,
    pub total_groups: u64,
    pub total_wasted_bytes: u64,
    pub groups: Vec<DuplicateGroup>,
    pub errors: Vec<DuplicateScanError>,
}

#[derive(Debug, Clone)]
pub struct DuplicateScanError {
    pub path: String,
    pub error: String,
    pub message: String,
}

#[derive(Debug, Clone)]
pub struct DuplicateDeleteRequest {
    pub task_id: String,
    pub paths_to_delete: Vec<String>,
}

#[derive(Debug, Clone)]
pub struct DuplicateGroup {
    pub group_id: String,
    pub hash: String,
    pub file_size: u64,
    pub files: Vec<DuplicateFile>,
}

#[derive(Debug, Clone)]
pub struct DuplicateFile {
    pub path: String,
    pub created_at: String,
    pub modified_at: String,
    pub keep: bool,
}

// ------------------------------------------------------ media classification

#[derive(Debug, Clone)]
pub struct KeywordAlias {
    pub alias: String,
    pub canonical: String,
    pub confirmations: u64,
    pub updated_at: String,
}

#[derive(Debug, Clone)]
pub struct MediaKeywordGroup {
    pub id: String,
    pub name: String,
    pub classification_dimension: String,
    pub keyword_sources: Vec<String>,
    pub keywords: Vec<String>,
    pub created_at: String,
    pub updated_at: String,
}

#[derive(Debug, Clone)]
pub struct KeywordGroupSaveRequest {
    pub id: Option<String>,
    pub name: String,
    pub classification_dimension: String,
    pub keyword_sources: Vec<String>,
    pub keywords: Vec<String>,
}

#[derive(Debug, Clone)]
pub struct AliasLearningHint {
    pub source_path: String,
    pub alias: String,
    pub canonical: String,
}

#[derive(Debug, Clone)]
pub struct MediaClassifyResult {
    pub task_id: String,
    pub source_paths: Vec<String>,
    pub classification_dimension: String,
    pub scanned_count: u64,
    pub total_keywords: u64,
    pub no_match_count: u64,
    pub unmatched_files: Vec<MediaFile>,
    pub keywords: Vec<KeywordInfo>,
    pub groups: Vec<KeywordGroup>,
}

#[derive(Debug, Clone)]
pub struct KeywordInfo {
    pub keyword: String,
    pub source: String,
    pub merged_from: Vec<String>,
    pub file_count: u64,
}

#[derive(Debug, Clone)]
pub struct KeywordGroup {
    pub keyword: String,
    pub file_count: u64,
    pub total_size: u64,
    pub files: Vec<MediaFile>,
}

#[derive(Debug, Clone)]
pub struct MediaFile {
    pub path: String,
    pub file_name: String,
    pub size_bytes: u64,
    pub media_type: String,
    pub matched_keywords: Vec<String>,
    pub confidence: u8,
    pub evidence: Vec<String>,
    pub requires_confirmation: bool,
    pub modified_at: String,
    pub checked: bool,
}

/// The user's choices on a classification: keyword per path, and the selected paths.
#[derive(Debug, Clone)]
pub struct ClassifyExecuteRequest {
    pub task_id: String,
    pub keyword_assignments: Vec<(String, String)>,
    pub selected_paths: Vec<String>,
}

#[derive(Debug, Clone)]
pub struct ClassifyPreviewItem {
    pub source_path: String,
    pub target_path: String,
    pub action_desc: String,
    pub size_bytes: u64,
}

#[derive(Debug, Clone)]
pub struct ClassifyPreviewResult {
    pub task_id: String,
    pub items: Vec<ClassifyPreviewItem>,
    pub total: u64,
    pub learning_hints: Vec<AliasLearningHint>,
}

// -------------------------------------------------------- media tag cleanup

#[derive(Debug, Clone)]
pub struct MediaTagCleanupResult {
    pub task_id: String,
    pub source_paths: Vec<String>,
    pub author_folder_mode: String,
    pub cleanup_mode: String,
    pub verify_content_hash: bool,
    pub scanned_count: u64,
    pub ready_count: u64,
    pub files: Vec<MediaTagCleanupFile>,
}

#[derive(Debug, Clone)]
pub struct MediaTagCleanupFile {
    pub path: String,
    pub file_name: String,
    pub size_bytes: u64,
    pub sha256: String,
    pub media_type: String,
    pub current_artist: Option<String>,
    pub target_artist: Option<String>,
    pub author_source: String,
    pub supported: bool,
    pub skip_reason: Option<String>,
    pub checked: bool,
}

/// The selection for a tag cleanup run; `author_assignments` maps a path to an author.
#[derive(Debug, Clone)]
pub struct MediaTagCleanupExecuteRequest {
    pub task_id: String,
    pub selected_paths: Vec<String>,
    pub author_assignments: Vec<(String, String)>,
}

// ----------------------------------------------------------- knowledge base

#[derive(Debug, Clone)]
pub struct MediaClassifyKnowledge {
    pub aliases: Vec<KeywordAlias>,
    pub creator_exclusions: Vec<String>,
    pub keyword_groups: Vec<MediaKeywordGroup>,
}

} // verus!
