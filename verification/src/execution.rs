//! Carrying out a previewed plan: which items run, what each planned operation
//! does given the state of its target, how an operation chain is recorded, and
//! what the run reports.
use vstd::prelude::*;
use crate::models::{AliasLearningHint, ExecuteTaskRequest, PreviewItem, PreviewResult, ConflictStrategy, Operation, OperationStatus, PlannedOperation, UndoStatus, ExecutionSummary};
use crate::ids::new_uuid;
use crate::media_plan::{numbered_candidate, numbered_path};
use crate::paths::{name_parts, parent_chars, parent_of, stem_or_empty, ext_or_empty, file_name_of, file_name_chars, join_path_on, join_chars_on};
use crate::text::{contains_str, sviews, concat_str, decimal, decimal_chars, owned, str_eq, string_of, chars_of, concat_chars};

verus! {

// ---------------------------------------------------------- confirmation

/// A planned delete that the user has to confirm.
pub open spec fn needs_confirmation(op: PlannedOperation) -> bool {
    op.action_type@ == "delete"@ && op.requires_confirmation
}

/// Whether any operation is a delete that needs the user's confirmation.
pub fn requires_delete_confirmation(operations: &[PlannedOperation]) -> (r: bool)
    ensures
        r == exists|i: int| 0 <= i < operations@.len() && needs_confirmation(#[trigger] operations@[i]),
{
    let mut i: usize = 0;
    while i < operations.len()
        invariant
            i <= operations.len(),
            forall|k: int| 0 <= k < i ==> !needs_confirmation(#[trigger] operations@[k]),
        decreases operations.len() - i,
    {
        if str_eq(operations[i].action_type.as_str(), "delete") && operations[i].requires_confirmation {
            assert(needs_confirmation(operations@[i as int]));
            return true;
        }
        i = i + 1;
    }
    false
}

// ------------------------------------------------------- one planned step

/// What to do for a planned operation, once it is known whether its target exists.
#[derive(Debug, Clone, Copy, PartialEq, Eq, Structural)]
pub enum StepDecision {
    /// Delete the source.
    Delete,
    /// Skip: the target meant to be overwritten has gone since the preview.
    TargetGone,
    /// Skip: the target exists and the strategy is to skip.
    TargetExists,
    /// Replace the existing target, keeping a backup until the operation succeeds.
    Overwrite,
    /// Run the operation to the first free numbered variant of the target.
    Renumber,
    /// Run the operation to the target as planned.
    Run,
}

/// The conflict strategy of a plan; skipping when it names none.
pub open spec fn strategy_of(op: PlannedOperation) -> ConflictStrategy {
    match op.conflict_strategy {
        Some(s) => s,
        None => ConflictStrategy::Skip,
    }
}

pub open spec fn step_decision(op: PlannedOperation, target_exists: bool) -> StepDecision {
    if op.action_type@ == "delete"@ {
        StepDecision::Delete
    } else if strategy_of(op) == ConflictStrategy::Overwrite && !target_exists && op.expected_target_exists {
        StepDecision::TargetGone
    } else if target_exists {
        match strategy_of(op) {
            ConflictStrategy::Skip => StepDecision::TargetExists,
            ConflictStrategy::Overwrite => StepDecision::Overwrite,
            ConflictStrategy::AutoRename => StepDecision::Renumber,
        }
    } else {
        StepDecision::Run
    }
}

/// Decides a planned operation, given whether its target exists now.
pub fn decide_step(planned: &PlannedOperation, target_exists: bool) -> (r: StepDecision)
    ensures
        r == step_decision(*planned, target_exists),
{
    if str_eq(planned.action_type.as_str(), "delete") {
        return StepDecision::Delete;
    }
    let strategy = match planned.conflict_strategy {
        Some(s) => s,
        None => ConflictStrategy::Skip,
    };
    if strategy == ConflictStrategy::Overwrite && !target_exists && planned.expected_target_exists {
        return StepDecision::TargetGone;
    }
    if target_exists {
        match strategy {
            ConflictStrategy::Skip => StepDecision::TargetExists,
            ConflictStrategy::Overwrite => StepDecision::Overwrite,
            ConflictStrategy::AutoRename => StepDecision::Renumber,
        }
    } else {
        StepDecision::Run
    }
}

/// The file operations a plan may name.
#[derive(Debug, Clone, Copy, PartialEq, Eq, Structural)]
pub enum FileAction {
    Rename,
    Move,
    Copy,
}

pub open spec fn file_action_of(action: Seq<char>) -> Option<FileAction> {
    if action == "rename"@ {
        Some(FileAction::Rename)
    } else if action == "move"@ {
        Some(FileAction::Move)
    } else if action == "copy"@ {
        Some(FileAction::Copy)
    } else {
        None
    }
}

/// The file operation an action name stands for; unknown names are refused.
pub fn file_action(action_type: &str) -> (r: Result<FileAction, String>)
    ensures
        match file_action_of(action_type@) {
            Some(a) => r == Ok::<FileAction, String>(a),
            None => r matches Err(e) && e@ == "未知操作类型"@,
        },
{
    if str_eq(action_type, "rename") {
        Ok(FileAction::Rename)
    } else if str_eq(action_type, "move") {
        Ok(FileAction::Move)
    } else if str_eq(action_type, "copy") {
        Ok(FileAction::Copy)
    } else {
        Err(owned("未知操作类型"))
    }
}

/// What a planned step may do to an existing target: only a delete plan
/// deletes; a target that exists now is replaced only under the overwrite
/// strategy, renumbered around only under the auto-rename strategy, and never
/// run into as planned; a target that is missing is run to as planned unless an
/// overwrite expected it, which is then skipped; the skip for an existing target
/// comes only with the skip strategy. The three file operations are told apart
/// by name, one name each.
pub proof fn lemma_step_decisions(op: PlannedOperation, target_exists: bool, a: Seq<char>, b: Seq<char>)
    ensures
        (step_decision(op, target_exists) == StepDecision::Delete) <==> op.action_type@ == "delete"@,
        step_decision(op, target_exists) == StepDecision::Overwrite
            ==> target_exists && strategy_of(op) == ConflictStrategy::Overwrite,
        step_decision(op, target_exists) == StepDecision::Renumber
            ==> target_exists && strategy_of(op) == ConflictStrategy::AutoRename,
        step_decision(op, target_exists) == StepDecision::TargetExists
            ==> target_exists && strategy_of(op) == ConflictStrategy::Skip,
        step_decision(op, target_exists) == StepDecision::Run ==> !target_exists,
        step_decision(op, target_exists) == StepDecision::TargetGone
            ==> !target_exists && op.expected_target_exists && strategy_of(op) == ConflictStrategy::Overwrite,
        op.action_type@ != "delete"@ && !target_exists
            && !(strategy_of(op) == ConflictStrategy::Overwrite && op.expected_target_exists)
            ==> step_decision(op, target_exists) == StepDecision::Run,
        op.action_type@ != "delete"@ && !target_exists && strategy_of(op) == ConflictStrategy::Overwrite && op.expected_target_exists
            ==> step_decision(op, target_exists) == StepDecision::TargetGone,
        op.action_type@ != "delete"@ && target_exists ==> match strategy_of(op) {
            ConflictStrategy::Skip => step_decision(op, target_exists) == StepDecision::TargetExists,
            ConflictStrategy::Overwrite => step_decision(op, target_exists) == StepDecision::Overwrite,
            ConflictStrategy::AutoRename => step_decision(op, target_exists) == StepDecision::Renumber,
        },
        file_action_of(a) is Some <==> (a == "rename"@ || a == "move"@ || a == "copy"@),
        file_action_of(a) is Some && file_action_of(a) == file_action_of(b) ==> a == b,
{
}

/// The result of one planned operation.
#[derive(Debug, Clone)]
pub struct ExecutionOutcome {
    pub status: OperationStatus,
    pub target_path: String,
    pub error_message: Option<String>,
    pub reversible: bool,
}

/// The outcome of a step that was skipped before touching any file.
pub fn skipped_outcome(decision: StepDecision, target: &str) -> (r: ExecutionOutcome)
    requires
        decision == StepDecision::TargetGone || decision == StepDecision::TargetExists,
    ensures
        r.status == OperationStatus::Skipped,
        r.target_path@ == target@,
        !r.reversible,
        r.error_message matches Some(m) && m@ == (if decision == StepDecision::TargetGone {
            "目标文件在预览后已不存在，已跳过覆盖"@
        } else {
            "目标路径已存在，按冲突策略跳过"@
        }),
{
    let m = if decision == StepDecision::TargetGone {
        owned("目标文件在预览后已不存在，已跳过覆盖")
    } else {
        owned("目标路径已存在，按冲突策略跳过")
    };
    ExecutionOutcome { status: OperationStatus::Skipped, target_path: owned(target), error_message: Some(m), reversible: false }
}

/// The outcome of a delete, a rename, a move or a copy that ran: a success is
/// reversible unless it was a delete.
pub fn run_outcome(result: Result<(), String>, target: &str, deleted: bool) -> (r: ExecutionOutcome)
    ensures
        r.target_path@ == (if deleted { ""@ } else { target@ }),
        match result {
            Ok(()) => r.status == OperationStatus::Success && r.error_message is None && r.reversible == !deleted,
            Err(e) => r.status == OperationStatus::Failed && r.error_message == Some(e) && !r.reversible,
        },
{
    let t = if deleted { owned("") } else { owned(target) };
    match result {
        Ok(()) => ExecutionOutcome { status: OperationStatus::Success, target_path: t, error_message: None, reversible: !deleted },
        Err(e) => ExecutionOutcome { status: OperationStatus::Failed, target_path: t, error_message: Some(e), reversible: false },
    }
}

// ----------------------------------------------------------- snapshots

/// The refusal when a file's size is not what was recorded.
pub open spec fn size_changed_message(head: Seq<char>, stage: Seq<char>, expected: u64, actual: u64, tail: Seq<char>) -> Seq<char> {
    head + stage + "时 "@ + decimal(expected as nat) + " 字节，当前 "@ + decimal(actual as nat) + " 字节）"@ + tail
}

fn join_all(parts: &Vec<String>) -> (r: String)
    ensures
        r@ == parts@.fold_left(Seq::<char>::empty(), |acc: Seq<char>, p: String| acc + p@),
{
    let mut r: Vec<char> = Vec::new();
    let mut i: usize = 0;
    assert(parts@.take(0).fold_left(Seq::<char>::empty(), |acc: Seq<char>, p: String| acc + p@) =~= Seq::<char>::empty());
    while i < parts.len()
        invariant
            i <= parts.len(),
            r@ == parts@.take(i as int).fold_left(Seq::<char>::empty(), |acc: Seq<char>, p: String| acc + p@),
        decreases parts.len() - i,
    {
        assert(parts@.take(i + 1).drop_last() =~= parts@.take(i as int));
        let c = chars_of(parts[i].as_str());
        r = concat_chars(&r, &c);
        i = i + 1;
    }
    assert(parts@.take(parts.len() as int) =~= parts@);
    string_of(&r)
}

/// Checks a file's size against the one recorded: the read error, or the change.
pub fn size_verdict(expected: u64, actual: Result<u64, String>, read_failed: &str, head: &str, stage: &str, tail: &str) -> (r: Result<(), String>)
    ensures
        match actual {
            Err(e) => r matches Err(m) && m@ == read_failed@ + e@,
            Ok(a) => if a == expected {
                r is Ok
            } else {
                r matches Err(m) && m@ == size_changed_message(head@, stage@, expected, a, tail@)
            },
        },
{
    match actual {
        Err(e) => Err(concat_str(read_failed, e.as_str())),
        Ok(a) => {
            if a == expected {
                Ok(())
            } else {
                let d1 = decimal_chars(expected);
                let d2 = decimal_chars(a);
                let s1 = string_of(&d1);
                let s2 = string_of(&d2);
                let mut parts: Vec<String> = Vec::new();
                parts.push(owned(head));
                parts.push(owned(stage));
                parts.push(owned("时 "));
                parts.push(s1);
                parts.push(owned(" 字节，当前 "));
                parts.push(s2);
                parts.push(owned(" 字节）"));
                parts.push(owned(tail));
                let m = join_all(&parts);
                proof {
                    let f = |acc: Seq<char>, p: String| acc + p@;
                    let ps = parts@;
                    assert(ps.take(0).fold_left(Seq::<char>::empty(), f) == Seq::<char>::empty());
                    assert forall|k: int| 0 <= k < ps.len() implies #[trigger] ps.take(k + 1).fold_left(Seq::<char>::empty(), f)
                        == ps.take(k).fold_left(Seq::<char>::empty(), f) + ps[k]@ by {
                        assert(ps.take(k + 1).drop_last() =~= ps.take(k));
                    }
                    assert(ps.take(8) =~= ps);
                    assert(m@ =~= size_changed_message(head@, stage@, expected, a, tail@));
                }
                Err(m)
            }
        },
    }
}

/// Checks a file's hash against the one recorded: the hashing error, or the change.
pub fn hash_verdict(expected: &str, actual: Result<String, String>, hash_failed: &str, changed: &str) -> (r: Result<(), String>)
    ensures
        match actual {
            Err(e) => r matches Err(m) && m@ == hash_failed@ + e@,
            Ok(a) => if a@ == expected@ {
                r is Ok
            } else {
                r matches Err(m) && m@ == changed@
            },
        },
{
    match actual {
        Err(e) => Err(concat_str(hash_failed, e.as_str())),
        Ok(a) => {
            if str_eq(a.as_str(), expected) {
                Ok(())
            } else {
                Err(owned(changed))
            }
        },
    }
}

/// A preview's record of a source file can only be checked when it holds a hash.
pub fn source_snapshot_precheck(sha256: &str) -> (r: Result<(), String>)
    ensures
        sha256@.len() == 0 ==> (r matches Err(m) && m@ == "预览未能生成源文件哈希"@),
        sha256@.len() > 0 ==> r is Ok,
{
    let v = chars_of(sha256);
    if v.len() == 0 {
        Err(owned("预览未能生成源文件哈希"))
    } else {
        Ok(())
    }
}

// ------------------------------------------------------------- overwrite

/// The recorded hash an overwrite is checked against, or why it may not go ahead.
pub fn overwrite_precheck(planned: &PlannedOperation) -> (r: Result<String, String>)
    ensures
        !planned.expected_target_exists ==> (r matches Err(m) && m@ == "目标文件在预览后新增，已跳过覆盖以保护该文件"@),
        planned.expected_target_exists ==> match planned.expected_target_hash {
            Some(h) => r matches Ok(x) && x@ == h@,
            None => r matches Err(m) && m@ == "预览时未能校验目标文件，已跳过覆盖"@,
        },
{
    if !planned.expected_target_exists {
        return Err(owned("目标文件在预览后新增，已跳过覆盖以保护该文件"));
    }
    match &planned.expected_target_hash {
        Some(h) => Ok(owned(h.as_str())),
        None => Err(owned("预览时未能校验目标文件，已跳过覆盖")),
    }
}

/// What follows an overwrite's operation, the old target having been moved to a
/// backup: after a success the backup is removed; after a failure the old
/// target is put back, first removing what the failed operation left at the
/// target.
#[derive(Debug, Clone, Copy, PartialEq, Eq, Structural)]
pub enum OverwriteFollowUp {
    RemoveBackup,
    RestoreBackup,
    ClearTargetThenRestore,
}

/// The follow-up of an overwrite, from whether its operation succeeded and
/// whether something now stands at the target.
pub fn overwrite_follow_up(succeeded: bool, target_exists: bool) -> (r: OverwriteFollowUp)
    ensures
        succeeded ==> r == OverwriteFollowUp::RemoveBackup,
        !succeeded && target_exists ==> r == OverwriteFollowUp::ClearTargetThenRestore,
        !succeeded && !target_exists ==> r == OverwriteFollowUp::RestoreBackup,
{
    if succeeded {
        OverwriteFollowUp::RemoveBackup
    } else if target_exists {
        OverwriteFollowUp::ClearTargetThenRestore
    } else {
        OverwriteFollowUp::RestoreBackup
    }
}

/// The outcome of an overwrite whose operation ran: with the old target moved
/// aside, a success notes a backup that could not be removed; a failure says
/// whether the old target was put back.
pub fn overwrite_outcome(result: Result<(), String>, target: &str, cleanup: Result<(), String>, backup: &str, rollback: Result<(), String>) -> (r: ExecutionOutcome)
    ensures
        r.target_path@ == target@,
        !r.reversible,
        match result {
            Ok(()) => r.status == OperationStatus::Success && match cleanup {
                Ok(()) => r.error_message is None,
                Err(c) => r.error_message matches Some(m) && m@ == "覆盖已完成，但未能清理临时备份 "@ + backup@ + ": "@ + c@,
            },
            Err(e) => r.status == OperationStatus::Failed && match rollback {
                Ok(()) => r.error_message matches Some(m) && m@ == e@ + "；原目标文件已恢复"@,
                Err(b) => r.error_message matches Some(m) && m@ == e@ + "；恢复原目标文件失败: "@ + b@,
            },
        },
{
    match result {
        Ok(()) => {
            let msg = match cleanup {
                Ok(()) => None,
                Err(c) => {
                    let a = concat_str("覆盖已完成，但未能清理临时备份 ", backup);
                    let b = concat_str(a.as_str(), ": ");
                    Some(concat_str(b.as_str(), c.as_str()))
                },
            };
            ExecutionOutcome { status: OperationStatus::Success, target_path: owned(target), error_message: msg, reversible: false }
        },
        Err(e) => {
            let msg = match rollback {
                Ok(()) => concat_str(e.as_str(), "；原目标文件已恢复"),
                Err(b) => {
                    let a = concat_str(e.as_str(), "；恢复原目标文件失败: ");
                    concat_str(a.as_str(), b.as_str())
                },
            };
            ExecutionOutcome { status: OperationStatus::Failed, target_path: owned(target), error_message: Some(msg), reversible: false }
        },
    }
}

/// The outcome when an overwrite stops before running: a refused check skips,
/// a backup that could not be made fails.
pub fn overwrite_stopped(check: Result<(), String>, backup: Result<(), String>, target: &str) -> (r: ExecutionOutcome)
    requires
        check is Err || backup is Err,
    ensures
        r.target_path@ == target@,
        !r.reversible,
        match check {
            Err(e) => r.status == OperationStatus::Skipped && r.error_message == Some(e),
            Ok(()) => match backup {
                Err(e) => r.status == OperationStatus::Failed && r.error_message == Some(e),
                Ok(()) => false,
            },
        },
{
    match check {
        Err(e) => ExecutionOutcome { status: OperationStatus::Skipped, target_path: owned(target), error_message: Some(e), reversible: false },
        Ok(()) => match backup {
            Err(e) => ExecutionOutcome { status: OperationStatus::Failed, target_path: owned(target), error_message: Some(e), reversible: false },
            Ok(()) => ExecutionOutcome { status: OperationStatus::Failed, target_path: owned(target), error_message: None, reversible: false },
        },
    }
}

// ------------------------------------------------------- renumbering

/// `on_disk` reported the numbered variant `k` of `initial` taken.
pub open spec fn reported_taken<F: Fn(&str) -> bool>(on_disk: F, initial: Seq<char>, k: nat, windows: bool) -> bool {
    exists|p: &str| #[trigger] call_ensures(on_disk, (p,), true) && p@ == numbered_path(initial, k, windows)
}

/// The first numbered variant of `initial` that `on_disk` does not report taken,
/// from `stem (2).ext` to `stem (9999).ext`; `initial` when all are taken.
pub fn next_available_target<F: Fn(&str) -> bool>(initial: &str, on_disk: &F, windows: bool) -> (r: String)
    requires
        forall|p: &str| #[trigger] on_disk.requires((p,)),
    ensures
        r@ == initial@ || exists|k: nat| 2 <= k <= 9999 && r@ == numbered_path(initial@, k, windows),
        r@ != initial@ ==> exists|p: &str| #[trigger] call_ensures(on_disk, (p,), false) && p@ == r@,
        (exists|k: nat| 2 <= k <= 9999 && r@ == numbered_path(initial@, k, windows)
            && (forall|j: nat| 2 <= j < k ==> #[trigger] reported_taken(*on_disk, initial@, j, windows)))
        || (r@ == initial@ && forall|j: nat| 2 <= j <= 9999 ==> #[trigger] reported_taken(*on_disk, initial@, j, windows)),
{
    let iv = chars_of(initial);
    let (_name, stem, ext) = name_parts(&iv);
    let parent = match parent_chars(&iv) {
        Some(p) => p,
        None => {
            let mut d: Vec<char> = Vec::new();
            d.push('.');
            assert(d@ =~= seq!['.']);
            d
        },
    };
    let mut counter: u64 = 2;
    while counter <= 9999
        invariant
            2 <= counter <= 10000,
            forall|p: &str| #[trigger] on_disk.requires((p,)),
            parent@ == (match parent_of(initial@) { Some(p) => p, None => seq!['.'] }),
            stem@ == stem_or_empty(initial@),
            ext@ == ext_or_empty(initial@),
            forall|j: nat| 2 <= j < counter ==> #[trigger] reported_taken(*on_disk, initial@, j, windows),
        decreases 10000 - counter,
    {
        let candidate = numbered_candidate(&parent, &stem, &ext, counter, windows);
        assert(candidate@ == numbered_path(initial@, counter as nat, windows));
        let cs = candidate.as_str();
        let taken = on_disk(cs);
        if !taken {
            assert(call_ensures(on_disk, (cs,), false) && cs@ == candidate@);
            return candidate;
        }
        assert(call_ensures(*on_disk, (cs,), true) && cs@ == numbered_path(initial@, counter as nat, windows));
        assert(reported_taken(*on_disk, initial@, counter as nat, windows));
        counter = counter + 1;
    }
    owned(initial)
}

// --------------------------------------------------------- run records

/// The record of a planned operation.
pub open spec fn record_of(op: Operation, planned: PlannedOperation, status: OperationStatus, target: Seq<char>) -> bool {
    &&& op.action@ == planned.action_type@
    &&& op.source_path@ == planned.source_path@
    &&& op.target_path@ == target
    &&& op.status == status
    &&& op.backup_path is None
    &&& op.backup_hash is None
}

/// The record of an operation skipped because its item's preview is out of date.
pub fn stale_operation(planned: &PlannedOperation, error: &str) -> (r: Operation)
    ensures
        record_of(r, *planned, OperationStatus::Skipped, planned.target_path@),
        r.error_message matches Some(m) && m@ == "预览已过期，已跳过: "@ + error@,
        !r.reversible,
        r.target_hash is None,
{
    Operation {
        op_id: new_uuid(),
        action: owned(planned.action_type.as_str()),
        source_path: owned(planned.source_path.as_str()),
        target_path: owned(planned.target_path.as_str()),
        status: OperationStatus::Skipped,
        error_message: Some(concat_str("预览已过期，已跳过: ", error)),
        reversible: false,
        target_hash: None,
        backup_path: None,
        backup_hash: None,
    }
}

/// A record of a step skipped because an earlier one of its chain did not succeed.
pub open spec fn blocked_record(r: Operation, planned: PlannedOperation) -> bool {
    &&& record_of(r, planned, OperationStatus::Skipped, planned.target_path@)
    &&& r.error_message matches Some(m) && m@ == "前置操作未成功，已跳过"@
    &&& !r.reversible
    &&& r.target_hash is None
}

/// A record of a step that ran with `outcome`, its target hashed as `target_hash`.
pub open spec fn ran_record(r: Operation, planned: PlannedOperation, outcome: ExecutionOutcome, target_hash: Option<String>) -> bool {
    &&& record_of(r, planned, outcome.status, outcome.target_path@)
    &&& r.error_message == outcome.error_message
    &&& r.reversible == (outcome.reversible && target_hash is Some)
    &&& r.target_hash == target_hash
}

/// The record of an operation skipped because an earlier one of its chain did not succeed.
pub fn blocked_operation(planned: &PlannedOperation) -> (r: Operation)
    ensures
        blocked_record(r, *planned),
{
    Operation {
        op_id: new_uuid(),
        action: owned(planned.action_type.as_str()),
        source_path: owned(planned.source_path.as_str()),
        target_path: owned(planned.target_path.as_str()),
        status: OperationStatus::Skipped,
        error_message: Some(owned("前置操作未成功，已跳过")),
        reversible: false,
        target_hash: None,
        backup_path: None,
        backup_hash: None,
    }
}

/// Whether the target of an outcome is hashed for a later undo.
pub fn wants_target_hash(outcome: &ExecutionOutcome) -> (r: bool)
    ensures
        r == (outcome.status == OperationStatus::Success && outcome.reversible),
{
    outcome.status == OperationStatus::Success && outcome.reversible
}

/// One step of an item's chain: a blocked chain records the step as blocked and
/// stays blocked; otherwise the step ran, giving `ran`, and is recorded, and
/// the chain is blocked from here on unless it succeeded. The result is whether
/// the steps that follow are blocked.
pub fn chain_step(
    operations: &mut Vec<Operation>,
    blocked: bool,
    planned: &PlannedOperation,
    ran: Option<(ExecutionOutcome, Option<String>)>,
) -> (r: bool)
    requires
        !blocked ==> ran is Some,
    ensures
        final(operations)@.len() == old(operations)@.len() + 1,
        forall|i: int| 0 <= i < old(operations)@.len() ==> #[trigger] final(operations)@[i] == old(operations)@[i],
        blocked ==> r && blocked_record(final(operations)@.last(), *planned),
        !blocked ==> (ran matches Some((o, h)) && ran_record(final(operations)@.last(), *planned, o, h)
            && r == (o.status != OperationStatus::Success)),
{
    if blocked {
        operations.push(blocked_operation(planned));
        return true;
    }
    match ran {
        Some((outcome, hash)) => {
            let (op, stops) = outcome_operation(planned, outcome, hash);
            operations.push(op);
            stops
        },
        None => true,
    }
}

/// Whether some record of a chain did not succeed.
pub open spec fn chain_stopped(records: Seq<Operation>) -> bool {
    exists|j: int| 0 <= j < records.len() && (#[trigger] records[j]).status != OperationStatus::Success
}

/// The records of one item's chain for its planned steps, in order: a step is
/// recorded as it ran while every earlier record of the chain succeeded, and
/// as blocked once one did not.
pub open spec fn chain_trace(records: Seq<Operation>, planned: Seq<PlannedOperation>) -> bool {
    &&& records.len() == planned.len()
    &&& forall|k: int| 0 <= k < records.len() ==> {
        if chain_stopped(#[trigger] records.take(k)) {
            blocked_record(records[k], planned[k])
        } else {
            exists|o: ExecutionOutcome, h: Option<String>| ran_record(records[k], planned[k], o, h)
        }
    }
}

/// A call of `chain_step` keeps a chain's records in the shape `chain_trace`
/// gives: when the records so far follow the plan and the call is told whether
/// one of them did not succeed, the records with the new one follow the plan
/// with the new step, and the call returns whether one of them did not succeed.
/// (`record` is the record the call appends, as its `ensures` describes it.)
pub proof fn lemma_chain_step_trace(
    records: Seq<Operation>,
    planned: Seq<PlannedOperation>,
    p: PlannedOperation,
    record: Operation,
    blocked: bool,
    ran: Option<(ExecutionOutcome, Option<String>)>,
    r: bool,
)
    requires
        chain_trace(records, planned),
        blocked == chain_stopped(records),
        blocked ==> r && blocked_record(record, p),
        !blocked ==> (ran matches Some((o, h)) && ran_record(record, p, o, h)
            && r == (o.status != OperationStatus::Success)),
    ensures
        chain_trace(records.push(record), planned.push(p)),
        r == chain_stopped(records.push(record)),
{
    let rs = records.push(record);
    let ps = planned.push(p);
    let n = records.len() as int;
    assert forall|k: int| 0 <= k < rs.len() implies {
        if chain_stopped(#[trigger] rs.take(k)) {
            blocked_record(rs[k], ps[k])
        } else {
            exists|o: ExecutionOutcome, h: Option<String>| ran_record(rs[k], ps[k], o, h)
        }
    } by {
        if k < n {
            assert(rs.take(k) =~= records.take(k));
            assert(rs[k] == records[k]);
            assert(ps[k] == planned[k]);
        } else {
            assert(rs.take(k) =~= records);
            if !blocked {
                let (o, h) = ran.unwrap();
                assert(ran_record(rs[k], ps[k], o, h));
            }
        }
    }
    if blocked {
        let j = choose|j: int| 0 <= j < records.len() && (#[trigger] records[j]).status != OperationStatus::Success;
        assert(rs[j] == records[j]);
    } else {
        if r {
            assert(rs[n].status != OperationStatus::Success);
        } else {
            assert forall|j: int| 0 <= j < rs.len() implies (#[trigger] rs[j]).status == OperationStatus::Success by {
                if j < n {
                    assert(rs[j] == records[j]);
                }
            }
        }
    }
}

/// Within a chain, every record after one that did not succeed is a skipped,
/// irreversible record of its planned step.
pub proof fn lemma_skipped_after_stop(records: Seq<Operation>, planned: Seq<PlannedOperation>, j: int, k: int)
    requires
        chain_trace(records, planned),
        0 <= j < k < records.len(),
        records[j].status != OperationStatus::Success,
    ensures
        records[k].status == OperationStatus::Skipped,
        !records[k].reversible,
        blocked_record(records[k], planned[k]),
{
    assert(records.take(k)[j] == records[j]);
    assert(chain_stopped(records.take(k)));
}

/// The record of an operation that ran; it can be undone only when its target
/// was hashed. Anything but a success stops the rest of its chain.
pub fn outcome_operation(planned: &PlannedOperation, outcome: ExecutionOutcome, target_hash: Option<String>) -> (r: (Operation, bool))
    ensures
        record_of(r.0, *planned, outcome.status, outcome.target_path@),
        r.0.error_message == outcome.error_message,
        r.0.reversible == (outcome.reversible && target_hash is Some),
        r.0.target_hash == target_hash,
        r.1 == (outcome.status != OperationStatus::Success),
{
    let reversible = outcome.reversible && target_hash.is_some();
    let blocks = outcome.status != OperationStatus::Success;
    let op = Operation {
        op_id: new_uuid(),
        action: owned(planned.action_type.as_str()),
        source_path: owned(planned.source_path.as_str()),
        target_path: outcome.target_path,
        status: outcome.status,
        error_message: outcome.error_message,
        reversible,
        target_hash,
        backup_path: None,
        backup_hash: None,
    };
    (op, blocks)
}

// ------------------------------------------------------------- summaries

/// How many records have the status.
pub open spec fn count_status(ops: Seq<Operation>, s: OperationStatus) -> nat
    decreases ops.len(),
{
    if ops.len() == 0 {
        0
    } else {
        count_status(ops.drop_last(), s) + if ops.last().status == s { 1nat } else { 0nat }
    }
}

proof fn lemma_count_status_bound(ops: Seq<Operation>, s: OperationStatus)
    ensures
        count_status(ops, s) <= ops.len(),
    decreases ops.len(),
{
    if ops.len() > 0 {
        lemma_count_status_bound(ops.drop_last(), s);
    }
}

/// Every record of a run is counted once: the successes, failures and skips of
/// a run add up to its number of records.
pub proof fn lemma_counts_add_up(ops: Seq<Operation>)
    ensures
        count_status(ops, OperationStatus::Success) + count_status(ops, OperationStatus::Failed)
            + count_status(ops, OperationStatus::Skipped) == ops.len(),
    decreases ops.len(),
{
    if ops.len() > 0 {
        lemma_counts_add_up(ops.drop_last());
    }
}

/// Counting records by status adds up over runs put together, and a single
/// record counts once, under its own status only.
pub proof fn lemma_count_status_additive(a: Seq<Operation>, b: Seq<Operation>, s: OperationStatus)
    ensures
        count_status(a + b, s) == count_status(a, s) + count_status(b, s),
        b.len() == 1 ==> count_status(b, s) == (if b[0].status == s { 1nat } else { 0nat }),
    decreases b.len(),
{
    if b.len() > 0 {
        lemma_count_status_additive(a, b.drop_last(), s);
        assert((a + b).drop_last() =~= a + b.drop_last());
        assert((a + b).last() == b.last());
    } else {
        assert(a + b =~= a);
    }
    if b.len() == 1 {
        assert(b.drop_last().len() == 0);
        assert(b.last() == b[0]);
    }
}

/// The counts of a run.
pub fn summarize(ops: &Vec<Operation>) -> (r: ExecutionSummary)
    ensures
        r.total == ops@.len(),
        r.succeeded == count_status(ops@, OperationStatus::Success),
        r.failed == count_status(ops@, OperationStatus::Failed),
        r.skipped == count_status(ops@, OperationStatus::Skipped),
        r.succeeded + r.failed + r.skipped == r.total,
{
    proof {
        lemma_counts_add_up(ops@);
    }
    let mut succeeded: u64 = 0;
    let mut failed: u64 = 0;
    let mut skipped: u64 = 0;
    let mut i: usize = 0;
    while i < ops.len()
        invariant
            i <= ops.len(),
            succeeded == count_status(ops@.take(i as int), OperationStatus::Success),
            failed == count_status(ops@.take(i as int), OperationStatus::Failed),
            skipped == count_status(ops@.take(i as int), OperationStatus::Skipped),
        decreases ops.len() - i,
    {
        assert(ops@.take(i + 1).drop_last() =~= ops@.take(i as int));
        proof {
            lemma_count_status_bound(ops@.take(i as int), OperationStatus::Success);
            lemma_count_status_bound(ops@.take(i as int), OperationStatus::Failed);
            lemma_count_status_bound(ops@.take(i as int), OperationStatus::Skipped);
        }
        match ops[i].status {
            OperationStatus::Success => { succeeded = succeeded + 1; },
            OperationStatus::Failed => { failed = failed + 1; },
            OperationStatus::Skipped => { skipped = skipped + 1; },
        }
        i = i + 1;
    }
    assert(ops@.take(ops.len() as int) =~= ops@);
    ExecutionSummary { total: ops.len() as u64, succeeded, failed, skipped }
}

/// A run can be undone in part when some success cannot be reversed.
pub fn undo_status_after(ops: &Vec<Operation>) -> (r: UndoStatus)
    ensures
        (exists|i: int| 0 <= i < ops@.len() && (#[trigger] ops@[i]).status == OperationStatus::Success && !ops@[i].reversible)
            ==> r == UndoStatus::Partial,
        !(exists|i: int| 0 <= i < ops@.len() && (#[trigger] ops@[i]).status == OperationStatus::Success && !ops@[i].reversible)
            ==> r == UndoStatus::Available,
{
    let mut i: usize = 0;
    while i < ops.len()
        invariant
            i <= ops.len(),
            forall|k: int| 0 <= k < i ==> !((#[trigger] ops@[k]).status == OperationStatus::Success && !ops@[k].reversible),
        decreases ops.len() - i,
    {
        if ops[i].status == OperationStatus::Success && !ops[i].reversible {
            return UndoStatus::Partial;
        }
        i = i + 1;
    }
    UndoStatus::Available
}

// ----------------------------------------------------------- selection

/// The first selected item with a delete the user has not confirmed.
pub open spec fn first_unconfirmed(items: Seq<PreviewItem>, sel: Seq<int>, confirmed: Seq<Seq<char>>) -> Option<int>
    decreases sel.len(),
{
    if sel.len() == 0 {
        None
    } else {
        match first_unconfirmed(items, sel.drop_last(), confirmed) {
            Some(i) => Some(i),
            None => {
                let it = items[sel.last()];
                if (exists|k: int| 0 <= k < it.operations@.len() && needs_confirmation(#[trigger] it.operations@[k]))
                    && !confirmed.contains(it.id@) {
                    Some(sel.last())
                } else {
                    None
                }
            },
        }
    }
}

/// The indices of the checked items, in order.
pub open spec fn checked_indices(items: Seq<PreviewItem>, checked: Seq<Seq<char>>, n: int) -> Seq<int>
    decreases n,
{
    if n <= 0 {
        Seq::empty()
    } else {
        let prev = checked_indices(items, checked, n - 1);
        if checked.contains(items[n - 1].id@) { prev.push(n - 1) } else { prev }
    }
}

/// A preview item with a delete that the user has not confirmed.
pub open spec fn awaits_confirmation(it: PreviewItem, confirmed: Seq<Seq<char>>) -> bool {
    (exists|k: int| 0 <= k < it.operations@.len() && needs_confirmation(#[trigger] it.operations@[k]))
        && !confirmed.contains(it.id@)
}

proof fn lemma_checked_indices(items: Seq<PreviewItem>, checked: Seq<Seq<char>>, n: int)
    requires
        0 <= n <= items.len(),
    ensures
        forall|a: int, b: int| 0 <= a < b < checked_indices(items, checked, n).len() ==>
            #[trigger] checked_indices(items, checked, n)[a] < #[trigger] checked_indices(items, checked, n)[b],
        forall|j: int| 0 <= j < checked_indices(items, checked, n).len() ==> 0 <= #[trigger] checked_indices(items, checked, n)[j] < n
            && checked.contains(items[checked_indices(items, checked, n)[j]].id@),
        forall|i: int| 0 <= i < n && checked.contains(#[trigger] items[i].id@) ==>
            exists|j: int| 0 <= j < checked_indices(items, checked, n).len() && checked_indices(items, checked, n)[j] == i,
    decreases n,
{
    if n > 0 {
        lemma_checked_indices(items, checked, n - 1);
        let prev = checked_indices(items, checked, n - 1);
        let cur = checked_indices(items, checked, n);
        assert forall|i: int| 0 <= i < n && checked.contains(#[trigger] items[i].id@) implies
            exists|j: int| 0 <= j < cur.len() && cur[j] == i by {
            if i < n - 1 {
                let j = choose|j: int| 0 <= j < prev.len() && prev[j] == i;
                assert(cur[j] == prev[j]);
            } else {
                assert(cur[prev.len() as int] == i);
            }
        }
    }
}

proof fn lemma_first_unconfirmed(items: Seq<PreviewItem>, sel: Seq<int>, confirmed: Seq<Seq<char>>)
    ensures
        first_unconfirmed(items, sel, confirmed) matches Some(i) ==> exists|j: int| 0 <= j < sel.len() && sel[j] == i
            && awaits_confirmation(items[i], confirmed)
            && forall|j2: int| 0 <= j2 < j ==> !awaits_confirmation(#[trigger] items[sel[j2]], confirmed),
        first_unconfirmed(items, sel, confirmed) is None ==>
            forall|j: int| 0 <= j < sel.len() ==> !awaits_confirmation(#[trigger] items[sel[j]], confirmed),
    decreases sel.len(),
{
    if sel.len() > 0 {
        let s0 = sel.drop_last();
        lemma_first_unconfirmed(items, s0, confirmed);
        match first_unconfirmed(items, s0, confirmed) {
            Some(i) => {
                let j = choose|j: int| 0 <= j < s0.len() && s0[j] == i && awaits_confirmation(items[i], confirmed)
                    && forall|j2: int| 0 <= j2 < j ==> !awaits_confirmation(#[trigger] items[s0[j2]], confirmed);
                assert(sel[j] == i);
                assert forall|j2: int| 0 <= j2 < j implies !awaits_confirmation(#[trigger] items[sel[j2]], confirmed) by {
                    assert(sel[j2] == s0[j2]);
                }
            },
            None => {
                assert forall|j: int| 0 <= j < s0.len() implies !awaits_confirmation(#[trigger] items[sel[j]], confirmed) by {
                    assert(sel[j] == s0[j]);
                }
            },
        }
    }
}

/// A run of a preview is refused for an unconfirmed delete exactly when a checked
/// item has a delete the user did not confirm, and the refusal names the first
/// such item in preview order; otherwise the checked items run, in order.
pub proof fn lemma_run_refused_for_first_unconfirmed(preview: PreviewResult, request: ExecuteTaskRequest)
    ensures
        ({
            let items = preview.items@;
            let checked = sviews(request.checked_ids@);
            let confirmed = sviews(request.confirmed_delete_ids@);
            let sel = checked_indices(items, checked, items.len() as int);
            &&& first_unconfirmed(items, sel, confirmed) matches Some(i) ==> {
                &&& 0 <= i < items.len()
                &&& checked.contains(items[i].id@)
                &&& awaits_confirmation(items[i], confirmed)
                &&& forall|i2: int| 0 <= i2 < i && checked.contains(items[i2].id@) ==> !awaits_confirmation(#[trigger] items[i2], confirmed)
            }
            &&& first_unconfirmed(items, sel, confirmed) is None ==>
                forall|i2: int| 0 <= i2 < items.len() && checked.contains(items[i2].id@) ==> !awaits_confirmation(#[trigger] items[i2], confirmed)
        }),
{
    let items = preview.items@;
    let checked = sviews(request.checked_ids@);
    let confirmed = sviews(request.confirmed_delete_ids@);
    let n = items.len() as int;
    lemma_checked_indices(items, checked, n);
    lemma_first_unconfirmed(items, checked_indices(items, checked, n), confirmed);
    let sel = checked_indices(items, checked, n);
    match first_unconfirmed(items, sel, confirmed) {
        Some(i) => {
            let j = choose|j: int| 0 <= j < sel.len() && sel[j] == i && awaits_confirmation(items[i], confirmed)
                && forall|j2: int| 0 <= j2 < j ==> !awaits_confirmation(#[trigger] items[sel[j2]], confirmed);
            assert(0 <= sel[j] < n);
            assert forall|i2: int| 0 <= i2 < i && checked.contains(items[i2].id@) implies !awaits_confirmation(#[trigger] items[i2], confirmed) by {
                assert(checked.contains(items[i2].id@));
                let j2 = choose|j2: int| 0 <= j2 < sel.len() && sel[j2] == i2;
                if j2 >= j {
                    if j2 > j {
                        assert(sel[j] < sel[j2]);
                    }
                }
            }
        },
        None => {
            assert forall|i2: int| 0 <= i2 < n && checked.contains(items[i2].id@) implies !awaits_confirmation(#[trigger] items[i2], confirmed) by {
                assert(checked.contains(items[i2].id@));
                let j2 = choose|j2: int| 0 <= j2 < sel.len() && sel[j2] == i2;
            }
        },
    }
}

/// The items to run: those checked, in order, provided every delete among them
/// was confirmed and the request is for this preview.
pub fn select_items(preview: &PreviewResult, request: &ExecuteTaskRequest) -> (r: Result<Vec<usize>, String>)
    ensures
        preview.task_id@ != request.task_id@ ==> (r matches Err(m) && m@ == "任务 ID 不匹配，请重新分析预览"@),
        preview.task_id@ == request.task_id@ ==> ({
            let sel = checked_indices(preview.items@, sviews(request.checked_ids@), preview.items@.len() as int);
            match first_unconfirmed(preview.items@, sel, sviews(request.confirmed_delete_ids@)) {
                Some(i) => r matches Err(m) && m@ == "删除操作需要用户确认: "@ + preview.items@[i].source.path@,
                None => r matches Ok(v) && v@.len() == sel.len() && forall|k: int| 0 <= k < sel.len() ==> #[trigger] v@[k] as int == sel[k],
            }
        }),
{
    if !str_eq(preview.task_id.as_str(), request.task_id.as_str()) {
        return Err(owned("任务 ID 不匹配，请重新分析预览"));
    }
    let items = &preview.items;
    let ghost ck = sviews(request.checked_ids@);
    let mut sel: Vec<usize> = Vec::new();
    let mut i: usize = 0;
    while i < items.len()
        invariant
            i <= items.len(),
            items@ == preview.items@,
            ck == sviews(request.checked_ids@),
            sel@.len() == checked_indices(items@, ck, i as int).len(),
            forall|k: int| 0 <= k < sel@.len() ==> #[trigger] sel@[k] as int == checked_indices(items@, ck, i as int)[k],
            forall|k: int| 0 <= k < sel@.len() ==> #[trigger] sel@[k] < i,
        decreases items.len() - i,
    {
        if contains_str(&request.checked_ids, items[i].id.as_str()) {
            sel.push(i);
        }
        i = i + 1;
    }
    let ghost sv = checked_indices(items@, ck, items@.len() as int);
    let ghost cf = sviews(request.confirmed_delete_ids@);
    let mut j: usize = 0;
    assert(sv.take(0) =~= Seq::<int>::empty());
    while j < sel.len()
        invariant
            j <= sel.len(),
            items@ == preview.items@,
            sel@.len() == sv.len(),
            forall|k: int| 0 <= k < sel@.len() ==> #[trigger] sel@[k] as int == sv[k],
            forall|k: int| 0 <= k < sel@.len() ==> #[trigger] sel@[k] < items@.len(),
            cf == sviews(request.confirmed_delete_ids@),
            sv == checked_indices(preview.items@, sviews(request.checked_ids@), preview.items@.len() as int),
            preview.task_id@ == request.task_id@,
            first_unconfirmed(items@, sv.take(j as int), cf) is None,
        decreases sel.len() - j,
    {
        assert(sv.take(j + 1).drop_last() =~= sv.take(j as int));
        assert(sv.take(j + 1).last() == sel@[j as int] as int);
        let it = &items[sel[j]];
        if requires_delete_confirmation(it.operations.as_slice()) && !contains_str(&request.confirmed_delete_ids, it.id.as_str()) {
            proof { lemma_first_unconfirmed_prefix(items@, sv, j + 1, cf); }
            return Err(concat_str("删除操作需要用户确认: ", it.source.path.as_str()));
        }
        j = j + 1;
    }
    assert(sv.take(sel.len() as int) =~= sv);
    Ok(sel)
}

proof fn lemma_first_unconfirmed_prefix(items: Seq<PreviewItem>, sel: Seq<int>, n: int, cf: Seq<Seq<char>>)
    requires
        0 <= n <= sel.len(),
        first_unconfirmed(items, sel.take(n), cf) is Some,
    ensures
        first_unconfirmed(items, sel, cf) == first_unconfirmed(items, sel.take(n), cf),
    decreases sel.len() - n,
{
    if n < sel.len() {
        assert(sel.take(n + 1).drop_last() =~= sel.take(n));
        lemma_first_unconfirmed_prefix(items, sel, n + 1, cf);
    } else {
        assert(sel.take(n) =~= sel);
    }
}

// ------------------------------------------------------------- reporting

/// Lines joined with line breaks.
pub open spec fn joined_lines(lines: Seq<Seq<char>>) -> Seq<char>
    decreases lines.len(),
{
    if lines.len() == 0 {
        Seq::empty()
    } else if lines.len() == 1 {
        lines[0]
    } else {
        joined_lines(lines.drop_last()) + "\n"@ + lines.last()
    }
}

/// The detail of each failed record.
pub open spec fn fail_details(ops: Seq<Operation>) -> Seq<Seq<char>>
    decreases ops.len(),
{
    if ops.len() == 0 {
        Seq::empty()
    } else {
        let prev = fail_details(ops.drop_last());
        let op = ops.last();
        if op.status == OperationStatus::Failed {
            let reason = match op.error_message { Some(e) => e@, None => "未知错误"@ };
            prev.push("  "@ + op.source_path@ + " → "@ + op.target_path@ + "\n    原因: "@ + reason)
        } else {
            prev
        }
    }
}

fn dec(n: u64) -> (r: String)
    ensures
        r@ == decimal(n as nat),
{
    let d = decimal_chars(n);
    string_of(&d)
}

/// What a run reports: an error listing the failures when any failed.
pub fn execution_message(ops: &Vec<Operation>) -> (r: Result<String, String>)
    ensures
        ({
            let s = count_status(ops@, OperationStatus::Success);
            let f = count_status(ops@, OperationStatus::Failed);
            let k = count_status(ops@, OperationStatus::Skipped);
            if f > 0 {
                r matches Err(m) && m@ == "执行完成："@ + decimal(s) + " 成功, "@ + decimal(f) + " 失败, "@ + decimal(k)
                    + " 跳过\n\n失败详情:\n"@ + joined_lines(fail_details(ops@))
            } else {
                r matches Ok(m) && m@ == "执行完成："@ + decimal(s) + " 成功，"@ + decimal(k) + " 跳过"@
            }
        }),
{
    let summary = summarize(ops);
    let s = dec(summary.succeeded);
    let k = dec(summary.skipped);
    if summary.failed > 0 {
        let f = dec(summary.failed);
        let mut lines: Vec<char> = Vec::new();
        let mut count: usize = 0;
        let mut i: usize = 0;
        while i < ops.len()
            invariant
                i <= ops.len(),
                lines@ == joined_lines(fail_details(ops@.take(i as int))),
                count == fail_details(ops@.take(i as int)).len(),
                count <= i,
            decreases ops.len() - i,
        {
            assert(ops@.take(i + 1).drop_last() =~= ops@.take(i as int));
            if ops[i].status == OperationStatus::Failed {
                let reason = match &ops[i].error_message {
                    Some(e) => owned(e.as_str()),
                    None => owned("未知错误"),
                };
                let a = concat_str("  ", ops[i].source_path.as_str());
                let b = concat_str(a.as_str(), " → ");
                let c = concat_str(b.as_str(), ops[i].target_path.as_str());
                let d = concat_str(c.as_str(), "\n    原因: ");
                let line = concat_str(d.as_str(), reason.as_str());
                let lv = chars_of(line.as_str());
                let ghost p0 = fail_details(ops@.take(i as int));
                assert(fail_details(ops@.take(i + 1)) == p0.push(lv@));
                assert(p0.push(lv@).drop_last() =~= p0);
                if count == 0 {
                    lines = lv;
                } else {
                    let nl = chars_of("\n");
                    let x = concat_chars(&lines, &nl);
                    lines = concat_chars(&x, &lv);
                }
                count = count + 1;
            }
            i = i + 1;
        }
        assert(ops@.take(ops.len() as int) =~= ops@);
        let head = concat_str("执行完成：", s.as_str());
        let h2 = concat_str(head.as_str(), " 成功, ");
        let h3 = concat_str(h2.as_str(), f.as_str());
        let h4 = concat_str(h3.as_str(), " 失败, ");
        let h5 = concat_str(h4.as_str(), k.as_str());
        let h6 = concat_str(h5.as_str(), " 跳过\n\n失败详情:\n");
        let tail = string_of(&lines);
        Err(concat_str(h6.as_str(), tail.as_str()))
    } else {
        let head = concat_str("执行完成：", s.as_str());
        let h2 = concat_str(head.as_str(), " 成功，");
        let h3 = concat_str(h2.as_str(), k.as_str());
        Ok(concat_str(h3.as_str(), " 跳过"))
    }
}

// ------------------------------------------------- media moves and deletions

/// The record of a classifying move: a success whose target was hashed can be undone.
pub fn move_operation(source: &str, target: &str, result: &Result<(), String>, target_hash: Option<String>) -> (r: Operation)
    ensures
        r.action@ == "move"@,
        r.source_path@ == source@,
        r.target_path@ == target@,
        match result {
            Ok(()) => r.status == OperationStatus::Success && r.error_message is None,
            Err(e) => r.status == OperationStatus::Failed && (r.error_message matches Some(m) && m@ == e@),
        },
        r.reversible == target_hash is Some,
        r.target_hash == target_hash,
        r.backup_path is None,
        r.backup_hash is None,
{
    let (status, error_message) = match result {
        Ok(()) => (OperationStatus::Success, None),
        Err(e) => (OperationStatus::Failed, Some(owned(e.as_str()))),
    };
    Operation {
        op_id: new_uuid(),
        action: owned("move"),
        source_path: owned(source),
        target_path: owned(target),
        status,
        error_message,
        reversible: target_hash.is_some(),
        target_hash,
        backup_path: None,
        backup_hash: None,
    }
}

/// The record of a duplicate's deletion; it cannot be undone.
pub fn delete_operation(path: &str, result: &Result<(), String>) -> (r: Operation)
    ensures
        r.action@ == "delete"@,
        r.source_path@ == path@,
        r.target_path@ == Seq::<char>::empty(),
        match result {
            Ok(()) => r.status == OperationStatus::Success && r.error_message is None,
            Err(e) => r.status == OperationStatus::Failed && (r.error_message matches Some(m) && m@ == e@),
        },
        !r.reversible,
        r.target_hash is None,
        r.backup_path is None,
        r.backup_hash is None,
{
    let (status, error_message) = match result {
        Ok(()) => (OperationStatus::Success, None),
        Err(e) => (OperationStatus::Failed, Some(owned(e.as_str()))),
    };
    Operation {
        op_id: new_uuid(),
        action: owned("delete"),
        source_path: owned(path),
        target_path: String::new(),
        status,
        error_message,
        reversible: false,
        target_hash: None,
        backup_path: None,
        backup_hash: None,
    }
}

/// Some record of the run moved `path` successfully.
pub open spec fn succeeded_from(ops: Seq<Operation>, path: Seq<char>) -> bool {
    exists|i: int| 0 <= i < ops.len() && (#[trigger] ops[i]).status == OperationStatus::Success && ops[i].source_path@ == path
}

pub open spec fn hint_view(h: AliasLearningHint) -> (Seq<char>, Seq<char>, Seq<char>) {
    (h.source_path@, h.alias@, h.canonical@)
}

/// The hints whose file was moved successfully, in order.
pub open spec fn learned_of(hints: Seq<AliasLearningHint>, ops: Seq<Operation>) -> Seq<(Seq<char>, Seq<char>, Seq<char>)>
    decreases hints.len(),
{
    if hints.len() == 0 {
        seq![]
    } else {
        let prev = learned_of(hints.drop_last(), ops);
        if succeeded_from(ops, hints.last().source_path@) { prev.push(hint_view(hints.last())) } else { prev }
    }
}

fn moved_successfully(ops: &Vec<Operation>, path: &str) -> (r: bool)
    ensures
        r == succeeded_from(ops@, path@),
{
    let mut i: usize = 0;
    while i < ops.len()
        invariant
            i <= ops.len(),
            forall|k: int| 0 <= k < i ==> !((#[trigger] ops@[k]).status == OperationStatus::Success && ops@[k].source_path@ == path@),
        decreases ops.len() - i,
    {
        if ops[i].status == OperationStatus::Success && str_eq(ops[i].source_path.as_str(), path) {
            return true;
        }
        i = i + 1;
    }
    false
}

/// The alias hints to learn after a run: those of files that were moved successfully.
pub fn learned_hints(hints: &Vec<AliasLearningHint>, ops: &Vec<Operation>) -> (r: Vec<AliasLearningHint>)
    ensures
        Seq::new(r@.len(), |i: int| hint_view(r@[i])) == learned_of(hints@, ops@),
{
    let mut r: Vec<AliasLearningHint> = Vec::new();
    let mut i: usize = 0;
    while i < hints.len()
        invariant
            i <= hints.len(),
            Seq::new(r@.len(), |k: int| hint_view(r@[k])) == learned_of(hints@.take(i as int), ops@),
        decreases hints.len() - i,
    {
        assert(hints@.take(i + 1).drop_last() =~= hints@.take(i as int));
        let ghost before = Seq::new(r@.len(), |k: int| hint_view(r@[k]));
        let h = &hints[i];
        if moved_successfully(ops, h.source_path.as_str()) {
            let copy = AliasLearningHint {
                source_path: owned(h.source_path.as_str()),
                alias: owned(h.alias.as_str()),
                canonical: owned(h.canonical.as_str()),
            };
            r.push(copy);
            assert(Seq::new(r@.len(), |k: int| hint_view(r@[k])) =~= before.push(hint_view(hints@[i as int])));
        }
        i = i + 1;
    }
    assert(hints@.take(hints.len() as int) =~= hints@);
    r
}

/// What a classifying run reports: an error when any move failed; otherwise how
/// many files were classified, and how many aliases were learned or why they
/// were not saved.
pub fn media_execution_message(ops: &Vec<Operation>, learned: usize, learning_error: Option<String>) -> (r: Result<String, String>)
    ensures
        ({
            let s = count_status(ops@, OperationStatus::Success);
            let f = count_status(ops@, OperationStatus::Failed);
            if f > 0 {
                r matches Err(m) && m@ == "执行完成："@ + decimal(s) + " 成功，"@ + decimal(f) + " 失败"@
            } else {
                let tail = match learning_error {
                    Some(e) => "；别名学习未保存："@ + e@,
                    None => if learned == 0 { Seq::<char>::empty() } else { "；已学习 "@ + decimal(learned as nat) + " 条别名"@ },
                };
                r matches Ok(m) && m@ == "执行完成："@ + decimal(s) + " 个文件已归类"@ + tail
            }
        }),
{
    let summary = summarize(ops);
    let s = dec(summary.succeeded);
    if summary.failed > 0 {
        let f = dec(summary.failed);
        let a = concat_str("执行完成：", s.as_str());
        let b = concat_str(a.as_str(), " 成功，");
        let c = concat_str(b.as_str(), f.as_str());
        return Err(concat_str(c.as_str(), " 失败"));
    }
    let tail = match learning_error {
        Some(e) => concat_str("；别名学习未保存：", e.as_str()),
        None => if learned == 0 {
            String::new()
        } else {
            let n = dec(learned as u64);
            let x = concat_str("；已学习 ", n.as_str());
            concat_str(x.as_str(), " 条别名")
        },
    };
    let a = concat_str("执行完成：", s.as_str());
    let b = concat_str(a.as_str(), " 个文件已归类");
    Ok(concat_str(b.as_str(), tail.as_str()))
}

/// What a deletion of duplicates reports.
pub fn deletion_message(ops: &Vec<Operation>) -> (r: String)
    ensures
        ({
            let s = count_status(ops@, OperationStatus::Success);
            let f = count_status(ops@, OperationStatus::Failed);
            if f == 0 {
                r@ == "成功删除 "@ + decimal(s) + " 个重复文件"@
            } else {
                r@ == "删除完成：成功 "@ + decimal(s) + "，失败 "@ + decimal(f)
            }
        }),
{
    let summary = summarize(ops);
    let s = dec(summary.succeeded);
    if summary.failed == 0 {
        let a = concat_str("成功删除 ", s.as_str());
        concat_str(a.as_str(), " 个重复文件")
    } else {
        let f = dec(summary.failed);
        let a = concat_str("删除完成：成功 ", s.as_str());
        let b = concat_str(a.as_str(), "，失败 ");
        concat_str(b.as_str(), f.as_str())
    }
}

// ----------------------------------------------------- overwrite backups

/// The backup path of `target` with the given id, joined as the host joins
/// paths (`windows` tells whether it is Windows).
pub open spec fn conflict_backup_of(target: Seq<char>, id: Seq<char>, windows: bool) -> Seq<char> {
    join_path_on(
        match parent_of(target) { Some(p) => p, None => "."@ },
        "."@ + match file_name_of(target) { Some(n) => n, None => Seq::<char>::empty() } + ".smartsorter-backup-"@ + id,
        windows,
    )
}

/// Where an overwritten target waits while the new file takes its place: a hidden
/// `.{name}.smartsorter-backup-{id}` beside it (in `.` when it has no parent),
/// with a fresh id.
pub fn conflict_backup_path(target: &str, windows: bool) -> (r: String)
    ensures
        exists|id: Seq<char>| r@ == #[trigger] conflict_backup_of(target@, id, windows),
{
    let tv = chars_of(target);
    let parent = match parent_chars(&tv) {
        Some(p) => p,
        None => chars_of("."),
    };
    let name = match file_name_chars(&tv) {
        Some(n) => string_of(&n),
        None => String::new(),
    };
    let id = new_uuid();
    let a = concat_str(".", name.as_str());
    let b = concat_str(a.as_str(), ".smartsorter-backup-");
    let c = concat_str(b.as_str(), id.as_str());
    let cv = chars_of(c.as_str());
    let w = join_chars_on(&parent, &cv, windows);
    assert(w@ == conflict_backup_of(target@, id@, windows));
    string_of(&w)
}

// ------------------------------------------------------ file operations

/// A file operation refuses a missing source and an existing target; either
/// error names the path.
pub fn file_operation_precheck(source: &str, source_exists: bool, target: &str, target_exists: bool) -> (r: Result<(), String>)
    ensures
        !source_exists ==> (r matches Err(m) && m@ == "源文件不存在: "@ + source@),
        source_exists && target_exists ==> (r matches Err(m) && m@ == "目标文件已存在，拒绝覆盖: "@ + target@),
        source_exists && !target_exists ==> r is Ok,
{
    if !source_exists {
        return Err(concat_str("源文件不存在: ", source));
    }
    if target_exists {
        return Err(concat_str("目标文件已存在，拒绝覆盖: ", target));
    }
    Ok(())
}

/// The check of a copy: the copy's hash must be read and equal the source's.
pub fn copy_verdict(source_hash: &str, copy_hash: Result<String, String>) -> (r: Result<(), String>)
    ensures
        match copy_hash {
            Err(e) => r matches Err(m) && m@ == "校验目标文件哈希失败: "@ + e@,
            Ok(h) => if h@ == source_hash@ { r is Ok } else {
                r matches Err(m) && m@ == "文件复制后哈希校验失败，操作已回滚"@
            },
        },
{
    match copy_hash {
        Err(e) => Err(concat_str("校验目标文件哈希失败: ", e.as_str())),
        Ok(h) => if str_eq(h.as_str(), source_hash) {
            Ok(())
        } else {
            Err(owned("文件复制后哈希校验失败，操作已回滚"))
        },
    }
}

// ------------------------------------------------------ recorded state checks

/// A previewed source must still have the size the preview saw.
pub fn source_size_verdict(expected: u64, actual: Result<u64, String>) -> (r: Result<(), String>)
    ensures
        match actual {
            Err(e) => r matches Err(m) && m@ == "读取源文件信息失败: "@ + e@,
            Ok(a) => if a == expected { r is Ok } else {
                r matches Err(m) && m@ == size_changed_message("文件大小已变更（"@, "预览"@, expected, a, ""@)
            },
        },
{
    size_verdict(expected, actual, "读取源文件信息失败: ", "文件大小已变更（", "预览", "")
}

/// A previewed source must still have the content the preview hashed.
pub fn source_hash_verdict(expected: &str, actual: Result<String, String>) -> (r: Result<(), String>)
    ensures
        match actual {
            Err(e) => r matches Err(m) && m@ == "计算源文件 SHA-256 失败: "@ + e@,
            Ok(a) => if a@ == expected@ { r is Ok } else { r matches Err(m) && m@ == "文件内容已变更"@ },
        },
{
    hash_verdict(expected, actual, "计算源文件 SHA-256 失败: ", "文件内容已变更")
}

/// A target about to be overwritten must still have the content the preview hashed.
pub fn overwrite_hash_verdict(expected: &str, actual: Result<String, String>) -> (r: Result<(), String>)
    ensures
        match actual {
            Err(e) => r matches Err(m) && m@ == "计算目标文件 SHA-256 失败: "@ + e@,
            Ok(a) => if a@ == expected@ { r is Ok } else {
                r matches Err(m) && m@ == "目标文件在预览后已变更，已跳过覆盖以保护该文件"@
            },
        },
{
    hash_verdict(expected, actual, "计算目标文件 SHA-256 失败: ", "目标文件在预览后已变更，已跳过覆盖以保护该文件")
}

} // verus!
