//! Undoing a run from its log: which records are undone and in what order, what
//! each record's undo must check first, and the log's state afterwards.
use vstd::prelude::*;
use crate::ids::new_uuid;
use crate::models::{ExecutionLog, Operation, OperationStatus, UndoStatus};
use crate::execution::{file_action_of, hash_verdict, FileAction};
use crate::paths::{name_or_empty, parent_chars, parent_of, file_name_chars, file_name_of, join_chars_on, join_path_on};
use crate::text::{chars_of, concat_str, owned, str_eq, string_of, concat_chars};

verus! {

/// A record that an undo acts on: a success that can be reversed.
pub open spec fn undoable(op: Operation) -> bool {
    op.reversible && op.status == OperationStatus::Success
}

/// The indices of the undoable records, last first.
pub open spec fn undo_order(ops: Seq<Operation>) -> Seq<int>
    decreases ops.len(),
{
    if ops.len() == 0 {
        Seq::empty()
    } else {
        let rest = undo_order(ops.drop_last());
        if undoable(ops.last()) { seq![ops.len() - 1] + rest } else { rest }
    }
}

/// The records to undo, last first; an expired log cannot be undone.
pub fn undo_plan(log: &ExecutionLog) -> (r: Result<Vec<usize>, String>)
    ensures
        log.undo_status == UndoStatus::Expired ==> (r matches Err(m) && m@ == "此操作已过期，无法撤销"@),
        log.undo_status != UndoStatus::Expired ==> (r matches Ok(v) && v@.len() == undo_order(log.operations@).len()
            && forall|k: int| 0 <= k < v@.len() ==> #[trigger] v@[k] as int == undo_order(log.operations@)[k]),
{
    if log.undo_status == UndoStatus::Expired {
        return Err(owned("此操作已过期，无法撤销"));
    }
    let ops = &log.operations;
    let mut r: Vec<usize> = Vec::new();
    let mut i: usize = ops.len();
    assert(ops@.take(ops.len() as int) =~= ops@);
    while i > 0
        invariant
            i <= ops.len(),
            ops@ == log.operations@,
            r@.len() + undo_order(ops@.take(i as int)).len() == undo_order(ops@).len(),
            forall|k: int| 0 <= k < r@.len() ==> #[trigger] r@[k] as int == undo_order(ops@)[k],
            forall|k: int| 0 <= k < undo_order(ops@.take(i as int)).len() ==> #[trigger] undo_order(ops@.take(i as int))[k]
                == undo_order(ops@)[r@.len() + k],
        decreases i,
    {
        proof { lemma_undo_order_split(ops@, i as int); }
        assert(ops@.take(i as int).drop_last() =~= ops@.take(i - 1));
        if ops[i - 1].reversible && ops[i - 1].status == OperationStatus::Success {
            let ghost before = r@;
            r.push(i - 1);
            assert forall|k: int| 0 <= k < undo_order(ops@.take(i - 1)).len() implies #[trigger] undo_order(ops@.take(i - 1))[k]
                == undo_order(ops@)[r@.len() + k] by {
                assert(undo_order(ops@.take(i as int))[k + 1] == undo_order(ops@.take(i - 1))[k]);
            }
            assert(undo_order(ops@.take(i as int))[0] == i - 1);
        }
        i = i - 1;
    }
    assert(ops@.take(0) =~= Seq::<Operation>::empty());
    Ok(r)
}

proof fn lemma_undo_order_split(ops: Seq<Operation>, i: int)
    requires
        0 < i <= ops.len(),
    ensures
        undo_order(ops.take(i)) == if undoable(ops[i - 1]) {
            seq![i - 1] + undo_order(ops.take(i - 1))
        } else {
            undo_order(ops.take(i - 1))
        },
{
    assert(ops.take(i).drop_last() =~= ops.take(i - 1));
    assert(ops.take(i).last() == ops[i - 1]);
}

/// What undoing one record takes.
#[derive(Debug, Clone, Copy, PartialEq, Eq, Structural)]
pub enum UndoAction {
    /// Move the target back to the source.
    MoveBack,
    /// Rename the target back to the source.
    RenameBack,
    /// Remove the copy, if it is still there.
    RemoveCopy,
    /// Put the backup taken before a tag cleanup back in place.
    RestoreTags,
    /// A delete cannot be undone.
    Refuse,
    /// Nothing to do.
    Nothing,
}

pub open spec fn undo_action_of(action: Seq<char>) -> UndoAction {
    if action == "move"@ {
        UndoAction::MoveBack
    } else if action == "rename"@ {
        UndoAction::RenameBack
    } else if action == "copy"@ {
        UndoAction::RemoveCopy
    } else if action == "tag_cleanup"@ {
        UndoAction::RestoreTags
    } else if action == "delete"@ {
        UndoAction::Refuse
    } else {
        UndoAction::Nothing
    }
}

pub fn undo_action(action: &str) -> (r: UndoAction)
    ensures
        r == undo_action_of(action@),
{
    if str_eq(action, "move") {
        UndoAction::MoveBack
    } else if str_eq(action, "rename") {
        UndoAction::RenameBack
    } else if str_eq(action, "copy") {
        UndoAction::RemoveCopy
    } else if str_eq(action, "tag_cleanup") {
        UndoAction::RestoreTags
    } else if str_eq(action, "delete") {
        UndoAction::Refuse
    } else {
        UndoAction::Nothing
    }
}

/// Moving a file back is refused when its old place is taken again.
pub fn move_back_precheck(op: &Operation, source_exists: bool) -> (r: Result<(), String>)
    ensures
        source_exists ==> (r matches Err(m) && m@ == "原路径已有文件，拒绝覆盖: "@ + op.source_path@),
        !source_exists ==> r is Ok,
{
    if source_exists {
        Err(concat_str("原路径已有文件，拒绝覆盖: ", op.source_path.as_str()))
    } else {
        Ok(())
    }
}

/// The checks before touching an operation's target: it must exist and the log
/// must hold its hash, which is returned to compare with the file's.
pub fn undo_target_precheck(op: &Operation, target_exists: bool) -> (r: Result<String, String>)
    ensures
        !target_exists ==> (r matches Err(m) && m@ == "目标文件已不存在: "@ + op.target_path@),
        target_exists ==> match op.target_hash {
            Some(h) => r matches Ok(x) && x@ == h@,
            None => r matches Err(m) && m@ == "操作记录缺少目标文件哈希，拒绝撤销以避免误删文件"@,
        },
{
    if !target_exists {
        return Err(concat_str("目标文件已不存在: ", op.target_path.as_str()));
    }
    match &op.target_hash {
        Some(h) => Ok(owned(h.as_str())),
        None => Err(owned("操作记录缺少目标文件哈希，拒绝撤销以避免误删文件")),
    }
}

/// The hash a restore is checked against, when the log holds it.
pub fn recorded_hash(expected: &Option<String>) -> (r: Result<String, String>)
    ensures
        match expected {
            Some(h) => r matches Ok(x) && x@ == h@,
            None => r matches Err(m) && m@ == "操作记录缺少文件哈希，拒绝恢复"@,
        },
{
    match expected {
        Some(h) => Ok(owned(h.as_str())),
        None => Err(owned("操作记录缺少文件哈希，拒绝恢复")),
    }
}

/// The backup a tag cleanup left, once the cleaned file and the backup are
/// known to be there.
pub fn tag_restore_precheck(op: &Operation, media_exists: bool, backup_exists: bool) -> (r: Result<String, String>)
    ensures
        match op.backup_path {
            None => r matches Err(m) && m@ == "标签清洗记录缺少备份路径"@,
            Some(b) => if !media_exists {
                r matches Err(m) && m@ == "已清洗文件不存在: "@ + op.source_path@
            } else if !backup_exists {
                r matches Err(m) && m@ == "标签备份文件不存在: "@ + b@
            } else {
                r matches Ok(x) && x@ == b@
            },
        },
{
    match &op.backup_path {
        None => Err(owned("标签清洗记录缺少备份路径")),
        Some(b) => {
            if !media_exists {
                Err(concat_str("已清洗文件不存在: ", op.source_path.as_str()))
            } else if !backup_exists {
                Err(concat_str("标签备份文件不存在: ", b.as_str()))
            } else {
                Ok(owned(b.as_str()))
            }
        },
    }
}

/// The two staging paths beside a file whose tags are restored: where the
/// backup is copied first, and where the cleaned file waits until the swap is
/// done; joined as the host joins paths (`windows` tells whether it is Windows).
pub fn tag_restore_stages(media: &str, windows: bool) -> (r: Result<(String, String), String>)
    ensures
        parent_of(media@) is None ==> (r matches Err(m) && m@ == "无法确定媒体文件所在目录"@),
        parent_of(media@) matches Some(p) ==> (r matches Ok((a, b))
            && (exists|id: Seq<char>| a@ == join_path_on(p, ".smartsorter-restore-"@ + id + "-"@ + restore_name(media@), windows))
            && (exists|id: Seq<char>| b@ == join_path_on(p, ".smartsorter-cleaned-"@ + id + "-"@ + restore_name(media@), windows))),
{
    let ov = chars_of(media);
    let parent = match parent_chars(&ov) {
        Some(p) => p,
        None => { return Err(owned("无法确定媒体文件所在目录")); },
    };
    let name = match file_name_chars(&ov) {
        Some(n) => string_of(&n),
        None => owned("media"),
    };
    let id1 = new_uuid();
    let id2 = new_uuid();
    let a1 = concat_str(".smartsorter-restore-", id1.as_str());
    let a2 = concat_str(a1.as_str(), "-");
    let a3 = concat_str(a2.as_str(), name.as_str());
    let b1 = concat_str(".smartsorter-cleaned-", id2.as_str());
    let b2 = concat_str(b1.as_str(), "-");
    let b3 = concat_str(b2.as_str(), name.as_str());
    let av = chars_of(a3.as_str());
    let bv = chars_of(b3.as_str());
    let ra = join_chars_on(&parent, &av, windows);
    let rb = join_chars_on(&parent, &bv, windows);
    Ok((string_of(&ra), string_of(&rb)))
}

/// The file name used in staging names: the file's name, or `media`.
pub open spec fn restore_name(media: Seq<char>) -> Seq<char> {
    match file_name_of(media) {
        Some(n) => n,
        None => "media"@,
    }
}

/// Why putting the backup in place failed, and whether the cleaned file was
/// put back.
pub fn tag_restore_failure(error: &str, rollback_error: Option<String>) -> (r: String)
    ensures
        match rollback_error {
            Some(b) => r@ == "恢复标签备份失败: "@ + error@ + "；恢复清洗后文件也失败: "@ + b@,
            None => r@ == "恢复标签备份失败，已保留清洗后文件: "@ + error@,
        },
{
    match rollback_error {
        Some(b) => {
            let a = concat_str("恢复标签备份失败: ", error);
            let c = concat_str(a.as_str(), "；恢复清洗后文件也失败: ");
            concat_str(c.as_str(), b.as_str())
        },
        None => concat_str("恢复标签备份失败，已保留清洗后文件: ", error),
    }
}

/// A log after an undo: spent when every undo went through, else partly undone.
pub fn undo_status_after_undo(failures: u64) -> (r: UndoStatus)
    ensures
        failures == 0 ==> r == UndoStatus::Expired,
        failures > 0 ==> r == UndoStatus::Partial,
{
    if failures == 0 { UndoStatus::Expired } else { UndoStatus::Partial }
}

// ------------------------------------------------------------ hash checks

/// The target of an undo must still have the content the run left there.
pub fn undo_target_verdict(expected: &str, actual: Result<String, String>) -> (r: Result<(), String>)
    ensures
        match actual {
            Err(e) => r matches Err(m) && m@ == "计算目标文件 SHA-256 失败: "@ + e@,
            Ok(a) => if a@ == expected@ { r is Ok } else {
                r matches Err(m) && m@ == "目标文件已被替换或修改，拒绝撤销以保护当前文件"@
            },
        },
{
    hash_verdict(expected, actual, "计算目标文件 SHA-256 失败: ", "目标文件已被替换或修改，拒绝撤销以保护当前文件")
}

/// Before a tag backup is put back, the cleaned file must be as the cleanup left
/// it (`cleaned`) and the backup as it was taken (otherwise).
pub fn restore_hash_verdict(expected: &str, actual: Result<String, String>, cleaned: bool) -> (r: Result<(), String>)
    ensures
        match actual {
            Err(e) => r matches Err(m) && m@ == "计算文件 SHA-256 失败: "@ + e@,
            Ok(a) => if a@ == expected@ { r is Ok } else {
                r matches Err(m) && m@ == (if cleaned { "已清洗文件已被修改，拒绝用旧备份覆盖"@ } else { "标签备份文件已损坏或被替换"@ })
            },
        },
{
    if cleaned {
        hash_verdict(expected, actual, "计算文件 SHA-256 失败: ", "已清洗文件已被修改，拒绝用旧备份覆盖")
    } else {
        hash_verdict(expected, actual, "计算文件 SHA-256 失败: ", "标签备份文件已损坏或被替换")
    }
}

// ------------------------------------------------------------------ laws

/// Every change that a run makes to a file is undone by its reverse: a file a
/// run moved or renamed (any action that the run carries out as a file
/// operation) is moved or renamed back, a file it copied is removed; such a
/// change is never passed over or refused. Tags that a cleanup rewrote are
/// restored, and a deletion is refused; only a record of no kind that a run or
/// a cleanup writes is passed over.
pub proof fn lemma_undo_reverses(action: Seq<char>)
    ensures
        file_action_of(action) == Some(FileAction::Move) ==> undo_action_of(action) == UndoAction::MoveBack,
        file_action_of(action) == Some(FileAction::Rename) ==> undo_action_of(action) == UndoAction::RenameBack,
        file_action_of(action) == Some(FileAction::Copy) ==> undo_action_of(action) == UndoAction::RemoveCopy,
        file_action_of(action) is Some ==> undo_action_of(action) != UndoAction::Nothing && undo_action_of(action) != UndoAction::Refuse,
        action == "tag_cleanup"@ ==> undo_action_of(action) == UndoAction::RestoreTags,
        action == "delete"@ ==> undo_action_of(action) == UndoAction::Refuse,
        undo_action_of(action) == UndoAction::Nothing ==> file_action_of(action) is None && action != "tag_cleanup"@ && action != "delete"@,
{
    reveal_strlit("move");
    reveal_strlit("rename");
    reveal_strlit("copy");
    reveal_strlit("tag_cleanup");
    reveal_strlit("delete");
    assert("move"@.len() == 4 && "rename"@.len() == 6 && "copy"@.len() == 4);
    assert("tag_cleanup"@.len() == 11 && "delete"@.len() == 6);
    assert("move"@[0] != "copy"@[0]);
    assert("rename"@[0] != "delete"@[0]);
}

/// An undo acts on exactly the reversible successes of a run, each once, the
/// last done first: the indices it takes fall strictly, each names a
/// reversible success, and every reversible success is among them.
pub proof fn lemma_undo_order(ops: Seq<Operation>)
    ensures
        forall|a: int, b: int| 0 <= a < b < undo_order(ops).len() ==> #[trigger] undo_order(ops)[a] > #[trigger] undo_order(ops)[b],
        forall|k: int| 0 <= k < undo_order(ops).len() ==> 0 <= #[trigger] undo_order(ops)[k] < ops.len()
            && undoable(ops[undo_order(ops)[k]]),
        forall|i: int| 0 <= i < ops.len() && undoable(#[trigger] ops[i]) ==> exists|k: int| 0 <= k < undo_order(ops).len() && undo_order(ops)[k] == i,
    decreases ops.len(),
{
    if ops.len() > 0 {
        let o0 = ops.drop_last();
        lemma_undo_order(o0);
        let rest = undo_order(o0);
        let cur = undo_order(ops);
        assert forall|k: int| 0 <= k < rest.len() implies #[trigger] ops[rest[k]] == o0[rest[k]] by {}
        if undoable(ops.last()) {
            assert forall|k: int| 0 < k < cur.len() implies cur[k] == rest[k - 1] by {}
            assert forall|a: int, b: int| 0 <= a < b < cur.len() implies #[trigger] cur[a] > #[trigger] cur[b] by {
                assert(cur[b] == rest[b - 1]);
                if a > 0 {
                    assert(cur[a] == rest[a - 1]);
                }
            }
            assert forall|k: int| 0 <= k < cur.len() implies 0 <= #[trigger] cur[k] < ops.len() && undoable(ops[cur[k]]) by {
                if k > 0 {
                    assert(cur[k] == rest[k - 1]);
                    assert(ops[rest[k - 1]] == o0[rest[k - 1]]);
                }
            }
            assert forall|i: int| 0 <= i < ops.len() && undoable(#[trigger] ops[i]) implies exists|k: int| 0 <= k < cur.len() && cur[k] == i by {
                if i < ops.len() - 1 {
                    assert(o0[i] == ops[i]);
                    let k = choose|k: int| 0 <= k < rest.len() && rest[k] == i;
                    assert(cur[k + 1] == i);
                } else {
                    assert(cur[0] == i);
                }
            }
        } else {
            assert forall|k: int| 0 <= k < cur.len() implies 0 <= #[trigger] cur[k] < ops.len() && undoable(ops[cur[k]]) by {
                assert(ops[rest[k]] == o0[rest[k]]);
            }
            assert forall|i: int| 0 <= i < ops.len() && undoable(#[trigger] ops[i]) implies exists|k: int| 0 <= k < cur.len() && cur[k] == i by {
                if i < ops.len() - 1 {
                    assert(o0[i] == ops[i]);
                } else {
                    assert(ops[i] == ops.last());
                }
            }
        }
    }
}

} // verus!
