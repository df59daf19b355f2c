//! What the stores keep: the execution history (the latest entries only), the
//! rule sets, and the media classification knowledge base, as changes to
//! in-memory values that the application then writes out.
use vstd::prelude::*;
use crate::models::{ExecutionLog, Operation, RuleSet};
use crate::order::{compare_chars, lex_lt, sort_by, stable_sorted};
use crate::paths::{components, join_chars, join_path, path_components, strip_components, strip_prefix_components};
use crate::text::{chars_of, owned, str_eq, sviews, vviews};

verus! {

// --------------------------------------------------------------- history

/// How many executions the history keeps.
pub const MAX_LOG_ENTRIES: usize = 200;

/// The history after adding a log: the latest `MAX_LOG_ENTRIES` entries.
pub open spec fn appended_history(logs: Seq<ExecutionLog>, log: ExecutionLog) -> Seq<ExecutionLog> {
    let all = logs.push(log);
    if all.len() > MAX_LOG_ENTRIES { all.skip(all.len() - MAX_LOG_ENTRIES) } else { all }
}

/// Adds a log to the history, dropping the oldest entries beyond the limit;
/// returns the dropped entries, oldest first.
pub fn append(logs: &mut Vec<ExecutionLog>, log: ExecutionLog) -> (removed: Vec<ExecutionLog>)
    ensures
        final(logs)@ == appended_history(old(logs)@, log),
        removed@ + final(logs)@ == old(logs)@.push(log),
{
    logs.push(log);
    if logs.len() > MAX_LOG_ENTRIES {
        let n = logs.len() - MAX_LOG_ENTRIES;
        let ghost all = logs@;
        let mut removed = logs.split_off(n);
        std::mem::swap(logs, &mut removed);
        assert(removed@ + logs@ =~= all);
        removed
    } else {
        Vec::new()
    }
}

/// The history never holds more than `MAX_LOG_ENTRIES` executions, and the one
/// just added is always kept, as the newest.
pub proof fn lemma_history_bounded(logs: Seq<ExecutionLog>, log: ExecutionLog)
    requires
        logs.len() <= MAX_LOG_ENTRIES,
    ensures
        appended_history(logs, log).len() <= MAX_LOG_ENTRIES,
        appended_history(logs, log).last() == log,
        appended_history(logs, log).len() == if logs.len() < MAX_LOG_ENTRIES { logs.len() + 1 } else { MAX_LOG_ENTRIES as nat },
{
}

/// `path` lies under `root`, component by component.
pub open spec fn under_root(path: Seq<char>, root: Seq<char>) -> bool {
    strip_components(components(path), components(root)) is Some
}

/// The tag backups that dropped history entries left under the backup folder,
/// in order: they can be removed with their entries.
pub open spec fn expired_backups_of(logs: Seq<ExecutionLog>, root: Seq<char>) -> Seq<Seq<char>>
    decreases logs.len(),
{
    if logs.len() == 0 {
        Seq::empty()
    } else {
        expired_backups_of(logs.drop_last(), root) + backups_in(logs.last().operations@, root)
    }
}

pub open spec fn backups_in(ops: Seq<Operation>, root: Seq<char>) -> Seq<Seq<char>>
    decreases ops.len(),
{
    if ops.len() == 0 {
        Seq::empty()
    } else {
        let prev = backups_in(ops.drop_last(), root);
        match ops.last().backup_path {
            Some(b) => if under_root(b@, root) { prev.push(b@) } else { prev },
            None => prev,
        }
    }
}

/// The backup folder under the data folder.
pub open spec fn backup_root(data_dir: Seq<char>) -> Seq<char> {
    join_path(data_dir, "media_tag_backups"@)
}

pub fn expired_backups(removed: &Vec<ExecutionLog>, data_dir: &str) -> (r: Vec<String>)
    ensures
        sviews(r@) == expired_backups_of(removed@, backup_root(data_dir@)),
{
    let dv = chars_of(data_dir);
    let bv = chars_of("media_tag_backups");
    let root = join_chars(&dv, &bv);
    let root_parts = path_components(&root);
    let ghost rt = backup_root(data_dir@);
    let mut r: Vec<String> = Vec::new();
    let mut i: usize = 0;
    while i < removed.len()
        invariant
            i <= removed.len(),
            root@ == rt,
            vviews(root_parts@) == components(rt),
            sviews(r@) == expired_backups_of(removed@.take(i as int), rt),
        decreases removed.len() - i,
    {
        assert(removed@.take(i + 1).drop_last() =~= removed@.take(i as int));
        let ops = &removed[i].operations;
        let ghost base = sviews(r@);
        let mut j: usize = 0;
        while j < ops.len()
            invariant
                j <= ops.len(),
                ops@ == removed@[i as int].operations@,
                root@ == rt,
                vviews(root_parts@) == components(rt),
                sviews(r@) == base + backups_in(ops@.take(j as int), rt),
            decreases ops.len() - j,
        {
            assert(ops@.take(j + 1).drop_last() =~= ops@.take(j as int));
            if let Some(b) = &ops[j].backup_path {
                let pv = chars_of(b.as_str());
                let parts = path_components(&pv);
                if strip_prefix_components(&parts, &root_parts).is_some() {
                    let ghost r0 = sviews(r@);
                    r.push(owned(b.as_str()));
                    assert(sviews(r@) =~= r0.push(b@));
                }
            }
            j = j + 1;
        }
        assert(ops@.take(ops.len() as int) =~= ops@);
        i = i + 1;
    }
    assert(removed@.take(removed.len() as int) =~= removed@);
    r
}

/// The history newest first (by the time text, descending); stable.
pub open spec fn newer_log(a: ExecutionLog, b: ExecutionLog) -> bool {
    lex_lt(b.executed_at@, a.executed_at@)
}

pub open spec fn by_newest_log() -> spec_fn(ExecutionLog, ExecutionLog) -> bool {
    |a: ExecutionLog, b: ExecutionLog| newer_log(a, b)
}

/// Loaded history is the same logs, newest first: no log stands before one
/// with a later time text.
pub proof fn lemma_history_newest_first(logs: Seq<ExecutionLog>)
    ensures
        stable_sorted(logs, by_newest_log()).to_multiset() == logs.to_multiset(),
        forall|i: int, j: int| 0 <= i < j < stable_sorted(logs, by_newest_log()).len() ==>
            !lex_lt((#[trigger] stable_sorted(logs, by_newest_log())[i]).executed_at@, (#[trigger] stable_sorted(logs, by_newest_log())[j]).executed_at@),
{
    assert forall|a: ExecutionLog, b: ExecutionLog| #[trigger] newer_log(a, b) implies !newer_log(b, a) by {
        crate::order::lemma_lex_asymmetric(b.executed_at@, a.executed_at@);
    }
    assert forall|a: ExecutionLog, b: ExecutionLog, c: ExecutionLog| #[trigger] newer_log(a, b) && #[trigger] newer_log(b, c) implies newer_log(a, c) by {
        crate::order::lemma_lex_transitive(c.executed_at@, b.executed_at@, a.executed_at@);
    }
    assert(crate::order::strict_order(by_newest_log()));
    crate::order::lemma_stable_sorted_props(logs, by_newest_log());
    let r = stable_sorted(logs, by_newest_log());
    assert forall|i: int, j: int| 0 <= i < j < r.len() implies !lex_lt((#[trigger] r[i]).executed_at@, (#[trigger] r[j]).executed_at@) by {
        assert(!by_newest_log()(r[j], r[i]));
    }
}

pub fn load_history(logs: Vec<ExecutionLog>) -> (r: Vec<ExecutionLog>)
    ensures
        r@ == stable_sorted(logs@, by_newest_log()),
{
    let less = |a: &ExecutionLog, b: &ExecutionLog| -> (r: bool)
        ensures
            r == newer_log(*a, *b),
        {
            let x = chars_of(b.executed_at.as_str());
            let y = chars_of(a.executed_at.as_str());
            compare_chars(&x, &y) < 0
        };
    sort_by(logs, less, Ghost(by_newest_log()))
}

// ------------------------------------------------------------- rule sets

/// The rule sets after saving one: it replaces the first with its id, or is added.
pub fn save_rule_set(all: &mut Vec<RuleSet>, rule_set: RuleSet) -> (r: ())
    ensures
        (exists|i: int| 0 <= i < old(all)@.len() && #[trigger] old(all)@[i].id@ == rule_set.id@) ==> ({
            let i = choose|i: int| 0 <= i < old(all)@.len() && #[trigger] old(all)@[i].id@ == rule_set.id@
                && forall|k: int| 0 <= k < i ==> old(all)@[k].id@ != rule_set.id@;
            final(all)@ == old(all)@.update(i, rule_set)
        }),
        !(exists|i: int| 0 <= i < old(all)@.len() && #[trigger] old(all)@[i].id@ == rule_set.id@) ==> final(all)@ == old(all)@.push(rule_set),
{
    let mut i: usize = 0;
    while i < all.len()
        invariant
            i <= all.len(),
            all@ == old(all)@,
            forall|k: int| 0 <= k < i ==> all@[k].id@ != rule_set.id@,
        decreases all.len() - i,
    {
        if str_eq(all[i].id.as_str(), rule_set.id.as_str()) {
            let ghost w = choose|w: int| 0 <= w < old(all)@.len() && #[trigger] old(all)@[w].id@ == rule_set.id@
                && forall|k: int| 0 <= k < w ==> old(all)@[k].id@ != rule_set.id@;
            proof {
                assert(0 <= i < old(all)@.len() && old(all)@[i as int].id@ == rule_set.id@
                    && forall|k: int| 0 <= k < i ==> old(all)@[k].id@ != rule_set.id@);
                if w < i {
                    assert(old(all)@[w].id@ != rule_set.id@);
                } else if w > i {
                    assert(old(all)@[i as int].id@ != rule_set.id@);
                }
            }
            all.set(i, rule_set);
            return ();
        }
        i = i + 1;
    }
    all.push(rule_set);
}

/// The rule sets without those with the id.
pub open spec fn without_rule_set(all: Seq<RuleSet>, id: Seq<char>) -> Seq<RuleSet>
    decreases all.len(),
{
    if all.len() == 0 {
        Seq::empty()
    } else {
        let prev = without_rule_set(all.drop_last(), id);
        if all.last().id@ == id { prev } else { prev.push(all.last()) }
    }
}

/// Deleting a rule set by id keeps every other rule set, in order, and no
/// rule set with that id.
pub proof fn lemma_without_rule_set(all: Seq<RuleSet>, id: Seq<char>)
    ensures
        without_rule_set(all, id) == all.filter(|r: RuleSet| r.id@ != id),
        forall|i: int| 0 <= i < without_rule_set(all, id).len() ==> (#[trigger] without_rule_set(all, id)[i]).id@ != id,
        forall|x: RuleSet| all.contains(x) && x.id@ != id <==> #[trigger] without_rule_set(all, id).contains(x),
    decreases all.len(),
{
    let f = |r: RuleSet| r.id@ != id;
    reveal(Seq::filter);
    if all.len() > 0 {
        lemma_without_rule_set(all.drop_last(), id);
    }
    let w = without_rule_set(all, id);
    assert(w == all.filter(f));
    assert forall|x: RuleSet| all.contains(x) && x.id@ != id <==> #[trigger] w.contains(x) by {
        if all.contains(x) && x.id@ != id {
            let k = choose|k: int| 0 <= k < all.len() && all[k] == x;
            all.lemma_filter_contains(f, k);
        }
        if w.contains(x) {
            all.lemma_filter_contains_rev(f, x);
        }
    }
    assert forall|i: int| 0 <= i < w.len() implies (#[trigger] w[i]).id@ != id by {
        let p = without_rule_set(all.drop_last(), id);
        if i < p.len() {
            assert(w[i] == p[i]);
        }
    }
}

pub fn delete_rule_set(all: Vec<RuleSet>, id: &str) -> (r: Vec<RuleSet>)
    ensures
        r@ == without_rule_set(all@, id@),
{
    let mut all = all;
    let ghost orig = all@;
    let mut kept: Vec<RuleSet> = Vec::new();
    let mut rest: Vec<RuleSet> = Vec::new();
    while all.len() > 0
        invariant
            all@ + rest@.reverse() == orig,
        decreases all.len(),
    {
        let ghost a0 = all@;
        let ghost r0 = rest@;
        let x = all.pop().unwrap();
        assert(r0.push(x).reverse() =~= seq![x] + r0.reverse());
        assert(a0 =~= all@.push(x));
        rest.push(x);
        assert(all@ + rest@.reverse() =~= orig);
    }
    assert(rest@.reverse() =~= orig);
    let ghost mut k: int = 0;
    assert(orig.take(0) =~= Seq::<RuleSet>::empty());
    while rest.len() > 0
        invariant
            0 <= k <= orig.len(),
            rest@.reverse() == orig.skip(k),
            kept@ == without_rule_set(orig.take(k), id@),
        decreases rest.len(),
    {
        let ghost r0 = rest@;
        let x = rest.pop().unwrap();
        proof {
            assert(r0 =~= rest@.push(x));
            assert(r0.reverse() =~= seq![x] + rest@.reverse());
            assert(orig.skip(k).len() == r0.len());
            assert(orig.skip(k)[0] == orig[k]);
            assert(orig.skip(k + 1) =~= orig.skip(k).drop_first());
            assert(orig.take(k + 1).drop_last() =~= orig.take(k));
            assert(orig.take(k + 1).last() == x);
        }
        if !str_eq(x.id.as_str(), id) {
            kept.push(x);
        }
        proof { k = k + 1; }
    }
    assert(orig.take(k) =~= orig);
    kept
}

} // verus!
