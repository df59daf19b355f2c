//! Previewing a rule set: for each scanned file, the first rule that applies,
//! the chain of operations its actions make, the conflicts among targets, and
//! the preview's counts.
use vstd::prelude::*;
use crate::clock::now_rfc3339;
use crate::ids::new_uuid;
use crate::media_scan::capped;
use crate::matcher::{facts_valid, functional, group_holds, instants_of, FileFacts};
use crate::media_plan::{numbered_candidate, numbered_path};
use crate::models::{
    Action, ChangeDetail, Conflict, ConflictStrategy, FileSnapshot, FileTarget, JsonValue, PlannedOperation, PreviewError,
    PreviewItem, PreviewResult, PreviewSummary, Rule, RuleSet,
};
use crate::paths::{ext_or_empty, key_of, name_parts, parent_chars, parent_of, path_key, stem_or_empty};
use crate::text::{chars_of, concat_str, contains_str, owned, string_of, sviews};
use crate::transformer::{compute_target, rename_target, route_target, PathMeta, TransformContext};

verus! {

// -------------------------------------------------------------- targets

/// A probe of the disk: the snapshot of the file at a path, `None` when there is none.
pub open spec fn probe_ok<P: Fn(&str) -> Option<FileSnapshot>>(probe: P) -> bool {
    forall|p: &str| #[trigger] probe.requires((p,))
}

/// Whether the probe reported `path` free.
pub open spec fn reported_free<P: Fn(&str) -> Option<FileSnapshot>>(probe: P, path: Seq<char>) -> bool {
    exists|p: &str, s: Option<FileSnapshot>| #[trigger] call_ensures(probe, (p,), s) && p@ == path && s is None
}

/// Whether the probe reported a file at `path`.
pub open spec fn reported_taken<P: Fn(&str) -> Option<FileSnapshot>>(probe: P, path: Seq<char>) -> bool {
    exists|p: &str, s: Option<FileSnapshot>| #[trigger] call_ensures(probe, (p,), s) && p@ == path && s is Some
}

/// The numbered variant `k` of `initial` is reserved or reported on disk.
pub open spec fn numbered_taken<P: Fn(&str) -> Option<FileSnapshot>>(probe: P, reserved: Seq<Seq<char>>, initial: Seq<char>, k: nat, windows: bool) -> bool {
    reserved.contains(key_of(numbered_path(initial, k, windows), windows)) || reported_taken(probe, numbered_path(initial, k, windows))
}

/// `r` is the first numbered variant of `initial`, from 2 on, that is neither
/// reserved nor reported on disk (every smaller one is), or `initial` when all
/// 9998 are taken.
pub open spec fn first_free_variant<P: Fn(&str) -> Option<FileSnapshot>>(probe: P, reserved: Seq<Seq<char>>, initial: Seq<char>, r: Seq<char>, windows: bool) -> bool {
    ||| exists|k: nat| #![trigger numbered_path(initial, k, windows)] 2 <= k <= 9999 && r == numbered_path(initial, k, windows)
            && !reserved.contains(key_of(r, windows)) && reported_free(probe, r)
            && forall|j: nat| 2 <= j < k ==> #[trigger] numbered_taken(probe, reserved, initial, j, windows)
    ||| r == initial && forall|k: nat| 2 <= k <= 9999 ==> #[trigger] numbered_taken(probe, reserved, initial, k, windows)
}

/// The first numbered variant of `initial` that is neither on disk nor
/// reserved, or `initial` when none of the 9998 is.
pub fn next_available_target<P: Fn(&str) -> Option<FileSnapshot>>(initial: &str, reserved: &Vec<String>, probe: &P, windows: bool) -> (r: String)
    requires
        probe_ok(*probe),
    ensures
        first_free_variant(*probe, sviews(reserved@), initial@, r@, windows),
        r@ == initial@ || exists|k: nat| 2 <= k <= 9999 && r@ == numbered_path(initial@, k, windows),
        r@ != initial@ ==> !sviews(reserved@).contains(key_of(r@, windows)) && reported_free(*probe, r@),
        (!sviews(reserved@).contains(key_of(r@, windows)) && reported_free(*probe, r@)) || (r@ == initial@ && forall|k: nat| 2 <= k <= 9999
            ==> sviews(reserved@).contains(key_of(numbered_path(initial@, k, windows), windows)) || #[trigger] reported_taken(*probe, numbered_path(initial@, k, windows))),
{
    let iv = chars_of(initial);
    let (_name, stem, ext) = name_parts(&iv);
    let parent = match parent_chars(&iv) {
        Some(p) => p,
        None => {
            let mut d: Vec<char> = Vec::new();
            d.push('.');
            assert(d@ =~= seq!['.']);
            d
        },
    };
    let mut counter: u64 = 2;
    while counter <= 9999
        invariant
            2 <= counter <= 10000,
            probe_ok(*probe),
            parent@ == (match parent_of(initial@) { Some(p) => p, None => seq!['.'] }),
            stem@ == stem_or_empty(initial@),
            ext@ == ext_or_empty(initial@),
            forall|k: nat| 2 <= k < counter ==> sviews(reserved@).contains(key_of(numbered_path(initial@, k, windows), windows))
                || #[trigger] reported_taken(*probe, numbered_path(initial@, k, windows)),
            forall|k: nat| 2 <= k < counter ==> #[trigger] numbered_taken(*probe, sviews(reserved@), initial@, k, windows),
        decreases 10000 - counter,
    {
        let candidate = numbered_candidate(&parent, &stem, &ext, counter, windows);
        assert(candidate@ == numbered_path(initial@, counter as nat, windows));
        let cs = candidate.as_str();
        let found = probe(cs);
        let key = path_key(cs, windows);
        if found.is_none() && !contains_str(reserved, key.as_str()) {
            assert(call_ensures(*probe, (cs,), found) && cs@ == candidate@ && found is None);
            assert(first_free_variant(*probe, sviews(reserved@), initial@, candidate@, windows)) by {
                assert(candidate@ == numbered_path(initial@, counter as nat, windows));
            }
            return candidate;
        }
        assert(sviews(reserved@).contains(key_of(numbered_path(initial@, counter as nat, windows), windows))
            || reported_taken(*probe, numbered_path(initial@, counter as nat, windows))) by {
            if found.is_some() {
                assert(call_ensures(*probe, (cs,), found) && cs@ == numbered_path(initial@, counter as nat, windows) && found is Some);
            }
        }
        assert(numbered_taken(*probe, sviews(reserved@), initial@, counter as nat, windows));
        counter = counter + 1;
    }
    owned(initial)
}

/// A target for an action, and the conflict met on the way: a target already
/// on disk is a name collision, one taken by an earlier file of the preview a
/// batch collision. Auto-rename moves on to a free numbered variant; the other
/// strategies keep the target. Its key is reserved either way.
pub fn resolve_target<P: Fn(&str) -> Option<FileSnapshot>>(
    initial: String,
    strategy: ConflictStrategy,
    reserved: &mut Vec<String>,
    probe: &P,
    windows: bool,
) -> (r: (String, Option<Conflict>))
    requires
        probe_ok(*probe),
    ensures
        sviews(final(reserved)@) == sviews(old(reserved)@).push(key_of(r.0@, windows)),
        r.1 is None ==> r.0@ == initial@ && !sviews(old(reserved)@).contains(key_of(initial@, windows)) && reported_free(*probe, initial@),
        r.1 matches Some(c) ==> {
            &&& (c.conflict_type@ == "name_collision"@ && c.existing_file is Some && reported_taken(*probe, initial@))
                || (c.conflict_type@ == "batch_name_collision"@ && c.existing_file is None && sviews(old(reserved)@).contains(key_of(initial@, windows)))
            &&& c.resolution == strategy
            &&& c.resolved_path@ == r.0@
            &&& strategy != ConflictStrategy::AutoRename ==> r.0@ == initial@
            &&& strategy == ConflictStrategy::AutoRename ==> (r.0@ == initial@ || (exists|k: nat| 2 <= k <= 9999 && r.0@ == numbered_path(initial@, k, windows))
                && !sviews(old(reserved)@).contains(key_of(r.0@, windows)) && reported_free(*probe, r.0@))
            &&& strategy == ConflictStrategy::AutoRename ==> (!sviews(old(reserved)@).contains(key_of(r.0@, windows)) && reported_free(*probe, r.0@))
                || (r.0@ == initial@ && forall|k: nat| 2 <= k <= 9999 ==> sviews(old(reserved)@).contains(key_of(numbered_path(initial@, k, windows), windows))
                    || #[trigger] reported_taken(*probe, numbered_path(initial@, k, windows)))
            &&& strategy == ConflictStrategy::AutoRename ==> first_free_variant(*probe, sviews(old(reserved)@), initial@, r.0@, windows)
        },
{
    let ghost u0 = sviews(reserved@);
    let key = path_key(initial.as_str(), windows);
    let s0 = initial.as_str();
    let existing = probe(s0);
    let on_disk = existing.is_some();
    let in_batch = contains_str(reserved, key.as_str());
    if !on_disk && !in_batch {
        assert(call_ensures(*probe, (s0,), existing) && s0@ == initial@ && existing is None);
        reserved.push(key);
        assert(sviews(reserved@) =~= u0.push(key_of(initial@, windows)));
        return (initial, None);
    }
    assert(on_disk ==> call_ensures(*probe, (s0,), existing) && s0@ == initial@ && existing is Some);
    let conflict_type = if on_disk { owned("name_collision") } else { owned("batch_name_collision") };
    let resolved = if strategy == ConflictStrategy::AutoRename {
        next_available_target(initial.as_str(), reserved, probe, windows)
    } else {
        initial
    };
    let rk = path_key(resolved.as_str(), windows);
    reserved.push(rk);
    assert(sviews(reserved@) =~= u0.push(key_of(resolved@, windows)));
    let resolved_path = owned(resolved.as_str());
    (resolved, Some(Conflict { conflict_type, existing_file: existing, resolution: strategy, resolved_path }))
}

// ------------------------------------------------------------ one file

/// The first enabled rule whose conditions the file meets.
pub open spec fn first_rule(rules: Seq<Rule>, f: FileFacts, inst: spec_fn(JsonValue) -> Option<i64>) -> Option<int>
    decreases rules.len(),
{
    if rules.len() == 0 {
        None
    } else {
        match first_rule(rules.drop_last(), f, inst) {
            Some(i) => Some(i),
            None => if rules.last().enabled && group_holds(f, rules.last().condition_group, inst) {
                Some(rules.len() - 1)
            } else {
                None
            },
        }
    }
}

/// The rule a file takes is the first enabled rule whose conditions it meets:
/// that rule is enabled and met, no enabled rule before it is met, and a file
/// that meets no enabled rule takes none.
pub proof fn lemma_first_rule(rules: Seq<Rule>, f: FileFacts, inst: spec_fn(JsonValue) -> Option<i64>)
    ensures
        first_rule(rules, f, inst) matches Some(i) ==> 0 <= i < rules.len() && rules[i].enabled
            && group_holds(f, rules[i].condition_group, inst)
            && forall|j: int| 0 <= j < i ==> !(#[trigger] rules[j].enabled && group_holds(f, rules[j].condition_group, inst)),
        first_rule(rules, f, inst) is None <==> forall|j: int| 0 <= j < rules.len()
            ==> !(#[trigger] rules[j].enabled && group_holds(f, rules[j].condition_group, inst)),
    decreases rules.len(),
{
    if rules.len() > 0 {
        let r0 = rules.drop_last();
        lemma_first_rule(r0, f, inst);
        assert forall|j: int| 0 <= j < r0.len() implies #[trigger] r0[j] == rules[j] by {}
        let n = rules.len() - 1;
        assert(rules.last() == rules[n]);
        if first_rule(r0, f, inst) is None {
            if !(rules[n].enabled && group_holds(f, rules[n].condition_group, inst)) {
                assert forall|j: int| 0 <= j < rules.len() implies !(#[trigger] rules[j].enabled && group_holds(f, rules[j].condition_group, inst)) by {
                    if j < n {
                        assert(r0[j] == rules[j]);
                    }
                }
            } else {
                assert forall|j: int| 0 <= j < n implies !(#[trigger] rules[j].enabled && group_holds(f, rules[j].condition_group, inst)) by {
                    assert(r0[j] == rules[j]);
                }
            }
        } else {
            let i = first_rule(r0, f, inst)->Some_0;
            assert(r0[i] == rules[i]);
            assert forall|j: int| 0 <= j < i implies !(#[trigger] rules[j].enabled && group_holds(f, rules[j].condition_group, inst)) by {
                assert(r0[j] == rules[j]);
            }
        }
    }
}

/// The operations run one after another on the same file: each starts where
/// the previous one left it, and a delete ends the chain.
pub open spec fn chain_ok(ops: Seq<PlannedOperation>, path: Seq<char>) -> bool {
    &&& ops.len() >= 1
    &&& ops[0].source_path@ == path
    &&& forall|k: int| 1 <= k < ops.len() ==> (#[trigger] ops[k]).source_path@ == ops[k - 1].target_path@
        && ops[k - 1].action_type@ != "delete"@
}

/// Where the chain leaves the file.
pub open spec fn chain_end(ops: Seq<PlannedOperation>, path: Seq<char>) -> Seq<char> {
    if ops.len() == 0 {
        path
    } else if ops.last().action_type@ == "delete"@ {
        ops.last().source_path@
    } else {
        ops.last().target_path@
    }
}

pub open spec fn action_name(a: Action) -> Seq<char> {
    match a {
        Action::Rename(_) => "rename"@,
        Action::Move(_) => "move"@,
        Action::Copy(_) => "copy"@,
        Action::Delete(_) => "delete"@,
    }
}

fn action_type_of(a: &Action) -> (r: String)
    ensures
        r@ == action_name(*a),
{
    match a {
        Action::Rename(_) => owned("rename"),
        Action::Move(_) => owned("move"),
        Action::Copy(_) => owned("copy"),
        Action::Delete(_) => owned("delete"),
    }
}

/// Where an action takes a file, for the given metadata and counter state.
pub open spec fn action_target(source: Seq<char>, action: Action, meta: PathMeta, ctx: TransformContext, windows: bool) -> Option<Seq<char>> {
    match action {
        Action::Rename(p) => match rename_target(source, p, meta, ctx, windows) {
            Some((t, _)) => Some(t),
            None => None,
        },
        Action::Move(p) => route_target(source, p, meta, ctx, windows),
        Action::Copy(p) => route_target(source, p, meta, ctx, windows),
        Action::Delete(_) => None,
    }
}

/// The conflict strategy an action plans with: a rename skips.
pub open spec fn action_strategy(action: Action) -> ConflictStrategy {
    match action {
        Action::Move(p) => p.conflict_strategy,
        Action::Copy(p) => p.conflict_strategy,
        _ => ConflictStrategy::Skip,
    }
}

/// `t` is `base` or one of its numbered variants.
pub open spec fn base_or_variant(t: Seq<char>, base: Seq<char>, windows: bool) -> bool {
    t == base || exists|k: nat| 2 <= k <= 9999 && t == #[trigger] numbered_path(base, k, windows)
}

/// `meta_of` gave `m` for `path`.
pub open spec fn meta_read<M: Fn(&str) -> PathMeta>(meta_of: M, path: Seq<char>, m: PathMeta) -> bool {
    exists|p: &str| #[trigger] call_ensures(meta_of, (p,), m) && p@ == path
}

/// The counter state after an action: a rename that gives a name moves it on.
pub open spec fn ctx_after(action: Action, path: Seq<char>, meta: PathMeta, ctx: TransformContext, windows: bool) -> TransformContext {
    match action {
        Action::Rename(p) => match rename_target(path, p, meta, ctx, windows) {
            Some((_, c)) => c,
            None => ctx,
        },
        _ => ctx,
    }
}

/// The operation moves, copies or renames the file at `cur` to `t` or a
/// numbered variant of it, as the action says.
pub open spec fn moved_op(op: PlannedOperation, action: Action, cur: Seq<char>, t: Seq<char>, windows: bool) -> bool {
    &&& op.action_type@ == action_name(action)
    &&& op.conflict_strategy == Some(action_strategy(action))
    &&& !op.requires_confirmation
    &&& op.source_path@ == cur
    &&& base_or_variant(op.target_path@, t, windows)
}

/// The operation deletes the file at `cur`.
pub open spec fn delete_op(op: PlannedOperation, cur: Seq<char>, confirm: bool) -> bool {
    &&& op.action_type@ == "delete"@
    &&& op.source_path@ == cur
    &&& op.target_path@ == ""@
    &&& op.conflict_strategy is None
    &&& op.requires_confirmation == confirm
}

/// One action of a rule applied to the file at `cur` with counter state `ctx`:
/// a delete gives the operation `ops[n0]`; another action reads the file's
/// metadata `meta`, moves the counter on to `ctx2`, and gives the operation
/// `ops[n0]` exactly when it takes the file to a new place (`next` is then where
/// the operation leaves it); `n1` counts the operations so far.
pub open spec fn plan_step<M: Fn(&str) -> PathMeta>(
    action: Action,
    cur: Seq<char>,
    next: Seq<char>,
    meta: PathMeta,
    ctx: TransformContext,
    ctx2: TransformContext,
    n0: int,
    n1: int,
    ops: Seq<PlannedOperation>,
    meta_of: M,
    windows: bool,
) -> bool {
    match action {
        Action::Delete(d) => n1 == n0 + 1 && 0 <= n0 < ops.len() && delete_op(ops[n0], cur, d.confirm_required)
            && ctx2 == ctx && next == cur,
        _ => meta_read(meta_of, cur, meta) && ctx2 == ctx_after(action, cur, meta, ctx, windows) && match action_target(cur, action, meta, ctx, windows) {
            Some(t) => if key_of(t, windows) == key_of(cur, windows) {
                n1 == n0 && next == cur
            } else {
                n1 == n0 + 1 && 0 <= n0 < ops.len() && moved_op(ops[n0], action, cur, t, windows) && next == ops[n0].target_path@
            },
            None => n1 == n0 && next == cur,
        },
    }
}

/// The first `n` actions applied in turn from `path`, starting from the
/// default counter: `curs` are where the file stands before each, `ctxs` the
/// counter states, `metas` the metadata read, `opn` the operations given before
/// each. The plan stops early only after a delete.
pub open spec fn plan_trace<M: Fn(&str) -> PathMeta>(
    actions: Seq<Action>,
    path: Seq<char>,
    ops: Seq<PlannedOperation>,
    meta_of: M,
    windows: bool,
    metas: Seq<PathMeta>,
    ctxs: Seq<TransformContext>,
    curs: Seq<Seq<char>>,
    opn: Seq<int>,
    n: int,
) -> bool {
    &&& 0 <= n <= actions.len()
    &&& metas.len() == n && ctxs.len() == n + 1 && curs.len() == n + 1 && opn.len() == n + 1
    &&& ctxs[0].sequence == 1 && ctxs[0].seq_padding == 3
    &&& curs[0] == path
    &&& opn[0] == 0
    &&& opn[n] == ops.len()
    &&& forall|a: int| 0 <= a < n ==> #[trigger] plan_step(actions[a], curs[a], curs[a + 1], metas[a], ctxs[a], ctxs[a + 1],
        opn[a], opn[a + 1], ops, meta_of, windows)
    &&& n < actions.len() ==> n > 0 && actions[n - 1] is Delete
}

/// The operations are what the actions give, in order: one for each action that
/// takes the file to a new place (and for a delete, which ends the plan), none
/// for the others, with the metadata `meta_of` gave and the counter carried from
/// its default through the actions.
pub open spec fn plan_follows<M: Fn(&str) -> PathMeta>(actions: Seq<Action>, path: Seq<char>, ops: Seq<PlannedOperation>, meta_of: M, windows: bool) -> bool {
    exists|metas: Seq<PathMeta>, ctxs: Seq<TransformContext>, curs: Seq<Seq<char>>, opn: Seq<int>, n: int|
        #[trigger] plan_trace(actions, path, ops, meta_of, windows, metas, ctxs, curs, opn, n)
}

/// The action offers the file at `path` no place but its own: it is no delete,
/// and with what `meta_of` gave for the path, its target is none or the path.
pub open spec fn offers_no_place<M: Fn(&str) -> PathMeta>(action: Action, path: Seq<char>, meta_of: M, windows: bool) -> bool {
    &&& !(action is Delete)
    &&& exists|p: &str, meta: PathMeta, ctx: TransformContext|
        #![trigger call_ensures(meta_of, (p,), meta), action_target(path, action, meta, ctx, windows)]
        call_ensures(meta_of, (p,), meta) && p@ == path && match action_target(path, action, meta, ctx, windows) {
            Some(t) => key_of(t, windows) == key_of(path, windows),
            None => true,
        }
}

/// The plan of a rule for one file: its actions in turn, from where the
/// previous one left the file; actions that give no new place are passed over.
fn plan_rule<P: Fn(&str) -> Option<FileSnapshot>, M: Fn(&str) -> PathMeta>(
    path: &str,
    rule: &Rule,
    reserved: &mut Vec<String>,
    probe: &P,
    meta_of: &M,
    windows: bool,
) -> (r: (Vec<ChangeDetail>, Vec<PlannedOperation>, Option<Conflict>, String))
    requires
        probe_ok(*probe),
        forall|p: &str| #[trigger] meta_of.requires((p,)),
    ensures
        r.0@.len() == r.1@.len(),
        r.1@.len() > 0 ==> chain_ok(r.1@, path@),
        r.3@ == chain_end(r.1@, path@),
        forall|k: int| 0 <= k < r.0@.len() ==> (#[trigger] r.0@[k]).rule_id@ == rule.id@ && r.0@[k].rule_name@ == rule.name@
            && r.0@[k].action_type@ == r.1@[k].action_type@,
        plan_follows(rule.actions@, path@, r.1@, *meta_of, windows),
        r.1@.len() == 0 ==> forall|a: int| 0 <= a < rule.actions@.len() ==> offers_no_place(#[trigger] rule.actions@[a], path@, *meta_of, windows),
{
    let mut ctx = TransformContext::default();
    let ghost mut metas: Seq<PathMeta> = Seq::empty();
    let ghost mut ctxs: Seq<TransformContext> = seq![ctx];
    let ghost mut curs: Seq<Seq<char>> = seq![path@];
    let ghost mut opn: Seq<int> = seq![0int];
    let mut changes: Vec<ChangeDetail> = Vec::new();
    let mut ops: Vec<PlannedOperation> = Vec::new();
    let mut target_path = owned(path);
    let mut conflict: Option<Conflict> = None;
    let mut i: usize = 0;
    while i < rule.actions.len()
        invariant
            i <= rule.actions.len(),
            probe_ok(*probe),
            forall|p: &str| #[trigger] meta_of.requires((p,)),
            changes@.len() == ops@.len(),
            ops@.len() > 0 ==> chain_ok(ops@, path@),
            ops@.len() > 0 ==> ops@.last().action_type@ != "delete"@,
            target_path@ == chain_end(ops@, path@),
            forall|k: int| 0 <= k < changes@.len() ==> (#[trigger] changes@[k]).rule_id@ == rule.id@ && changes@[k].rule_name@ == rule.name@
                && changes@[k].action_type@ == ops@[k].action_type@,
            metas.len() == i && ctxs.len() == i + 1 && curs.len() == i + 1 && opn.len() == i + 1,
            ctxs[0].sequence == 1 && ctxs[0].seq_padding == 3,
            curs[0] == path@,
            opn[0] == 0,
            opn[i as int] == ops@.len(),
            ctxs[i as int] == ctx,
            curs[i as int] == target_path@,
            forall|a: int| 0 <= a < i ==> #[trigger] plan_step(rule.actions@[a], curs[a], curs[a + 1], metas[a], ctxs[a], ctxs[a + 1],
                opn[a], opn[a + 1], ops@, *meta_of, windows),
            forall|a: int| 0 <= a <= i ==> 0 <= #[trigger] opn[a] <= ops@.len(),
            ops@.len() == 0 ==> forall|a: int| 0 <= a < i ==> offers_no_place(#[trigger] rule.actions@[a], path@, *meta_of, windows),
        decreases rule.actions.len() - i,
    {
        let action = &rule.actions[i];
        let action_type = action_type_of(action);
        let ghost ops0 = ops@;
        if let Action::Delete(params) = action {
            changes.push(ChangeDetail {
                rule_id: owned(rule.id.as_str()),
                rule_name: owned(rule.name.as_str()),
                action_type: owned("delete"),
                description: concat_str("删除 ", target_path.as_str()),
            });
            ops.push(PlannedOperation {
                action_type: owned("delete"),
                source_path: owned(target_path.as_str()),
                target_path: owned(""),
                conflict_strategy: None,
                expected_target_exists: false,
                expected_target_hash: None,
                requires_confirmation: params.confirm_required,
            });
            proof {
                reveal_strlit("delete");
                reveal_strlit("");
                assert(ops@.drop_last() == ops0);
                let m0 = metas;
                let c0 = ctxs;
                let u0 = curs;
                let o0 = opn;
                metas = m0.push(arbitrary());
                ctxs = c0.push(ctx);
                curs = u0.push(target_path@);
                opn = o0.push(ops@.len() as int);
                assert forall|a: int| 0 <= a < i + 1 implies #[trigger] plan_step(rule.actions@[a], curs[a], curs[a + 1], metas[a], ctxs[a], ctxs[a + 1],
                    opn[a], opn[a + 1], ops@, *meta_of, windows) by {
                    if a < i {
                        assert(plan_step(rule.actions@[a], u0[a], u0[a + 1], m0[a], c0[a], c0[a + 1], o0[a], o0[a + 1], ops0, *meta_of, windows));
                        assert(0 <= o0[a] <= ops0.len());
                        assert(0 <= o0[a + 1] <= ops0.len());
                        if o0[a] < ops0.len() {
                            assert(ops@[o0[a]] == ops0[o0[a]]);
                        }
                    } else {
                        assert(ops@[o0[a]] == ops@.last());
                    }
                }
                assert(plan_trace(rule.actions@, path@, ops@, *meta_of, windows, metas, ctxs, curs, opn, i + 1));
            }
            return (changes, ops, conflict, target_path);
        }
        proof {
            reveal_strlit("rename");
            reveal_strlit("move");
            reveal_strlit("copy");
            reveal_strlit("delete");
            assert("rename"@[0] != "delete"@[0]);
            assert(action_type@ != "delete"@);
        }
        let here = target_path.as_str();
        let meta = meta_of(here);
        let ghost ctx0 = ctx;
        let ghost cur = target_path@;
        proof {
            assert(call_ensures(*meta_of, (here,), meta) && here@ == cur);
            assert(meta_read(*meta_of, cur, meta));
        }
        let base = match compute_target(target_path.as_str(), action, &meta, &mut ctx, windows) {
            Some(b) => b,
            None => {
                proof {
                    if ops@.len() == 0 {
                        assert(call_ensures(*meta_of, (here,), meta) && here@ == path@);
                        assert(action_target(path@, *action, meta, ctx0, windows) is None);
                        assert(offers_no_place(rule.actions@[i as int], path@, *meta_of, windows));
                    }
                    assert(ctx == ctx_after(*action, cur, meta, ctx0, windows));
                    metas = metas.push(meta);
                    ctxs = ctxs.push(ctx);
                    curs = curs.push(cur);
                    opn = opn.push(ops@.len() as int);
                    assert(plan_step(rule.actions@[i as int], curs[i as int], curs[i + 1], metas[i as int], ctxs[i as int], ctxs[i + 1],
                        opn[i as int], opn[i + 1], ops@, *meta_of, windows));
                }
                i = i + 1;
                continue;
            },
        };
        proof { assert(ctx == ctx_after(*action, cur, meta, ctx0, windows)); }
        if crate::paths::paths_equal(base.as_str(), target_path.as_str(), windows) {
            proof {
                if ops@.len() == 0 {
                    assert(call_ensures(*meta_of, (here,), meta) && here@ == path@);
                    assert(action_target(path@, *action, meta, ctx0, windows) == Some(base@));
                    assert(offers_no_place(rule.actions@[i as int], path@, *meta_of, windows));
                }
                metas = metas.push(meta);
                ctxs = ctxs.push(ctx);
                curs = curs.push(cur);
                opn = opn.push(ops@.len() as int);
                assert(action_target(cur, *action, meta, ctx0, windows) == Some(base@));
                assert(plan_step(rule.actions@[i as int], curs[i as int], curs[i + 1], metas[i as int], ctxs[i as int], ctxs[i + 1],
                    opn[i as int], opn[i + 1], ops@, *meta_of, windows));
            }
            i = i + 1;
            continue;
        }
        let strategy = match action {
            Action::Move(p) => p.conflict_strategy,
            Action::Copy(p) => p.conflict_strategy,
            _ => ConflictStrategy::Skip,
        };
        let initial = owned(base.as_str());
        let (resolved, action_conflict) = resolve_target(base, strategy, reserved, probe, windows);
        let (expected_exists, expected_hash) = match &action_conflict {
            Some(c) => match &c.existing_file {
                Some(snap) => {
                    if crate::text::str_eq(resolved.as_str(), initial.as_str()) {
                        let hv = chars_of(snap.sha256.as_str());
                        (true, if hv.len() > 0 { Some(owned(snap.sha256.as_str())) } else { None })
                    } else {
                        (false, None)
                    }
                },
                None => (false, None),
            },
            None => (false, None),
        };
        if conflict.is_none() {
            conflict = action_conflict;
        }
        let a = concat_str(target_path.as_str(), " → ");
        let desc = concat_str(a.as_str(), resolved.as_str());
        changes.push(ChangeDetail {
            rule_id: owned(rule.id.as_str()),
            rule_name: owned(rule.name.as_str()),
            action_type: owned(action_type.as_str()),
            description: desc,
        });
        ops.push(PlannedOperation {
            action_type,
            source_path: owned(target_path.as_str()),
            target_path: owned(resolved.as_str()),
            conflict_strategy: Some(strategy),
            expected_target_exists: expected_exists,
            expected_target_hash: expected_hash,
            requires_confirmation: false,
        });
        proof {
            assert(ops@.drop_last() == ops0);
            let op = ops@.last();
            assert(action_target(cur, *action, meta, ctx0, windows) == Some(initial@));
            assert(base_or_variant(op.target_path@, initial@, windows));
            assert(moved_op(op, *action, cur, initial@, windows));
            let m0 = metas;
            let c0 = ctxs;
            let u0 = curs;
            let o0 = opn;
            metas = m0.push(meta);
            ctxs = c0.push(ctx);
            curs = u0.push(resolved@);
            opn = o0.push(ops@.len() as int);
            assert forall|a: int| 0 <= a < i + 1 implies #[trigger] plan_step(rule.actions@[a], curs[a], curs[a + 1], metas[a], ctxs[a], ctxs[a + 1],
                opn[a], opn[a + 1], ops@, *meta_of, windows) by {
                if a < i {
                    assert(plan_step(rule.actions@[a], u0[a], u0[a + 1], m0[a], c0[a], c0[a + 1], o0[a], o0[a + 1], ops0, *meta_of, windows));
                    assert(0 <= o0[a] <= ops0.len());
                    if o0[a] < ops0.len() {
                        assert(ops@[o0[a]] == ops0[o0[a]]);
                    }
                } else {
                    assert(ops@[o0[a]] == op);
                }
            }
        }
        target_path = resolved;
        i = i + 1;
    }
    assert(plan_trace(rule.actions@, path@, ops@, *meta_of, windows, metas, ctxs, curs, opn, i as int));
    (changes, ops, conflict, target_path)
}

/// The preview item of a file: from the first enabled rule it meets, when
/// that rule's actions change anything. `snapshot` reads the file as it is.
pub fn plan_file<P: Fn(&str) -> Option<FileSnapshot>, S: Fn(&str) -> FileSnapshot, M: Fn(&str) -> PathMeta, I: Fn(&JsonValue) -> Option<i64>>(
    facts: &FileFacts,
    rules: &Vec<Rule>,
    reserved: &mut Vec<String>,
    probe: &P,
    snapshot: &S,
    meta_of: &M,
    instant_of: &I,
    windows: bool,
) -> (r: Option<PreviewItem>)
    requires
        facts_valid(*facts),
        functional(*instant_of),
        probe_ok(*probe),
        forall|p: &str| #[trigger] snapshot.requires((p,)),
        forall|p: &str| #[trigger] meta_of.requires((p,)),
    ensures
        first_rule(rules@, *facts, instants_of(*instant_of)) is None ==> r is None && final(reserved)@ == old(reserved)@,
        r is None ==> (first_rule(rules@, *facts, instants_of(*instant_of)) matches Some(ri) ==> forall|a: int|
            0 <= a < rules@[ri].actions@.len() ==> offers_no_place(#[trigger] rules@[ri].actions@[a], facts.path@, *meta_of, windows)),
        r is None ==> (first_rule(rules@, *facts, instants_of(*instant_of)) matches Some(ri)
            ==> plan_follows(rules@[ri].actions@, facts.path@, Seq::<PlannedOperation>::empty(), *meta_of, windows)),
        r matches Some(item) ==> (first_rule(rules@, *facts, instants_of(*instant_of)) matches Some(ri) && {
            let rule = rules@[ri];
            &&& chain_ok(item.operations@, facts.path@)
            &&& item.changes@.len() == item.operations@.len()
            &&& forall|k: int| 0 <= k < item.changes@.len() ==> (#[trigger] item.changes@[k]).rule_id@ == rule.id@
                && item.changes@[k].rule_name@ == rule.name@ && item.changes@[k].action_type@ == item.operations@[k].action_type@
            &&& item.target.path@ == chain_end(item.operations@, facts.path@)
            &&& item.checked
            &&& plan_follows(rule.actions@, facts.path@, item.operations@, *meta_of, windows)
            &&& exists|p: &str| #[trigger] call_ensures(*snapshot, (p,), item.source) && p@ == facts.path@
        }),
{
    let ghost inst = instants_of(*instant_of);
    let mut i: usize = 0;
    while i < rules.len()
        invariant
            i <= rules.len(),
            facts_valid(*facts),
            functional(*instant_of),
            inst == instants_of(*instant_of),
            probe_ok(*probe),
            forall|p: &str| #[trigger] snapshot.requires((p,)),
            forall|p: &str| #[trigger] meta_of.requires((p,)),
            first_rule(rules@.take(i as int), *facts, inst) is None,
            *reserved == *old(reserved),
        decreases rules.len() - i,
    {
        assert(rules@.take(i + 1).drop_last() =~= rules@.take(i as int));
        assert(rules@.take(i + 1).last() == rules@[i as int]);
        let rule = &rules[i];
        if rule.enabled && crate::matcher::matches(facts, &rule.condition_group, instant_of) {
            proof { lemma_first_rule_prefix(rules@, i + 1, *facts, inst); }
            let (changes, ops, conflict, target) = plan_rule(facts.path.as_str(), rule, reserved, probe, meta_of, windows);
            if changes.len() == 0 {
                assert(ops@ =~= Seq::<PlannedOperation>::empty());
                return None;
            }
            let sp = facts.path.as_str();
            let source = snapshot(sp);
            assert(call_ensures(*snapshot, (sp,), source) && sp@ == facts.path@);
            let tv = chars_of(target.as_str());
            let (name, _s, _e) = name_parts(&tv);
            let item = PreviewItem {
                id: new_uuid(),
                checked: true,
                source,
                target: FileTarget { path: target, name: string_of(&name) },
                changes,
                conflict,
                operations: ops,
            };
            assert(call_ensures(*snapshot, (sp,), item.source) && sp@ == facts.path@);
            return Some(item);
        }
        i = i + 1;
    }
    assert(rules@.take(rules.len() as int) =~= rules@);
    None
}

proof fn lemma_first_rule_prefix(rules: Seq<Rule>, n: int, f: FileFacts, inst: spec_fn(JsonValue) -> Option<i64>)
    requires
        0 <= n <= rules.len(),
        first_rule(rules.take(n), f, inst) is Some,
    ensures
        first_rule(rules, f, inst) == first_rule(rules.take(n), f, inst),
    decreases rules.len() - n,
{
    if n < rules.len() {
        assert(rules.take(n + 1).drop_last() =~= rules.take(n));
        lemma_first_rule_prefix(rules, n + 1, f, inst);
    } else {
        assert(rules.take(n) =~= rules);
    }
}

// ------------------------------------------------------------ the preview

/// How many changes of the items are of the kind `name`.
pub open spec fn change_count(items: Seq<PreviewItem>, name: Seq<char>) -> int
    decreases items.len(),
{
    if items.len() == 0 {
        0
    } else {
        change_count(items.drop_last(), name) + kind_count(items.last().changes@, name)
    }
}

pub open spec fn kind_count(changes: Seq<ChangeDetail>, name: Seq<char>) -> int
    decreases changes.len(),
{
    if changes.len() == 0 {
        0
    } else {
        kind_count(changes.drop_last(), name) + if changes.last().action_type@ == name { 1int } else { 0int }
    }
}

/// How many items meet a conflict.
pub open spec fn conflict_count(items: Seq<PreviewItem>) -> int
    decreases items.len(),
{
    if items.len() == 0 {
        0
    } else {
        conflict_count(items.drop_last()) + if items.last().conflict is Some { 1int } else { 0int }
    }
}

proof fn lemma_counts_nonneg(items: Seq<PreviewItem>, name: Seq<char>)
    ensures
        change_count(items, name) >= 0,
        conflict_count(items) >= 0,
    decreases items.len(),
{
    if items.len() > 0 {
        lemma_counts_nonneg(items.drop_last(), name);
        lemma_kind_nonneg(items.last().changes@, name);
    }
}

proof fn lemma_kind_nonneg(changes: Seq<ChangeDetail>, name: Seq<char>)
    ensures
        kind_count(changes, name) >= 0,
    decreases changes.len(),
{
    if changes.len() > 0 {
        lemma_kind_nonneg(changes.drop_last(), name);
    }
}

fn count_kind(items: &Vec<PreviewItem>, name: &str) -> (r: u64)
    ensures
        r == capped(change_count(items@, name@)),
{
    let mut total: u64 = 0;
    let mut i: usize = 0;
    while i < items.len()
        invariant
            i <= items.len(),
            total == capped(change_count(items@.take(i as int), name@)),
        decreases items.len() - i,
    {
        assert(items@.take(i + 1).drop_last() =~= items@.take(i as int));
        proof { lemma_counts_nonneg(items@.take(i as int), name@); }
        let changes = &items[i].changes;
        let mut j: usize = 0;
        let ghost base = change_count(items@.take(i as int), name@);
        while j < changes.len()
            invariant
                j <= changes.len(),
                changes@ == items@[i as int].changes@,
                base >= 0,
                total == capped(base + kind_count(changes@.take(j as int), name@)),
                kind_count(changes@.take(j as int), name@) >= 0,
            decreases changes.len() - j,
        {
            assert(changes@.take(j + 1).drop_last() =~= changes@.take(j as int));
            if crate::text::str_eq(changes[j].action_type.as_str(), name) {
                total = total.saturating_add(1);
            }
            j = j + 1;
        }
        assert(changes@.take(changes.len() as int) =~= changes@);
        i = i + 1;
    }
    assert(items@.take(items.len() as int) =~= items@);
    total
}

/// The counts of a preview: scanned files, items, changes of each kind (each
/// capped at `u64::MAX`), items with a conflict, and errors.
pub fn preview_summary(items: &Vec<PreviewItem>, total_scanned: u64, errors: u64) -> (r: PreviewSummary)
    ensures
        r.total_scanned == total_scanned,
        r.matched == items@.len(),
        r.to_rename == capped(change_count(items@, "rename"@)),
        r.to_move == capped(change_count(items@, "move"@)),
        r.to_copy == capped(change_count(items@, "copy"@)),
        r.to_delete == capped(change_count(items@, "delete"@)),
        r.conflicts == conflict_count(items@),
        r.errors == errors,
{
    let mut conflicts: u64 = 0;
    let mut i: usize = 0;
    while i < items.len()
        invariant
            i <= items.len(),
            conflicts == conflict_count(items@.take(i as int)),
            conflicts <= i,
        decreases items.len() - i,
    {
        assert(items@.take(i + 1).drop_last() =~= items@.take(i as int));
        if items[i].conflict.is_some() {
            conflicts = conflicts + 1;
        }
        i = i + 1;
    }
    assert(items@.take(items.len() as int) =~= items@);
    PreviewSummary {
        total_scanned,
        matched: items.len() as u64,
        to_rename: count_kind(items, "rename"),
        to_move: count_kind(items, "move"),
        to_copy: count_kind(items, "copy"),
        to_delete: count_kind(items, "delete"),
        conflicts,
        errors,
    }
}

/// The item plans one of the files, which a rule applies to.
pub open spec fn item_of_file(item: PreviewItem, files: Seq<FileFacts>, rules: Seq<Rule>, inst: spec_fn(JsonValue) -> Option<i64>) -> bool {
    exists|f: int| 0 <= f < files.len() && #[trigger] chain_ok(item.operations@, files[f].path@) && first_rule(rules, files[f], inst) is Some
}

/// The items come from distinct files, in the files' order: item `k` plans file
/// `idx[k]`, which a rule applies to, and the indices increase.
pub open spec fn items_in_file_order<M: Fn(&str) -> PathMeta>(items: Seq<PreviewItem>, files: Seq<FileFacts>, rules: Seq<Rule>, inst: spec_fn(JsonValue) -> Option<i64>, meta_of: M, windows: bool) -> bool {
    exists|idx: Seq<int>| #[trigger] idx.len() == items.len() && planned_from(items, files, rules, inst, meta_of, windows, idx)
}

pub open spec fn planned_from<M: Fn(&str) -> PathMeta>(items: Seq<PreviewItem>, files: Seq<FileFacts>, rules: Seq<Rule>, inst: spec_fn(JsonValue) -> Option<i64>, meta_of: M, windows: bool, idx: Seq<int>) -> bool {
    &&& idx.len() == items.len()
    &&& forall|k: int| 0 <= k < idx.len() ==> 0 <= #[trigger] idx[k] < files.len()
        && chain_ok(items[k].operations@, files[idx[k]].path@) && first_rule(rules, files[idx[k]], inst) is Some
        && plan_follows(rules[first_rule(rules, files[idx[k]], inst)->0].actions@, files[idx[k]].path@, items[k].operations@, meta_of, windows)
    &&& forall|a: int, b: int| 0 <= a < b < idx.len() ==> #[trigger] idx[a] < #[trigger] idx[b]
}

/// No item is owed for the file: no enabled rule applies to it, or every action
/// of the first one offers it no place but its own.
pub open spec fn left_unplanned<M: Fn(&str) -> PathMeta>(f: FileFacts, rules: Seq<Rule>, inst: spec_fn(JsonValue) -> Option<i64>, meta_of: M, windows: bool) -> bool {
    match first_rule(rules, f, inst) {
        None => true,
        Some(ri) => (forall|a: int| 0 <= a < rules[ri].actions@.len() ==> offers_no_place(#[trigger] rules[ri].actions@[a], f.path@, meta_of, windows))
            && plan_follows(rules[ri].actions@, f.path@, Seq::<PlannedOperation>::empty(), meta_of, windows),
    }
}

/// The items come from the files in their order, and every file that none
/// of them plans is owed no item.
pub open spec fn items_cover_files<M: Fn(&str) -> PathMeta>(items: Seq<PreviewItem>, files: Seq<FileFacts>, rules: Seq<Rule>, inst: spec_fn(JsonValue) -> Option<i64>, meta_of: M, windows: bool) -> bool {
    exists|idx: Seq<int>| #[trigger] idx.len() == items.len() && planned_from(items, files, rules, inst, meta_of, windows, idx)
        && forall|j: int| 0 <= j < files.len() ==> (exists|k: int| 0 <= k < idx.len() && #[trigger] idx[k] == j)
            || left_unplanned(#[trigger] files[j], rules, inst, meta_of, windows)
}

/// A preview of a rule set over scanned files: an item per file that the first
/// rule it meets changes, in the files' order, each carrying out that rule's
/// actions; targets kept apart across the whole preview, and the counts.
/// `scan_errors` are the roots that could not be scanned.
pub fn analyze_preview<P: Fn(&str) -> Option<FileSnapshot>, S: Fn(&str) -> FileSnapshot, M: Fn(&str) -> PathMeta, I: Fn(&JsonValue) -> Option<i64>>(
    task_id: String,
    rule_set: &RuleSet,
    files: &Vec<FileFacts>,
    scan_errors: Vec<PreviewError>,
    probe: &P,
    snapshot: &S,
    meta_of: &M,
    instant_of: &I,
    windows: bool,
) -> (r: PreviewResult)
    requires
        forall|i: int| 0 <= i < files@.len() ==> facts_valid(#[trigger] files@[i]),
        functional(*instant_of),
        probe_ok(*probe),
        forall|p: &str| #[trigger] snapshot.requires((p,)),
        forall|p: &str| #[trigger] meta_of.requires((p,)),
    ensures
        r.task_id == task_id,
        r.rule_set_name@ == rule_set.name@,
        r.errors == scan_errors,
        r.summary.total_scanned == files@.len(),
        r.summary.matched == r.items@.len(),
        r.summary.errors == scan_errors@.len(),
        r.summary.conflicts == conflict_count(r.items@),
        r.summary.to_rename == capped(change_count(r.items@, "rename"@)),
        r.summary.to_move == capped(change_count(r.items@, "move"@)),
        r.summary.to_copy == capped(change_count(r.items@, "copy"@)),
        r.summary.to_delete == capped(change_count(r.items@, "delete"@)),
        r.items@.len() <= files@.len(),
        forall|k: int| 0 <= k < r.items@.len() ==> item_of_file(#[trigger] r.items@[k], files@, rule_set.rules@, instants_of(*instant_of)),
        items_in_file_order(r.items@, files@, rule_set.rules@, instants_of(*instant_of), *meta_of, windows),
        items_cover_files(r.items@, files@, rule_set.rules@, instants_of(*instant_of), *meta_of, windows),
        forall|k: int| 0 <= k < r.items@.len() ==> (#[trigger] r.items@[k]).checked && r.items@[k].changes@.len() > 0,
{
    let mut reserved: Vec<String> = Vec::new();
    let mut items: Vec<PreviewItem> = Vec::new();
    let ghost mut idx: Seq<int> = Seq::empty();
    let mut i: usize = 0;
    while i < files.len()
        invariant
            i <= files.len(),
            items@.len() <= i,
            forall|i: int| 0 <= i < files@.len() ==> facts_valid(#[trigger] files@[i]),
            functional(*instant_of),
            probe_ok(*probe),
            forall|p: &str| #[trigger] snapshot.requires((p,)),
            forall|p: &str| #[trigger] meta_of.requires((p,)),
            forall|k: int| 0 <= k < items@.len() ==> item_of_file(#[trigger] items@[k], files@, rule_set.rules@, instants_of(*instant_of)),
            planned_from(items@, files@, rule_set.rules@, instants_of(*instant_of), *meta_of, windows, idx),
            forall|k: int| 0 <= k < idx.len() ==> #[trigger] idx[k] < i,
            forall|j: int| 0 <= j < i ==> (exists|k: int| 0 <= k < idx.len() && #[trigger] idx[k] == j)
                || left_unplanned(#[trigger] files@[j], rule_set.rules@, instants_of(*instant_of), *meta_of, windows),
            forall|k: int| 0 <= k < items@.len() ==> (#[trigger] items@[k]).checked && items@[k].changes@.len() > 0,
        decreases files.len() - i,
    {
        let planned = plan_file(&files[i], &rule_set.rules, &mut reserved, probe, snapshot, meta_of, instant_of, windows);
        if let Some(item) = planned {
            let ghost before = items@;
            let ghost idx0 = idx;
            items.push(item);
            proof {
                idx = idx0.push(i as int);
            }
            assert forall|k: int| 0 <= k < items@.len() implies item_of_file(#[trigger] items@[k], files@, rule_set.rules@, instants_of(*instant_of)) by {
                if k < before.len() {
                    assert(items@[k] == before[k]);
                } else {
                    assert(chain_ok(items@[k].operations@, files@[i as int].path@));
                }
            }
            assert forall|k: int| 0 <= k < idx.len() implies 0 <= #[trigger] idx[k] < files@.len()
                && chain_ok(items@[k].operations@, files@[idx[k]].path@) && first_rule(rule_set.rules@, files@[idx[k]], instants_of(*instant_of)) is Some
                && plan_follows(rule_set.rules@[first_rule(rule_set.rules@, files@[idx[k]], instants_of(*instant_of))->0].actions@, files@[idx[k]].path@,
                    items@[k].operations@, *meta_of, windows) by {
                if k < before.len() {
                    assert(items@[k] == before[k] && idx[k] == idx0[k]);
                }
            }
            assert forall|a: int, b: int| 0 <= a < b < idx.len() implies #[trigger] idx[a] < #[trigger] idx[b] by {
                if b < idx0.len() {
                    assert(idx[a] == idx0[a] && idx[b] == idx0[b]);
                } else {
                    assert(idx[a] == idx0[a]);
                }
            }
            assert forall|j: int| 0 <= j < i + 1 implies (exists|k: int| 0 <= k < idx.len() && #[trigger] idx[k] == j)
                || left_unplanned(#[trigger] files@[j], rule_set.rules@, instants_of(*instant_of), *meta_of, windows) by {
                if j == i {
                    assert(idx[idx.len() - 1] == j);
                } else if !left_unplanned(files@[j], rule_set.rules@, instants_of(*instant_of), *meta_of, windows) {
                    let k = choose|k: int| 0 <= k < idx0.len() && #[trigger] idx0[k] == j;
                    assert(idx[k] == j);
                }
            }
            assert forall|k: int| 0 <= k < items@.len() implies (#[trigger] items@[k]).checked && items@[k].changes@.len() > 0 by {
                if k < before.len() {
                    assert(items@[k] == before[k]);
                }
            }
        }
        i = i + 1;
    }
    assert(items_in_file_order(items@, files@, rule_set.rules@, instants_of(*instant_of), *meta_of, windows)) by {
        assert(idx.len() == items@.len() && planned_from(items@, files@, rule_set.rules@, instants_of(*instant_of), *meta_of, windows, idx));
    }
    assert(items_cover_files(items@, files@, rule_set.rules@, instants_of(*instant_of), *meta_of, windows)) by {
        assert(idx.len() == items@.len() && planned_from(items@, files@, rule_set.rules@, instants_of(*instant_of), *meta_of, windows, idx));
    }
    let summary = preview_summary(&items, files.len() as u64, scan_errors.len() as u64);
    PreviewResult {
        task_id,
        rule_set_name: owned(rule_set.name.as_str()),
        generated_at: now_rfc3339(),
        summary,
        items,
        errors: scan_errors,
    }
}

} // verus!
