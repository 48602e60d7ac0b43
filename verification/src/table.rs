//! The scenario table: every scenario of a project with its place in the
//! methodology tree. Its abstract value is a map from scenario id to row.

use vstd::prelude::*;
use crate::positions::{
    Rows, siblings_ordered, has_position, has_position_except, detach_row, attach_row, detached,
    attached, moved, valid_slot, lemma_position_bounded, is_next_position, next_position,
    lemma_next_position_unique, lemma_append_child_ordered, lemma_detach_ordered,
    lemma_attach_ordered,
};
use crate::scenario::{
    MAX_SCENARIOS, MAX_SCENARIO_TREE_DEPTH, ScenarioId, ScenarioInfo, ScenarioRow, ScenarioType,
    Timestamp, LookupError, CreateScenarioError, MoveScenarioError, DeleteScenarioError,
    UpdateScenarioInfoError, ScenarioTreeNode,
};
use crate::tree::{
    Links, acyclic, depth_within, in_subtree, dist_to, lemma_depth_lt_fuel, lemma_dist_le_fuel,
    lemma_grow_acyclic, lemma_relink_acyclic, lemma_dist_depth, outside_subtree,
    lemma_cut_acyclic, lemma_in_subtree_stable,
};

verus! {

/// The parent links of a table.
pub open spec fn links(m: Rows) -> Links {
    m.map_values(|r: ScenarioRow| r.parent)
}

/// The fuel that bounds every chain of parents.
pub open spec fn tree_fuel() -> nat {
    MAX_SCENARIO_TREE_DEPTH as nat
}

/// Depth of a scenario (0 for a top-level one), if it is known and within bounds.
pub open spec fn depth_of(m: Rows, id: i64) -> Option<nat> {
    depth_within(links(m), id, tree_fuel())
}

/// `x` is `root` or lies below it.
pub open spec fn in_subtree_of(m: Rows, root: i64, x: i64) -> bool {
    in_subtree(links(m), root, x, tree_fuel())
}

/// Levels from `x` up to `root`.
pub open spec fn dist_below(m: Rows, root: i64, x: i64) -> nat {
    dist_to(links(m), root, x, tree_fuel())
}

/// No two scenarios share a user-defined id.
pub open spec fn user_ids_unique(m: Rows) -> bool {
    forall|a: i64, b: i64|
        #![trigger m.dom().contains(a), m.dom().contains(b)]
        m.dom().contains(a) && m.dom().contains(b) && a != b ==> m[a].info.user_defined_id@
            != m[b].info.user_defined_id@
}

/// What holds of every table: the key of each row is its id, there are at most
/// `MAX_SCENARIOS` rows, user-defined ids are unique, siblings are numbered
/// 1..n, and every scenario sits at depth below `MAX_SCENARIO_TREE_DEPTH`.
pub open spec fn table_invariant(m: Rows) -> bool {
    &&& m.dom().finite()
    &&& m.dom().len() <= MAX_SCENARIOS
    &&& forall|a: i64| #[trigger] m.dom().contains(a) ==> m[a].info.id.0 == a
    &&& user_ids_unique(m)
    &&& siblings_ordered(m)
    &&& acyclic(links(m), tree_fuel())
}

pub open spec fn ids_unique(s: Seq<ScenarioRow>) -> bool {
    forall|i: int, j: int|
        0 <= i < s.len() && 0 <= j < s.len() && #[trigger] s[i].info.id.0 == #[trigger] s[j].info.id.0
            ==> i == j
}

/// The map from id to row that a sequence of rows with distinct ids stands for.
pub open spec fn rows_view(s: Seq<ScenarioRow>) -> Rows {
    Map::new(
        |id: i64| exists|i: int| 0 <= i < s.len() && #[trigger] s[i].info.id.0 == id,
        |id: i64| s[choose|i: int| 0 <= i < s.len() && #[trigger] s[i].info.id.0 == id],
    )
}

pub proof fn lemma_rows_view_at(s: Seq<ScenarioRow>, i: int)
    requires
        ids_unique(s),
        0 <= i < s.len(),
    ensures
        rows_view(s).dom().contains(s[i].info.id.0),
        rows_view(s)[s[i].info.id.0] == s[i],
{
    let id = s[i].info.id.0;
    assert(rows_view(s).dom().contains(id));
    let j = choose|j: int| 0 <= j < s.len() && #[trigger] s[j].info.id.0 == id;
    assert(s[j].info.id.0 == s[i].info.id.0);
}

pub proof fn lemma_rows_view_all(s: Seq<ScenarioRow>)
    requires
        ids_unique(s),
    ensures
        forall|i: int|
            0 <= i < s.len() ==> #[trigger] rows_view(s).dom().contains(s[i].info.id.0) && rows_view(
                s,
            )[s[i].info.id.0] == s[i],
{
    assert forall|i: int| 0 <= i < s.len() implies #[trigger] rows_view(s).dom().contains(
        s[i].info.id.0,
    ) && rows_view(s)[s[i].info.id.0] == s[i] by {
        lemma_rows_view_at(s, i);
    }
}

/// The number of keys of the view is the number of rows.
pub proof fn lemma_rows_view_len(s: Seq<ScenarioRow>)
    requires
        ids_unique(s),
    ensures
        rows_view(s).dom().finite(),
        rows_view(s).dom().len() == s.len(),
{
    let ids = s.map_values(|r: ScenarioRow| r.info.id.0);
    assert forall|i: int, j: int| 0 <= i < ids.len() && 0 <= j < ids.len() && i != j implies ids[i]
        != ids[j] by {
        assert(s[i].info.id.0 == ids[i]);
        assert(s[j].info.id.0 == ids[j]);
    }
    assert(ids.no_duplicates());
    assert forall|id: i64| rows_view(s).dom().contains(id) <==> #[trigger] ids.to_set().contains(id) by {
        if rows_view(s).dom().contains(id) {
            let i = choose|i: int| 0 <= i < s.len() && #[trigger] s[i].info.id.0 == id;
            assert(ids[i] == id);
        }
        if ids.to_set().contains(id) {
            let i = choose|i: int| 0 <= i < ids.len() && ids[i] == id;
            assert(s[i].info.id.0 == id);
        }
    }
    assert(rows_view(s).dom() =~= ids.to_set());
    ids.unique_seq_to_set();
}

/// Rewriting each row by an id-preserving function rewrites the view the same way.
pub proof fn lemma_rows_view_pointwise(s: Seq<ScenarioRow>, s2: Seq<ScenarioRow>, f: spec_fn(ScenarioRow) -> ScenarioRow)
    requires
        ids_unique(s),
        s2.len() == s.len(),
        forall|i: int| 0 <= i < s.len() ==> #[trigger] s2[i] == f(s[i]),
        forall|r: ScenarioRow| #[trigger] f(r).info.id == r.info.id,
    ensures
        ids_unique(s2),
        rows_view(s2) =~= Map::new(
            |k: i64| rows_view(s).dom().contains(k),
            |k: i64| f(rows_view(s)[k]),
        ),
{
    assert forall|i: int, j: int|
        0 <= i < s2.len() && 0 <= j < s2.len() && #[trigger] s2[i].info.id.0 == #[trigger] s2[j].info.id.0
        implies i == j by {
        assert(f(s[i]).info.id == s[i].info.id);
        assert(f(s[j]).info.id == s[j].info.id);
    }
    lemma_rows_view_all(s);
    lemma_rows_view_all(s2);
    let v = rows_view(s);
    let v2 = rows_view(s2);
    assert forall|k: i64| v2.dom().contains(k) <==> v.dom().contains(k) by {
        if v2.dom().contains(k) {
            let i = choose|i: int| 0 <= i < s2.len() && #[trigger] s2[i].info.id.0 == k;
            assert(f(s[i]).info.id == s[i].info.id);
            assert(v.dom().contains(s[i].info.id.0));
        }
        if v.dom().contains(k) {
            let i = choose|i: int| 0 <= i < s.len() && #[trigger] s[i].info.id.0 == k;
            assert(f(s[i]).info.id == s[i].info.id);
            assert(v2.dom().contains(s2[i].info.id.0));
        }
    }
    assert forall|k: i64| v2.dom().contains(k) implies v2[k] == f(v[k]) by {
        let i = choose|i: int| 0 <= i < s2.len() && #[trigger] s2[i].info.id.0 == k;
        assert(f(s[i]).info.id == s[i].info.id);
    }
}

/// Replacing one row by a row with the same id replaces that entry of the view.
pub proof fn lemma_rows_view_update(s: Seq<ScenarioRow>, i: int, r: ScenarioRow)
    requires
        ids_unique(s),
        0 <= i < s.len(),
        r.info.id == s[i].info.id,
    ensures
        ids_unique(s.update(i, r)),
        rows_view(s.update(i, r)) =~= rows_view(s).insert(r.info.id.0, r),
{
    let s2 = s.update(i, r);
    assert forall|a: int, b: int|
        0 <= a < s2.len() && 0 <= b < s2.len() && #[trigger] s2[a].info.id.0 == #[trigger] s2[b].info.id.0
        implies a == b by {
        assert(s2[a].info.id == s[a].info.id);
        assert(s2[b].info.id == s[b].info.id);
    }
    lemma_rows_view_all(s);
    lemma_rows_view_all(s2);
    let v = rows_view(s);
    let v2 = rows_view(s2);
    let w = v.insert(r.info.id.0, r);
    assert forall|k: i64| v2.dom().contains(k) <==> w.dom().contains(k) by {
        if v2.dom().contains(k) {
            let j = choose|j: int| 0 <= j < s2.len() && #[trigger] s2[j].info.id.0 == k;
            assert(s2[j].info.id == s[j].info.id);
        }
        if v.dom().contains(k) {
            let j = choose|j: int| 0 <= j < s.len() && #[trigger] s[j].info.id.0 == k;
            assert(s2[j].info.id == s[j].info.id);
            assert(v2.dom().contains(s2[j].info.id.0));
        }
    }
    assert forall|k: i64| v2.dom().contains(k) implies v2[k] == w[k] by {
        let j = choose|j: int| 0 <= j < s2.len() && #[trigger] s2[j].info.id.0 == k;
        assert(s2[j].info.id == s[j].info.id);
    }
}

/// Appending a row with a fresh id adds that entry to the view.
pub proof fn lemma_rows_view_push(s: Seq<ScenarioRow>, r: ScenarioRow)
    requires
        ids_unique(s),
        !rows_view(s).dom().contains(r.info.id.0),
    ensures
        ids_unique(s.push(r)),
        rows_view(s.push(r)) =~= rows_view(s).insert(r.info.id.0, r),
{
    let s2 = s.push(r);
    assert forall|a: int, b: int|
        0 <= a < s2.len() && 0 <= b < s2.len() && #[trigger] s2[a].info.id.0 == #[trigger] s2[b].info.id.0
        implies a == b by {
        if a < s.len() && b == s.len() {
            assert(rows_view(s).dom().contains(s[a].info.id.0));
        }
        if b < s.len() && a == s.len() {
            assert(rows_view(s).dom().contains(s[b].info.id.0));
        }
    }
    lemma_rows_view_all(s);
    lemma_rows_view_all(s2);
    let v = rows_view(s);
    let v2 = rows_view(s2);
    let w = v.insert(r.info.id.0, r);
    assert forall|k: i64| v2.dom().contains(k) <==> w.dom().contains(k) by {
        if v2.dom().contains(k) {
            let j = choose|j: int| 0 <= j < s2.len() && #[trigger] s2[j].info.id.0 == k;
            if j < s.len() {
                assert(s2[j] == s[j]);
            }
        }
        if v.dom().contains(k) {
            let j = choose|j: int| 0 <= j < s.len() && #[trigger] s[j].info.id.0 == k;
            assert(s2[j] == s[j]);
            assert(v2.dom().contains(s2[j].info.id.0));
        }
        if k == r.info.id.0 {
            assert(s2[s.len() as int] == r);
        }
    }
    assert forall|k: i64| v2.dom().contains(k) implies v2[k] == w[k] by {
        let j = choose|j: int| 0 <= j < s2.len() && #[trigger] s2[j].info.id.0 == k;
        if j < s.len() {
            assert(s2[j] == s[j]);
        }
    }
}

/// Some scenario already uses the user-defined id `udid`.
pub open spec fn user_id_taken(m: Rows, udid: Seq<char>) -> bool {
    exists|a: i64| #[trigger] m.dom().contains(a) && m[a].info.user_defined_id@ == udid
}

/// The id a new scenario gets on table `m` with next id `next`, and the next
/// id after it: the next id itself while ids remain, and once they have run
/// out at `i64::MAX`, an id from 1 to `MAX_SCENARIOS` that no scenario has.
pub open spec fn assigned_id(m: Rows, next: int, id: i64, next2: int) -> bool {
    &&& !m.dom().contains(id)
    &&& if next < i64::MAX {
        id == next && next2 == next + 1
    } else {
        1 <= id <= MAX_SCENARIOS && next2 == next
    }
}

/// The ids from 1 to `n`.
pub open spec fn id_range(n: int) -> Set<i64> {
    Set::new(|j: i64| 1 <= j <= n)
}

/// There are `n` ids from 1 to `n`.
pub proof fn lemma_id_range_len(n: nat)
    requires
        n <= i64::MAX,
    ensures
        id_range(n as int).finite(),
        id_range(n as int).len() == n,
    decreases n,
{
    if n == 0 {
        assert(id_range(0) =~= Set::<i64>::empty());
    } else {
        lemma_id_range_len((n - 1) as nat);
        assert(id_range(n as int) =~= id_range(n - 1).insert(n as i64));
    }
}

/// Why creating a scenario under `parent` with user-defined id `udid` is
/// refused, checked in this order; `None` when it is allowed.
pub open spec fn create_scenario_error(m: Rows, parent: Option<ScenarioId>, udid: Seq<char>) -> Option<
    CreateScenarioError,
> {
    if m.dom().len() >= MAX_SCENARIOS {
        Some(CreateScenarioError::ScenarioLimitExceeded)
    } else if parent is Some && !m.dom().contains(parent->Some_0.0) {
        Some(CreateScenarioError::ParentDoesNotExist)
    } else if parent is Some && depth_of(m, parent->Some_0.0)->Some_0 + 1 >= MAX_SCENARIO_TREE_DEPTH {
        Some(CreateScenarioError::MaxScenarioTreeDepthExceeded)
    } else if user_id_taken(m, udid) {
        Some(CreateScenarioError::IdAlreadyExists)
    } else {
        None
    }
}

/// The row of a newly created scenario: created now (whole seconds), modified
/// now, placed after the existing children of its parent, with no testing data.
pub open spec fn created_row(
    m: Rows,
    id: i64,
    parent: Option<ScenarioId>,
    user_defined_id: String,
    description: String,
    type_: ScenarioType,
    now: Timestamp,
) -> ScenarioRow {
    let p = match parent {
        Some(q) => Some(q.0),
        None => None,
    };
    ScenarioRow {
        info: ScenarioInfo {
            id: ScenarioId(id),
            user_defined_id: user_defined_id,
            description: description,
            type_: type_,
            created_time: Timestamp { secs: now.secs, nsecs: 0 },
            modified_time: now,
        },
        parent: p,
        position: next_position(m, p),
        has_testing_data: false,
    }
}

/// Moving the subtree of `k` under `q` would put some scenario of it at depth
/// `MAX_SCENARIO_TREE_DEPTH` or deeper.
pub open spec fn would_be_too_deep(m: Rows, k: i64, q: i64) -> bool {
    exists|x: i64|
        #[trigger] in_subtree_of(m, k, x) && depth_of(m, q)->Some_0 + 1 + dist_below(m, k, x)
            >= MAX_SCENARIO_TREE_DEPTH
}

/// Why `k` may not be moved under the parent `np`: checked only when the parent
/// changes to another scenario, which must lie outside the subtree of `k` and
/// leave that subtree within the depth limit.
pub open spec fn reparent_error(m: Rows, k: i64, np: Option<i64>) -> Option<MoveScenarioError> {
    if m[k].parent != np && np is Some {
        if in_subtree_of(m, k, np->Some_0) {
            Some(MoveScenarioError::TargetScenarioIsChildOfMoveScenario)
        } else if would_be_too_deep(m, k, np->Some_0) {
            Some(MoveScenarioError::MaxScenarioTreeDepthExceeded)
        } else {
            None
        }
    } else {
        None
    }
}

/// The position `k` takes when placed just before `t`.
pub open spec fn before_slot(m: Rows, k: i64, t: i64) -> u32 {
    if m[k].parent == m[t].parent && m[t].position > m[k].position {
        (m[t].position - 1) as u32
    } else {
        m[t].position
    }
}

/// The position `k` takes when placed just after `t`.
pub open spec fn after_slot(m: Rows, k: i64, t: i64) -> u32 {
    if m[k].parent == m[t].parent && m[t].position + 1 > m[k].position {
        m[t].position
    } else {
        (m[t].position + 1) as u32
    }
}

/// Why moving `k` before or after `t` is refused, in the order checked.
pub open spec fn move_beside_error(m: Rows, k: i64, t: i64) -> Option<MoveScenarioError> {
    if !m.dom().contains(k) {
        Some(MoveScenarioError::MoveScenarioNotFound)
    } else if !m.dom().contains(t) {
        Some(MoveScenarioError::TargetScenarioNotFound)
    } else {
        reparent_error(m, k, m[t].parent)
    }
}

/// Why moving `k` inside `p` is refused, in the order checked; a scenario
/// already under `p` is left where it is.
pub open spec fn move_inside_error(m: Rows, k: i64, p: i64) -> Option<MoveScenarioError> {
    if !m.dom().contains(k) {
        Some(MoveScenarioError::MoveScenarioNotFound)
    } else if !m.dom().contains(p) {
        Some(MoveScenarioError::TargetScenarioNotFound)
    } else {
        reparent_error(m, k, Some(p))
    }
}

proof fn lemma_before_slot_valid(m: Rows, k: i64, tg: i64)
    requires
        siblings_ordered(m),
        m.dom().contains(k),
        m.dom().contains(tg),
    ensures
        valid_slot(detached(m, k), k, m[tg].parent, before_slot(m, k, tg)),
{
    let d = detached(m, k);
    let t = before_slot(m, k, tg);
    let np = m[tg].parent;
    lemma_detach_ordered(m, k);
    if tg != k {
        assert(d.dom().contains(tg));
        assert(d[tg].position == t);
        if t > 1 {
            let w = choose|w: i64|
                #![trigger d.dom().contains(w)]
                d.dom().contains(w) && Some(w) != Some(k) && d[w].parent == d[tg].parent && d[w].position
                    == t - 1;
            assert(has_position_except(d, np, t - 1, Some(k)));
        }
    } else {
        crate::positions::lemma_slot_of_self(m, k);
    }
}

proof fn lemma_after_slot_valid(m: Rows, k: i64, tg: i64)
    requires
        siblings_ordered(m),
        m.dom().contains(k),
        m.dom().contains(tg),
        m[tg].position < u32::MAX,
    ensures
        valid_slot(detached(m, k), k, m[tg].parent, after_slot(m, k, tg)),
{
    let d = detached(m, k);
    let t = after_slot(m, k, tg);
    let np = m[tg].parent;
    lemma_detach_ordered(m, k);
    if tg != k {
        assert(d.dom().contains(tg));
        assert(d[tg].position == t - 1);
        assert(has_position_except(d, np, t - 1, Some(k)));
    } else {
        crate::positions::lemma_slot_of_self(m, k);
    }
}

proof fn lemma_inside_slot_valid(m: Rows, k: i64, p: i64, t: u32)
    requires
        siblings_ordered(m),
        m.dom().contains(k),
        m[k].parent != Some(p),
        is_next_position(m, Some(p), t),
    ensures
        valid_slot(detached(m, k), k, Some(p), t),
{
    let d = detached(m, k);
    lemma_detach_ordered(m, k);
    if t > 1 {
        let b = choose|b: i64|
            #![trigger m.dom().contains(b)]
            m.dom().contains(b) && Some(b) != None::<i64> && m[b].parent == Some(p) && m[b].position == t - 1;
        assert(d.dom().contains(b));
        assert(d[b] == m[b]);
        assert(has_position_except(d, Some(p), t - 1, Some(k)));
    }
}

/// Some scenario in the subtree of `k` (`k` included) has testing data.
pub open spec fn subtree_has_testing_data(m: Rows, k: i64) -> bool {
    exists|x: i64|
        #[trigger] in_subtree_of(m, k, x) && m.dom().contains(x) && m[x].has_testing_data
}

/// The table after the subtree of `k` is removed: the siblings after `k` close the gap.
pub open spec fn without_subtree(m: Rows, k: i64) -> Rows {
    Map::new(
        |x: i64| m.dom().contains(x) && !in_subtree_of(m, k, x),
        |x: i64| detach_row(m[x], m[k].parent, m[k].position),
    )
}

/// Removing a whole subtree keeps the table invariant.
proof fn lemma_cut_keeps_invariant(m: Rows, k: i64)
    requires
        table_invariant(m),
        m.dom().contains(k),
    ensures
        table_invariant(without_subtree(m, k)),
        links(without_subtree(m, k)) == links(m).restrict(outside_subtree(links(m), k, tree_fuel())),
{
    let w = without_subtree(m, k);
    let d = detached(m, k);
    let l = links(m);
    lemma_detach_ordered(m, k);
    assert(links(w) =~= l.restrict(outside_subtree(l, k, tree_fuel())));
    lemma_cut_acyclic(l, k, tree_fuel());
    assert(w.dom() =~= m.dom().filter(|x: i64| !in_subtree_of(m, k, x)));
    vstd::set_lib::lemma_len_subset(w.dom(), m.dom());
    assert forall|a: i64| #[trigger] w.dom().contains(a) && Some(a) != None::<i64> && w[a].position > 1 implies has_position_except(
        w,
        w[a].parent,
        w[a].position - 1,
        None,
    ) by {
        assert(a != k);
        assert(d.dom().contains(a) && d[a] == w[a]);
        let b = choose|b: i64|
            #![trigger d.dom().contains(b)]
            d.dom().contains(b) && Some(b) != Some(k) && d[b].parent == d[a].parent && d[b].position
                == d[a].position - 1;
        if in_subtree_of(m, k, b) {
            let p = m[b].parent->Some_0;
            assert(in_subtree(l, k, p, (tree_fuel() - 1) as nat));
            crate::tree::lemma_in_subtree_mono(l, k, p, (tree_fuel() - 1) as nat, tree_fuel());
            assert(in_subtree(l, k, a, tree_fuel() + 1));
            assert(depth_within(l, a, tree_fuel()) is Some);
            lemma_depth_lt_fuel(l, a, tree_fuel());
            lemma_in_subtree_stable(l, k, a, tree_fuel(), tree_fuel() + 1, tree_fuel());
        }
        assert(w.dom().contains(b));
    }
    assert forall|a: i64, b: i64|
        #![trigger w.dom().contains(a), w.dom().contains(b)]
        w.dom().contains(a) && w.dom().contains(b) && Some(a) != None::<i64> && Some(b) != None::<i64>
            && a != b && w[a].parent == w[b].parent implies w[a].position != w[b].position by {
        assert(d.dom().contains(a) && d.dom().contains(b));
        assert(a != k && b != k);
    }
    assert forall|a: i64| #[trigger] w.dom().contains(a) && Some(a) != None::<i64> implies w[a].position >= 1 by {
        assert(d.dom().contains(a));
        assert(a != k);
    }
    assert forall|a: i64, b: i64|
        #![trigger w.dom().contains(a), w.dom().contains(b)]
        w.dom().contains(a) && w.dom().contains(b) && a != b implies w[a].info.user_defined_id@
            != w[b].info.user_defined_id@ by {
        assert(m.dom().contains(a) && m.dom().contains(b));
    }
}

/// Why changing the user-defined id and description of `k` is refused, in
/// the order checked: it must exist, must not have been modified since
/// `previous_modified_time`, and a new user-defined id must be free.
pub open spec fn update_info_error(m: Rows, k: i64, udid: Seq<char>, previous_modified_time: Timestamp) -> Option<
    UpdateScenarioInfoError,
> {
    if !m.dom().contains(k) {
        Some(UpdateScenarioInfoError::ScenarioNotFound)
    } else if previous_modified_time != m[k].info.modified_time {
        Some(UpdateScenarioInfoError::ModifiedTimeDoesNotMatchDatabase)
    } else if udid != m[k].info.user_defined_id@ && user_id_taken(m, udid) {
        Some(UpdateScenarioInfoError::UserDefinedIdAlreadyExists)
    } else {
        None
    }
}

/// A row with a new user-defined id and description, modified at `now`.
pub open spec fn updated_row(r: ScenarioRow, user_defined_id: String, description: String, now: Timestamp) -> ScenarioRow {
    ScenarioRow {
        info: ScenarioInfo {
            user_defined_id: user_defined_id,
            description: description,
            modified_time: now,
            ..r.info
        },
        ..r
    }
}

/// The child of `parent` at position `pos`.
pub open spec fn child_at(m: Rows, parent: Option<i64>, pos: int) -> i64 {
    choose|c: i64| #[trigger] m.dom().contains(c) && m[c].parent == parent && m[c].position == pos
}

/// The children of `parent` in position order.
pub open spec fn ordered_children(m: Rows, parent: Option<i64>) -> Seq<i64> {
    Seq::new((next_position(m, parent) - 1) as nat, |i: int| child_at(m, parent, i + 1))
}

/// The scenarios listed under `parent`: its children in position order, where
/// the top level leaves out scenario 1 (the one that collects unassigned
/// proxy traffic) and any lower id.
pub open spec fn listed_children(m: Rows, parent: Option<i64>) -> Seq<i64> {
    if parent is None {
        ordered_children(m, parent).filter(|c: i64| c > 1)
    } else {
        ordered_children(m, parent)
    }
}

/// `nodes` lists the subtrees under `parent`, each node holding the record of
/// a listed child and, recursively, the listing of its own children.
pub open spec fn lists_forest(m: Rows, parent: Option<i64>, nodes: Seq<ScenarioTreeNode>, fuel: nat) -> bool
    decreases fuel,
{
    let kids = listed_children(m, parent);
    &&& fuel > 0
    &&& nodes.len() == kids.len()
    &&& forall|i: int|
        0 <= i < nodes.len() ==> (#[trigger] nodes[i]).info == m[kids[i]].info && lists_forest(
            m,
            Some(kids[i]),
            nodes[i].children@,
            (fuel - 1) as nat,
        )
}

/// The listed children among the positions 1..=n of `parent`.
pub open spec fn listed_prefix(m: Rows, parent: Option<i64>, n: nat) -> Seq<i64> {
    let pre = Seq::new(n, |i: int| child_at(m, parent, i + 1));
    if parent is None {
        pre.filter(|c: i64| c > 1)
    } else {
        pre
    }
}

/// `nodes` lists the subtrees of `kids`, in order.
pub open spec fn forest_prefix_ok(m: Rows, kids: Seq<i64>, nodes: Seq<ScenarioTreeNode>, fuel: nat) -> bool {
    &&& nodes.len() == kids.len()
    &&& forall|i: int|
        0 <= i < nodes.len() ==> (#[trigger] nodes[i]).info == m[kids[i]].info && lists_forest(
            m,
            Some(kids[i]),
            nodes[i].children@,
            fuel,
        )
}

spec fn old_result_at(s: Seq<ScenarioTreeNode>, j: int) -> ScenarioTreeNode {
    s[j]
}

proof fn lemma_listing_done(m: Rows, parent: Option<i64>, pos: u32)
    requires
        table_invariant(m),
        pos >= 1,
        pos == 1 || has_position(m, parent, pos - 1),
        !has_position(m, parent, pos as int),
    ensures
        listed_prefix(m, parent, (pos - 1) as nat) == listed_children(m, parent),
{
    assert forall|b: i64| #[trigger] m.dom().contains(b) && m[b].parent == parent implies m[b].position < pos by {
        if m[b].position >= pos {
            crate::positions::lemma_positions_contiguous(m, b, pos as int);
        }
    }
    lemma_next_position_unique(m, parent, pos);
    assert(ordered_children(m, parent) =~= Seq::new((pos - 1) as nat, |i: int| child_at(m, parent, i + 1)));
}

proof fn lemma_listing_step(m: Rows, parent: Option<i64>, pos: u32, c: i64)
    requires
        table_invariant(m),
        pos >= 1,
        m.dom().contains(c),
        m[c].parent == parent,
        m[c].position == pos,
    ensures
        listed_prefix(m, parent, pos as nat) == if parent is None && c <= 1 {
            listed_prefix(m, parent, (pos - 1) as nat)
        } else {
            listed_prefix(m, parent, (pos - 1) as nat).push(c)
        },
{
    lemma_child_at_unique(m, c);
    let pre = Seq::new((pos - 1) as nat, |i: int| child_at(m, parent, i + 1));
    let pre2 = Seq::new(pos as nat, |i: int| child_at(m, parent, i + 1));
    assert(pre2 =~= pre.push(c));
    pre.lemma_filter_push(c, |x: i64| x > 1);
}

proof fn lemma_listed_child_depth(m: Rows, parent: Option<i64>, c: i64, recursion_depth: u8)
    requires
        table_invariant(m),
        m.dom().contains(c),
        m[c].parent == parent,
        parent is None ==> recursion_depth == 0,
        parent is Some ==> recursion_depth >= 1,
        parent matches Some(p) ==> m.dom().contains(p) && depth_of(m, p) == Some((recursion_depth - 1) as nat),
    ensures
        depth_of(m, c) == Some(recursion_depth as nat),
        recursion_depth < MAX_SCENARIO_TREE_DEPTH,
{
    assert(links(m).dom().contains(c));
    assert(links(m)[c] == parent);
    assert(depth_within(links(m), c, tree_fuel()) is Some);
    if parent is Some {
        crate::tree::lemma_parent_known(links(m), c, tree_fuel());
    }
    lemma_depth_lt_fuel(links(m), c, tree_fuel());
}

proof fn lemma_child_at_unique(m: Rows, c: i64)
    requires
        siblings_ordered(m),
        m.dom().contains(c),
    ensures
        child_at(m, m[c].parent, m[c].position as int) == c,
{
    let d = child_at(m, m[c].parent, m[c].position as int);
    assert(m.dom().contains(d) && m[d].parent == m[c].parent && m[d].position == m[c].position);
}

/// A move that passes the checks keeps the table invariant.
proof fn lemma_move_keeps_invariant(m: Rows, k: i64, np: Option<i64>, t: u32)
    requires
        table_invariant(m),
        m.dom().contains(k),
        reparent_error(m, k, np) is None,
        np matches Some(q) ==> m.dom().contains(q),
        valid_slot(detached(m, k), k, np, t),
    ensures
        table_invariant(moved(m, k, np, t)),
        moved(m, k, np, t).dom() == m.dom(),
        links(moved(m, k, np, t)) == links(m).insert(k, np),
        forall|x: i64| #[trigger] m.dom().contains(x) ==> moved(m, k, np, t)[x].info == m[x].info,
{
    let d = detached(m, k);
    let mv = moved(m, k, np, t);
    let l = links(m);
    lemma_detach_ordered(m, k);
    assert forall|x: i64| #[trigger] d.dom().contains(x) implies d[x].position < u32::MAX by {
        lemma_position_bounded(m, x);
    }
    lemma_attach_ordered(d, k, np, t);
    assert(mv.dom() =~= m.dom());
    assert(links(mv) =~= l.insert(k, np));
    if np == m[k].parent {
        assert(l.insert(k, np) =~= l);
    } else {
        match np {
            None => {
                assert forall|x: i64| #![trigger in_subtree(l, k, x, tree_fuel())] in_subtree(l, k, x, tree_fuel()) implies dist_to(
                    l,
                    k,
                    x,
                    tree_fuel(),
                ) + 0nat < tree_fuel() by {
                    assert(l.dom().contains(x));
                    lemma_dist_depth(l, k, x, tree_fuel(), tree_fuel());
                    lemma_depth_lt_fuel(l, x, tree_fuel());
                }
            },
            Some(q) => {
                assert forall|x: i64| #![trigger in_subtree(l, k, x, tree_fuel())] in_subtree(l, k, x, tree_fuel()) implies dist_to(
                    l,
                    k,
                    x,
                    tree_fuel(),
                ) + (depth_within(l, q, tree_fuel())->Some_0 + 1) < tree_fuel() by {
                    assert(in_subtree_of(m, k, x));
                }
            },
        }
        lemma_relink_acyclic(l, k, np, tree_fuel());
    }
    assert forall|a: i64, b: i64|
        #![trigger mv.dom().contains(a), mv.dom().contains(b)]
        mv.dom().contains(a) && mv.dom().contains(b) && a != b implies mv[a].info.user_defined_id@
            != mv[b].info.user_defined_id@ by {
        assert(m.dom().contains(a) && m.dom().contains(b));
    }
    assert forall|a: i64| #[trigger] mv.dom().contains(a) implies mv[a].info.id.0 == a by {
        assert(m.dom().contains(a));
    }
}

fn same_parent(a: Option<i64>, b: Option<i64>) -> (r: bool)
    ensures
        r == (a == b),
{
    match (a, b) {
        (None, None) => true,
        (Some(x), Some(y)) => x == y,
        _ => false,
    }
}

/// The scenarios of a project, kept as rows with distinct ids.
pub struct ScenarioTable {
    rows: Vec<ScenarioRow>,
    next_id: i64,
}

impl View for ScenarioTable {
    type V = Rows;

    closed spec fn view(&self) -> Rows {
        rows_view(self.rows@)
    }
}

impl ScenarioTable {
    /// The id the next created scenario receives.
    pub closed spec fn next_id(&self) -> int {
        self.next_id as int
    }

    /// The table's internal consistency; implies `table_invariant(self@)`.
    pub closed spec fn wf(&self) -> bool {
        &&& ids_unique(self.rows@)
        &&& self.rows@.len() <= MAX_SCENARIOS
        &&& forall|i: int| 0 <= i < self.rows@.len() ==> #[trigger] self.rows@[i].info.id.0 < self.next_id
        &&& user_ids_unique(self@)
        &&& siblings_ordered(self@)
        &&& acyclic(links(self@), tree_fuel())
    }

    /// Every well-formed table satisfies the table invariant, and all its ids
    /// are below the next id to hand out.
    pub proof fn lemma_wf_invariant(&self)
        requires
            self.wf(),
        ensures
            table_invariant(self@),
            forall|a: i64| #[trigger] self@.dom().contains(a) ==> a < self.next_id(),
    {
        lemma_rows_view_len(self.rows@);
        lemma_rows_view_all(self.rows@);
        assert forall|a: i64| #[trigger] self@.dom().contains(a) implies self@[a].info.id.0 == a && a
            < self.next_id() by {
            let i = choose|i: int| 0 <= i < self.rows@.len() && #[trigger] self.rows@[i].info.id.0 == a;
        }
    }

    /// An empty table whose first scenario will get `first_id`.
    pub fn new(first_id: i64) -> (t: ScenarioTable)
        ensures
            t.wf(),
            t@ == Map::<i64, ScenarioRow>::empty(),
            t.next_id() == first_id,
    {
        let t = ScenarioTable { rows: Vec::new(), next_id: first_id };
        assert(t@ =~= Map::<i64, ScenarioRow>::empty());
        assert(links(t@) =~= Map::<i64, Option<i64>>::empty());
        t
    }

    /// The rows, one per scenario, in storage order.
    pub fn rows(&self) -> (r: &Vec<ScenarioRow>)
        requires
            self.wf(),
        ensures
            r@.len() == self@.dom().len(),
            ids_unique(r@),
            rows_view(r@) == self@,
    {
        proof {
            lemma_rows_view_len(self.rows@);
        }
        &self.rows
    }

    /// The id the next created scenario receives.
    pub fn peek_next_id(&self) -> (id: i64)
        ensures
            id == self.next_id(),
    {
        self.next_id
    }

    fn index_of(&self, id: i64) -> (r: Option<usize>)
        requires
            ids_unique(self.rows@),
        ensures
            match r {
                Some(i) => i < self.rows@.len() && self.rows@[i as int].info.id.0 == id
                    && self@.dom().contains(id) && self@[id] == self.rows@[i as int],
                None => !self@.dom().contains(id),
            },
    {
        let mut i: usize = 0;
        while i < self.rows.len()
            invariant
                ids_unique(self.rows@),
                i <= self.rows@.len(),
                forall|j: int| 0 <= j < i ==> #[trigger] self.rows@[j].info.id.0 != id,
            decreases self.rows@.len() - i,
        {
            if self.rows[i].info.id.0 == id {
                proof {
                    lemma_rows_view_at(self.rows@, i as int);
                }
                return Some(i);
            }
            i += 1;
        }
        None
    }

    /// The parent of a scenario; `None` also for an unknown id.
    pub(crate) fn parent_of(&self, id: i64) -> (p: Option<i64>)
        requires
            self.wf(),
        ensures
            self@.dom().contains(id) ==> p == self@[id].parent,
            !self@.dom().contains(id) ==> p is None,
    {
        match self.index_of(id) {
            Some(i) => self.rows[i].parent,
            None => None,
        }
    }

    fn depth_from(&self, id: i64, fuel: u8) -> (r: Option<u8>)
        requires
            ids_unique(self.rows@),
        ensures
            match r {
                Some(d) => depth_within(links(self@), id, fuel as nat) == Some(d as nat),
                None => depth_within(links(self@), id, fuel as nat) is None,
            },
        decreases fuel,
    {
        if fuel == 0 {
            return None;
        }
        match self.index_of(id) {
            None => None,
            Some(i) => match self.rows[i].parent {
                None => Some(0),
                Some(p) => match self.depth_from(p, fuel - 1) {
                    Some(d) => {
                        proof {
                            lemma_depth_lt_fuel(links(self@), p, (fuel - 1) as nat);
                        }
                        Some(d + 1)
                    },
                    None => None,
                },
            },
        }
    }

    /// The depth of a scenario (0 at the top level), `None` for an unknown id.
    pub fn get_scenario_depth(&self, scenario_id: i64) -> (r: Option<u8>)
        requires
            self.wf(),
        ensures
            match r {
                Some(d) => depth_of(self@, scenario_id) == Some(d as nat),
                None => depth_of(self@, scenario_id) is None,
            },
            r is Some <==> self@.dom().contains(scenario_id),
    {
        let r = self.depth_from(scenario_id, MAX_SCENARIO_TREE_DEPTH);
        proof {
            if self@.dom().contains(scenario_id) {
                assert(links(self@).dom().contains(scenario_id));
            }
        }
        r
    }

    fn subtree_contains(&self, root: i64, x: i64, fuel: u8) -> (b: bool)
        requires
            ids_unique(self.rows@),
        ensures
            b == in_subtree(links(self@), root, x, fuel as nat),
        decreases fuel,
    {
        if fuel == 0 {
            return false;
        }
        match self.index_of(x) {
            None => false,
            Some(i) => {
                if x == root {
                    true
                } else {
                    match self.rows[i].parent {
                        None => false,
                        Some(p) => self.subtree_contains(root, p, fuel - 1),
                    }
                }
            },
        }
    }

    fn distance_up(&self, root: i64, x: i64, fuel: u8) -> (d: u8)
        requires
            ids_unique(self.rows@),
        ensures
            d as nat == dist_to(links(self@), root, x, fuel as nat),
        decreases fuel,
    {
        if fuel == 0 {
            return 0;
        }
        match self.index_of(x) {
            None => 0,
            Some(i) => {
                if x == root {
                    0
                } else {
                    match self.rows[i].parent {
                        None => 0,
                        Some(p) => {
                            let d = self.distance_up(root, p, fuel - 1);
                            proof {
                                lemma_dist_le_fuel(links(self@), root, p, (fuel - 1) as nat);
                            }
                            1 + d
                        },
                    }
                }
            },
        }
    }

    /// Levels in the subtree of a scenario, counting the scenario itself: one
    /// more than the greatest distance from it down to a descendant, and 1 when
    /// there is no such scenario.
    pub fn get_scenario_child_depth(&self, scenario_id: i64) -> (d: u8)
        requires
            self.wf(),
        ensures
            forall|x: i64|
                #[trigger] in_subtree_of(self@, scenario_id, x) ==> dist_below(self@, scenario_id, x) + 1
                    <= d,
            d == 1 || exists|x: i64|
                #[trigger] in_subtree_of(self@, scenario_id, x) && dist_below(self@, scenario_id, x) + 1
                    == d,
            1 <= d <= MAX_SCENARIO_TREE_DEPTH + 1,
    {
        let mut best: u8 = 1;
        let mut i: usize = 0;
        while i < self.rows.len()
            invariant
                self.wf(),
                i <= self.rows@.len(),
                1 <= best <= MAX_SCENARIO_TREE_DEPTH + 1,
                forall|j: int|
                    0 <= j < i && #[trigger] in_subtree_of(self@, scenario_id, self.rows@[j].info.id.0)
                        ==> dist_below(self@, scenario_id, self.rows@[j].info.id.0) + 1 <= best,
                best == 1 || exists|x: i64|
                    #[trigger] in_subtree_of(self@, scenario_id, x) && dist_below(self@, scenario_id, x)
                        + 1 == best,
            decreases self.rows@.len() - i,
        {
            let x = self.rows[i].info.id.0;
            if self.subtree_contains(scenario_id, x, MAX_SCENARIO_TREE_DEPTH) {
                let d = self.distance_up(scenario_id, x, MAX_SCENARIO_TREE_DEPTH);
                proof {
                    lemma_dist_le_fuel(links(self@), scenario_id, x, tree_fuel());
                }
                if d + 1 > best {
                    best = d + 1;
                }
                assert(in_subtree_of(self@, scenario_id, x));
                assert(dist_below(self@, scenario_id, x) + 1 <= best);
            } else {
                assert(!in_subtree_of(self@, scenario_id, x));
            }
            assert(self.rows@[i as int].info.id.0 == x);
            i += 1;
        }
        proof {
            assert forall|x: i64| #[trigger] in_subtree_of(self@, scenario_id, x) implies dist_below(
                self@,
                scenario_id,
                x,
            ) + 1 <= best by {
                assert(links(self@).dom().contains(x));
                let j = choose|j: int| 0 <= j < self.rows@.len() && #[trigger] self.rows@[j].info.id.0 == x;
            }
        }
        best
    }

    /// The id of the scenario with the given user-defined id.
    pub fn lookup_scenario(&self, user_defined_id: String) -> (r: Result<ScenarioId, LookupError>)
        requires
            self.wf(),
        ensures
            match r {
                Ok(id) => self@.dom().contains(id.0) && self@[id.0].info.user_defined_id@
                    == user_defined_id@,
                Err(e) => e == LookupError::NotFound && !exists|a: i64|
                    #[trigger] self@.dom().contains(a) && self@[a].info.user_defined_id@
                        == user_defined_id@,
            },
    {
        let mut i: usize = 0;
        while i < self.rows.len()
            invariant
                ids_unique(self.rows@),
                i <= self.rows@.len(),
                forall|j: int|
                    0 <= j < i ==> #[trigger] self.rows@[j].info.user_defined_id@ != user_defined_id@,
            decreases self.rows@.len() - i,
        {
            if self.rows[i].info.user_defined_id == user_defined_id {
                proof {
                    lemma_rows_view_at(self.rows@, i as int);
                }
                return Ok(self.rows[i].info.id);
            }
            i += 1;
        }
        proof {
            assert forall|a: i64| #[trigger] self@.dom().contains(a) implies self@[a].info.user_defined_id@
                != user_defined_id@ by {
                let j = choose|j: int| 0 <= j < self.rows@.len() && #[trigger] self.rows@[j].info.id.0 == a;
                lemma_rows_view_at(self.rows@, j);
            }
        }
        Err(LookupError::NotFound)
    }

    /// The position a new last child of `parent` takes.
    fn next_child_position(&self, parent: Option<i64>) -> (t: u32)
        requires
            ids_unique(self.rows@),
            self.rows@.len() <= MAX_SCENARIOS,
            siblings_ordered(self@),
        ensures
            is_next_position(self@, parent, t),
            t == next_position(self@, parent),
            t <= MAX_SCENARIOS + 1,
    {
        proof {
            lemma_rows_view_len(self.rows@);
            lemma_rows_view_all(self.rows@);
        }
        let mut best: u32 = 0;
        let mut i: usize = 0;
        while i < self.rows.len()
            invariant
                ids_unique(self.rows@),
                self.rows@.len() <= MAX_SCENARIOS,
                rows_view(self.rows@).dom().finite(),
                rows_view(self.rows@).dom().len() == self.rows@.len(),
                siblings_ordered(self@),
                forall|j: int|
                    0 <= j < self.rows@.len() ==> #[trigger] rows_view(self.rows@).dom().contains(
                        self.rows@[j].info.id.0,
                    ) && rows_view(self.rows@)[self.rows@[j].info.id.0] == self.rows@[j],
                i <= self.rows@.len(),
                best <= MAX_SCENARIOS,
                forall|j: int|
                    0 <= j < i && #[trigger] self.rows@[j].parent == parent ==> self.rows@[j].position
                        <= best,
                best == 0 || has_position(self@, parent, best as int),
            decreases self.rows@.len() - i,
        {
            if same_parent(self.rows[i].parent, parent) && self.rows[i].position > best {
                proof {
                    lemma_position_bounded(self@, self.rows@[i as int].info.id.0);
                    assert(self@.dom().contains(self.rows@[i as int].info.id.0));
                }
                best = self.rows[i].position;
            }
            i += 1;
        }
        let t = best + 1;
        proof {
            assert forall|b: i64| #[trigger] self@.dom().contains(b) && self@[b].parent == parent implies self@[b].position
                < t by {
                let j = choose|j: int| 0 <= j < self.rows@.len() && #[trigger] self.rows@[j].info.id.0 == b;
                assert(self.rows@[j].parent == parent);
            }
            lemma_next_position_unique(self@, parent, t);
        }
        t
    }

    /// The smallest id from 1 up that no scenario has; there is one among the
    /// first `MAX_SCENARIOS`, as the table is not full.
    fn free_id(&self) -> (id: i64)
        requires
            self.wf(),
            self@.dom().len() < MAX_SCENARIOS,
        ensures
            1 <= id <= MAX_SCENARIOS,
            !self@.dom().contains(id),
    {
        let mut c: i64 = 1;
        while c <= MAX_SCENARIOS as i64
            invariant
                self.wf(),
                self@.dom().len() < MAX_SCENARIOS,
                1 <= c <= MAX_SCENARIOS + 1,
                forall|j: i64| 1 <= j < c ==> #[trigger] self@.dom().contains(j),
            decreases MAX_SCENARIOS + 1 - c,
        {
            if self.index_of(c).is_none() {
                return c;
            }
            c += 1;
        }
        proof {
            self.lemma_wf_invariant();
            lemma_id_range_len(MAX_SCENARIOS as nat);
            assert(id_range(MAX_SCENARIOS as int).subset_of(self@.dom()));
            vstd::set_lib::lemma_len_subset(id_range(MAX_SCENARIOS as int), self@.dom());
        }
        1
    }

    /// Adds a scenario as the last child of `parent_id` (or at the top level).
    pub fn create_scenario(
        &mut self,
        parent_id: Option<ScenarioId>,
        user_defined_id: String,
        description: String,
        type_: ScenarioType,
        now: Timestamp,
    ) -> (r: Result<ScenarioId, CreateScenarioError>)
        requires
            old(self).wf(),
        ensures
            final(self).wf(),
            match r {
                Ok(id) => {
                    &&& create_scenario_error(old(self)@, parent_id, user_defined_id@) is None
                    &&& assigned_id(old(self)@, old(self).next_id(), id.0, final(self).next_id())
                    &&& final(self)@ == old(self)@.insert(
                        id.0,
                        created_row(
                            old(self)@,
                            id.0,
                            parent_id,
                            user_defined_id,
                            description,
                            type_,
                            now,
                        ),
                    )
                },
                Err(e) => {
                    &&& create_scenario_error(old(self)@, parent_id, user_defined_id@) == Some(e)
                    &&& final(self)@ == old(self)@
                    &&& final(self).next_id() == old(self).next_id()
                },
            },
    {
        proof {
            lemma_rows_view_len(self.rows@);
            self.lemma_wf_invariant();
        }
        if self.rows.len() >= MAX_SCENARIOS as usize {
            return Err(CreateScenarioError::ScenarioLimitExceeded);
        }
        if let Some(p) = parent_id {
            match self.get_scenario_depth(p.0) {
                Some(depth) => {
                    proof {
                        lemma_depth_lt_fuel(links(self@), p.0, tree_fuel());
                    }
                    if depth + 1 >= MAX_SCENARIO_TREE_DEPTH {
                        return Err(CreateScenarioError::MaxScenarioTreeDepthExceeded);
                    }
                },
                None => {
                    return Err(CreateScenarioError::ParentDoesNotExist);
                },
            }
        }
        match self.lookup_scenario(user_defined_id.clone()) {
            Ok(_) => {
                return Err(CreateScenarioError::IdAlreadyExists);
            },
            Err(_) => {},
        }
        let parent: Option<i64> = match parent_id {
            Some(q) => Some(q.0),
            None => None,
        };
        let position = self.next_child_position(parent);
        let id = if self.next_id < i64::MAX {
            self.next_id
        } else {
            self.free_id()
        };
        let row = ScenarioRow {
            info: ScenarioInfo {
                id: ScenarioId(id),
                user_defined_id: user_defined_id,
                description: description,
                type_: type_,
                created_time: Timestamp { secs: now.secs, nsecs: 0 },
                modified_time: now,
            },
            parent: parent,
            position: position,
            has_testing_data: false,
        };
        let ghost old_view = self@;
        let ghost old_rows = self.rows@;
        proof {
            assert(!old_view.dom().contains(id));
            lemma_rows_view_push(old_rows, row);
            lemma_append_child_ordered(old_view, id, row);
            assert(links(old_view.insert(id, row)) =~= links(old_view).insert(id, parent));
            if let Some(q) = parent {
                assert(links(old_view).dom().contains(q));
                assert(depth_within(links(old_view), q, tree_fuel()) is Some);
            }
            lemma_grow_acyclic(links(old_view), id, parent, tree_fuel());
        }
        self.rows.push(row);
        if self.next_id < i64::MAX {
            self.next_id = id + 1;
        }
        proof {
            assert(self@ == old_view.insert(id, row));
            assert forall|a: i64, b: i64|
                #![trigger self@.dom().contains(a), self@.dom().contains(b)]
                self@.dom().contains(a) && self@.dom().contains(b) && a != b implies self@[a].info.user_defined_id@
                    != self@[b].info.user_defined_id@ by {
                if a != id {
                    assert(old_view.dom().contains(a));
                }
                if b != id {
                    assert(old_view.dom().contains(b));
                }
            }
            assert forall|i: int| 0 <= i < self.rows@.len() implies #[trigger] self.rows@[i].info.id.0
                < self.next_id by {
                if i < old_rows.len() {
                    assert(self.rows@[i] == old_rows[i]);
                }
            }
        }
        Ok(ScenarioId(id))
    }

    proof fn lemma_positions_small(&self)
        requires
            self.wf(),
        ensures
            forall|j: int| 0 <= j < self.rows@.len() ==> #[trigger] self.rows@[j].position < u32::MAX,
    {
        lemma_rows_view_len(self.rows@);
        assert forall|j: int| 0 <= j < self.rows@.len() implies #[trigger] self.rows@[j].position < u32::MAX by {
            lemma_rows_view_at(self.rows@, j);
            lemma_position_bounded(self@, self.rows@[j].info.id.0);
        }
    }

    proof fn lemma_wf_after_relocate(&self, old_rows: Seq<ScenarioRow>, m: Rows, k: i64, np: Option<i64>, t: u32)
        requires
            ids_unique(self.rows@),
            ids_unique(old_rows),
            self.rows@.len() == old_rows.len(),
            old_rows.len() <= MAX_SCENARIOS,
            forall|j: int| 0 <= j < old_rows.len() ==> #[trigger] old_rows[j].info.id.0 < self.next_id,
            forall|j: int| 0 <= j < self.rows@.len() ==> #[trigger] self.rows@[j].info.id == old_rows[j].info.id,
            self@ == moved(m, k, np, t),
            table_invariant(moved(m, k, np, t)),
        ensures
            self.wf(),
    {
        assert forall|j: int| 0 <= j < self.rows@.len() implies #[trigger] self.rows@[j].info.id.0 < self.next_id by {
            assert(old_rows[j].info.id.0 < self.next_id);
        }
    }

    /// Checks whether `k` may move under `np`.
    fn check_reparent(&self, mi: usize, np: Option<i64>) -> (r: Option<MoveScenarioError>)
        requires
            self.wf(),
            mi < self.rows@.len(),
            np matches Some(q) ==> self@.dom().contains(q),
        ensures
            r == reparent_error(self@, self.rows@[mi as int].info.id.0, np),
    {
        proof {
            lemma_rows_view_at(self.rows@, mi as int);
        }
        let k = self.rows[mi].info.id.0;
        if !same_parent(self.rows[mi].parent, np) {
            if let Some(q) = np {
                if self.subtree_contains(k, q, MAX_SCENARIO_TREE_DEPTH) {
                    return Some(MoveScenarioError::TargetScenarioIsChildOfMoveScenario);
                }
                let nd = match self.get_scenario_depth(q) {
                    Some(d) => d,
                    None => 0,
                };
                let cd = self.get_scenario_child_depth(k);
                proof {
                    lemma_depth_lt_fuel(links(self@), q, tree_fuel());
                    assert(in_subtree_of(self@, k, k));
                    assert(dist_below(self@, k, k) == 0);
                }
                if nd + cd >= MAX_SCENARIO_TREE_DEPTH {
                    return Some(MoveScenarioError::MaxScenarioTreeDepthExceeded);
                }
                proof {
                    assert(!would_be_too_deep(self@, k, q));
                }
            }
        }
        None
    }

    /// Detaches row `mi` from its siblings and attaches it at position `t` under `np`.
    fn relocate(&mut self, mi: usize, np: Option<i64>, t: u32)
        requires
            ids_unique(old(self).rows@),
            mi < old(self).rows@.len(),
            t >= 1,
            forall|j: int| 0 <= j < old(self).rows@.len() ==> #[trigger] old(self).rows@[j].position < u32::MAX,
        ensures
            ids_unique(final(self).rows@),
            final(self).rows@.len() == old(self).rows@.len(),
            final(self).next_id == old(self).next_id,
            final(self)@ == moved(old(self)@, old(self).rows@[mi as int].info.id.0, np, t),
            forall|j: int| 0 <= j < final(self).rows@.len() ==> #[trigger] final(self).rows@[j].info.id == old(self).rows@[j].info.id,
    {
        let ghost old_rows = self.rows@;
        let ghost m = self@;
        let ghost k = old_rows[mi as int].info.id.0;
        proof {
            lemma_rows_view_at(old_rows, mi as int);
        }
        let op = self.rows[mi].parent;
        let o = self.rows[mi].position;
        let n = self.rows.len();
        let mut i: usize = 0;
        while i < n
            invariant
                n == old_rows.len(),
                self.rows@.len() == n,
                self.next_id == old(self).next_id,
                i <= n,
                forall|j: int| 0 <= j < i ==> #[trigger] self.rows@[j] == detach_row(old_rows[j], op, o),
                forall|j: int| i <= j < n ==> #[trigger] self.rows@[j] == old_rows[j],
            decreases n - i,
        {
            if same_parent(self.rows[i].parent, op) && self.rows[i].position > o {
                let p = self.rows[i].position;
                self.rows[i].position = p - 1;
            }
            i += 1;
        }
        let ghost det_rows = self.rows@;
        proof {
            assert forall|j: int| 0 <= j < n implies #[trigger] det_rows[j].position < u32::MAX by {
                assert(det_rows[j] == detach_row(old_rows[j], op, o));
            }
            let f = |r: ScenarioRow| detach_row(r, op, o);
            lemma_rows_view_pointwise(old_rows, det_rows, f);
            assert(rows_view(det_rows) =~= detached(m, k));
        }
        let mut i: usize = 0;
        while i < n
            invariant
                n == old_rows.len(),
                n == det_rows.len(),
                mi < n,
                self.rows@.len() == n,
                self.next_id == old(self).next_id,
                i <= n,
                forall|j: int| 0 <= j < n ==> #[trigger] det_rows[j].position < u32::MAX,
                forall|j: int|
                    0 <= j < i && j != mi ==> #[trigger] self.rows@[j] == attach_row(det_rows[j], np, t),
                forall|j: int| (i <= j < n || j == mi) ==> #[trigger] self.rows@[j] == det_rows[j],
            decreases n - i,
        {
            if i != mi && same_parent(self.rows[i].parent, np) && self.rows[i].position >= t {
                let p = self.rows[i].position;
                self.rows[i].position = p + 1;
            }
            i += 1;
        }
        self.rows[mi].parent = np;
        self.rows[mi].position = t;
        proof {
            let f = |r: ScenarioRow| attach_row(r, np, t);
            let s_att = Seq::new(n as nat, |j: int| attach_row(det_rows[j], np, t));
            lemma_rows_view_pointwise(det_rows, s_att, f);
            let newrow = ScenarioRow { parent: np, position: t, ..det_rows[mi as int] };
            assert(self.rows@ =~= s_att.update(mi as int, newrow));
            lemma_rows_view_update(s_att, mi as int, newrow);
            assert(self.rows@ == s_att.update(mi as int, newrow));
            assert(ids_unique(self.rows@));
            lemma_rows_view_at(det_rows, mi as int);
            assert(self@ =~= moved(m, k, np, t));
            assert forall|j: int| 0 <= j < self.rows@.len() implies #[trigger] self.rows@[j].info.id == old_rows[j].info.id by {
                assert(det_rows[j] == detach_row(old_rows[j], op, o));
                if j != mi {
                    assert(self.rows@[j] == attach_row(det_rows[j], np, t));
                }
            }
        }
    }

    /// Moves scenario `move_scenario_id` (with its subtree) to sit just before
    /// `before_scenario_id`, under the same parent.
    pub fn move_scenario_before(&mut self, move_scenario_id: ScenarioId, before_scenario_id: ScenarioId) -> (r:
        Result<(), MoveScenarioError>)
        requires
            old(self).wf(),
        ensures
            final(self).wf(),
            final(self).next_id() == old(self).next_id(),
            match r {
                Ok(()) => {
                    &&& move_beside_error(old(self)@, move_scenario_id.0, before_scenario_id.0) is None
                    &&& final(self)@ == moved(
                        old(self)@,
                        move_scenario_id.0,
                        old(self)@[before_scenario_id.0].parent,
                        before_slot(old(self)@, move_scenario_id.0, before_scenario_id.0),
                    )
                },
                Err(e) => {
                    &&& move_beside_error(old(self)@, move_scenario_id.0, before_scenario_id.0) == Some(e)
                    &&& final(self)@ == old(self)@
                },
            },
    {
        let mi = match self.index_of(move_scenario_id.0) {
            Some(i) => i,
            None => {
                return Err(MoveScenarioError::MoveScenarioNotFound);
            },
        };
        let ti = match self.index_of(before_scenario_id.0) {
            Some(i) => i,
            None => {
                return Err(MoveScenarioError::TargetScenarioNotFound);
            },
        };
        let np = self.rows[ti].parent;
        let o = self.rows[mi].position;
        let b = self.rows[ti].position;
        proof {
            self.lemma_wf_invariant();
            if let Some(q) = np {
                crate::tree::lemma_parent_known(links(self@), before_scenario_id.0, tree_fuel());
            }
        }
        if let Some(e) = self.check_reparent(mi, np) {
            return Err(e);
        }
        let t = if same_parent(self.rows[mi].parent, np) && b > o {
            b - 1
        } else {
            b
        };
        let ghost m = self@;
        let ghost k = move_scenario_id.0;
        proof {
            lemma_before_slot_valid(m, k, before_scenario_id.0);
            lemma_move_keeps_invariant(m, k, np, t);
            self.lemma_positions_small();
        }
        let ghost old_rows = self.rows@;
        self.relocate(mi, np, t);
        proof {
            self.lemma_wf_after_relocate(old_rows, m, k, np, t);
        }
        Ok(())
    }

    /// Moves scenario `move_scenario_id` (with its subtree) to sit just after
    /// `after_scenario_id`, under the same parent.
    pub fn move_scenario_after(&mut self, move_scenario_id: ScenarioId, after_scenario_id: ScenarioId) -> (r:
        Result<(), MoveScenarioError>)
        requires
            old(self).wf(),
        ensures
            final(self).wf(),
            final(self).next_id() == old(self).next_id(),
            match r {
                Ok(()) => {
                    &&& move_beside_error(old(self)@, move_scenario_id.0, after_scenario_id.0) is None
                    &&& final(self)@ == moved(
                        old(self)@,
                        move_scenario_id.0,
                        old(self)@[after_scenario_id.0].parent,
                        after_slot(old(self)@, move_scenario_id.0, after_scenario_id.0),
                    )
                },
                Err(e) => {
                    &&& move_beside_error(old(self)@, move_scenario_id.0, after_scenario_id.0) == Some(e)
                    &&& final(self)@ == old(self)@
                },
            },
    {
        let mi = match self.index_of(move_scenario_id.0) {
            Some(i) => i,
            None => {
                return Err(MoveScenarioError::MoveScenarioNotFound);
            },
        };
        let ti = match self.index_of(after_scenario_id.0) {
            Some(i) => i,
            None => {
                return Err(MoveScenarioError::TargetScenarioNotFound);
            },
        };
        let np = self.rows[ti].parent;
        let o = self.rows[mi].position;
        let a = self.rows[ti].position;
        proof {
            self.lemma_wf_invariant();
            self.lemma_positions_small();
            if let Some(q) = np {
                crate::tree::lemma_parent_known(links(self@), after_scenario_id.0, tree_fuel());
            }
        }
        if let Some(e) = self.check_reparent(mi, np) {
            return Err(e);
        }
        let t = if same_parent(self.rows[mi].parent, np) && a + 1 > o {
            a
        } else {
            a + 1
        };
        let ghost m = self@;
        let ghost k = move_scenario_id.0;
        proof {
            lemma_after_slot_valid(m, k, after_scenario_id.0);
            lemma_move_keeps_invariant(m, k, np, t);
        }
        let ghost old_rows = self.rows@;
        self.relocate(mi, np, t);
        proof {
            self.lemma_wf_after_relocate(old_rows, m, k, np, t);
        }
        Ok(())
    }

    /// Moves scenario `move_scenario_id` (with its subtree) to be the last child
    /// of `parent_scenario_id`; a scenario already under that parent stays put.
    pub fn move_scenario_inside(&mut self, move_scenario_id: ScenarioId, parent_scenario_id: ScenarioId) -> (r:
        Result<(), MoveScenarioError>)
        requires
            old(self).wf(),
        ensures
            final(self).wf(),
            final(self).next_id() == old(self).next_id(),
            match r {
                Ok(()) => {
                    &&& move_inside_error(old(self)@, move_scenario_id.0, parent_scenario_id.0) is None
                    &&& if old(self)@[move_scenario_id.0].parent == Some(parent_scenario_id.0) {
                        final(self)@ == old(self)@
                    } else {
                        final(self)@ == moved(
                            old(self)@,
                            move_scenario_id.0,
                            Some(parent_scenario_id.0),
                            next_position(old(self)@, Some(parent_scenario_id.0)),
                        )
                    }
                },
                Err(e) => {
                    &&& move_inside_error(old(self)@, move_scenario_id.0, parent_scenario_id.0) == Some(e)
                    &&& final(self)@ == old(self)@
                },
            },
    {
        let mi = match self.index_of(move_scenario_id.0) {
            Some(i) => i,
            None => {
                return Err(MoveScenarioError::MoveScenarioNotFound);
            },
        };
        match self.index_of(parent_scenario_id.0) {
            Some(_) => {},
            None => {
                return Err(MoveScenarioError::TargetScenarioNotFound);
            },
        }
        let np = Some(parent_scenario_id.0);
        if same_parent(self.rows[mi].parent, np) {
            return Ok(());
        }
        if let Some(e) = self.check_reparent(mi, np) {
            return Err(e);
        }
        let t = self.next_child_position(np);
        let ghost m = self@;
        let ghost k = move_scenario_id.0;
        proof {
            self.lemma_wf_invariant();
            self.lemma_positions_small();
            lemma_inside_slot_valid(m, k, parent_scenario_id.0, t);
            lemma_move_keeps_invariant(m, k, np, t);
        }
        let ghost old_rows = self.rows@;
        self.relocate(mi, np, t);
        proof {
            self.lemma_wf_after_relocate(old_rows, m, k, np, t);
        }
        Ok(())
    }

    /// Changes the user-defined id and description of a scenario, provided
    /// nobody modified it since `previous_modified_time`; stamps it with `now`.
    pub fn update_scenario_info(
        &mut self,
        scenario_id: ScenarioId,
        user_defined_id: String,
        description: String,
        previous_modified_time: Timestamp,
        now: Timestamp,
    ) -> (r: Result<(), UpdateScenarioInfoError>)
        requires
            old(self).wf(),
        ensures
            final(self).wf(),
            final(self).next_id() == old(self).next_id(),
            match r {
                Ok(()) => {
                    &&& update_info_error(
                        old(self)@,
                        scenario_id.0,
                        user_defined_id@,
                        previous_modified_time,
                    ) is None
                    &&& final(self)@ == old(self)@.insert(
                        scenario_id.0,
                        updated_row(old(self)@[scenario_id.0], user_defined_id, description, now),
                    )
                },
                Err(e) => {
                    &&& update_info_error(
                        old(self)@,
                        scenario_id.0,
                        user_defined_id@,
                        previous_modified_time,
                    ) == Some(e)
                    &&& final(self)@ == old(self)@
                },
            },
    {
        let k = scenario_id.0;
        let mi = match self.index_of(k) {
            Some(i) => i,
            None => {
                return Err(UpdateScenarioInfoError::ScenarioNotFound);
            },
        };
        if previous_modified_time != self.rows[mi].info.modified_time {
            return Err(UpdateScenarioInfoError::ModifiedTimeDoesNotMatchDatabase);
        }
        if user_defined_id != self.rows[mi].info.user_defined_id {
            match self.lookup_scenario(user_defined_id.clone()) {
                Ok(_) => {
                    return Err(UpdateScenarioInfoError::UserDefinedIdAlreadyExists);
                },
                Err(_) => {},
            }
        }
        let ghost m = self@;
        let ghost old_rows = self.rows@;
        let ghost nr = updated_row(old_rows[mi as int], user_defined_id, description, now);
        self.rows[mi].info.user_defined_id = user_defined_id;
        self.rows[mi].info.description = description;
        self.rows[mi].info.modified_time = now;
        proof {
            assert(self.rows@ =~= old_rows.update(mi as int, nr));
            lemma_rows_view_update(old_rows, mi as int, nr);
            let m2 = self@;
            assert(m2 == m.insert(k, nr));
            assert(links(m2) =~= links(m));
            assert forall|a: i64, b: i64|
                #![trigger m2.dom().contains(a), m2.dom().contains(b)]
                m2.dom().contains(a) && m2.dom().contains(b) && a != b implies m2[a].info.user_defined_id@
                    != m2[b].info.user_defined_id@ by {
                assert(m.dom().contains(a) && m.dom().contains(b));
            }
            assert forall|a: i64| #[trigger] m2.dom().contains(a) && Some(a) != None::<i64> && m2[a].position > 1 implies has_position_except(
                m2,
                m2[a].parent,
                m2[a].position - 1,
                None,
            ) by {
                assert(m.dom().contains(a));
                let b = choose|b: i64|
                    #![trigger m.dom().contains(b)]
                    m.dom().contains(b) && Some(b) != None::<i64> && m[b].parent == m[a].parent && m[b].position
                        == m[a].position - 1;
                assert(m2.dom().contains(b));
            }
            assert forall|a: i64, b: i64|
                #![trigger m2.dom().contains(a), m2.dom().contains(b)]
                m2.dom().contains(a) && m2.dom().contains(b) && Some(a) != None::<i64> && Some(b) != None::<i64>
                    && a != b && m2[a].parent == m2[b].parent implies m2[a].position != m2[b].position by {
                assert(m.dom().contains(a) && m.dom().contains(b));
            }
            assert forall|a: i64| #[trigger] m2.dom().contains(a) && Some(a) != None::<i64> implies m2[a].position >= 1 by {
                assert(m.dom().contains(a));
            }
            assert forall|j: int| 0 <= j < self.rows@.len() implies #[trigger] self.rows@[j].info.id.0 < self.next_id by {
                assert(self.rows@[j].info.id == old_rows[j].info.id);
            }
        }
        Ok(())
    }

    /// The row of the child of `parent` at `pos`.
    fn find_child(&self, parent: Option<i64>, pos: u32) -> (r: Option<usize>)
        requires
            self.wf(),
        ensures
            match r {
                Some(i) => i < self.rows@.len() && self.rows@[i as int].parent == parent
                    && self.rows@[i as int].position == pos && self@.dom().contains(
                    self.rows@[i as int].info.id.0,
                ) && self@[self.rows@[i as int].info.id.0] == self.rows@[i as int],
                None => !has_position(self@, parent, pos as int),
            },
    {
        let n = self.rows.len();
        let mut i: usize = 0;
        while i < n
            invariant
                self.wf(),
                n == self.rows@.len(),
                i <= n,
                forall|j: int|
                    0 <= j < i ==> !(#[trigger] self.rows@[j].parent == parent && self.rows@[j].position == pos),
            decreases n - i,
        {
            if same_parent(self.rows[i].parent, parent) && self.rows[i].position == pos {
                proof {
                    lemma_rows_view_at(self.rows@, i as int);
                }
                return Some(i);
            }
            i += 1;
        }
        proof {
            if has_position(self@, parent, pos as int) {
                let b = choose|b: i64|
                    #![trigger self@.dom().contains(b)]
                    self@.dom().contains(b) && Some(b) != None::<i64> && self@[b].parent == parent
                        && self@[b].position == pos;
                let j = choose|j: int| 0 <= j < self.rows@.len() && #[trigger] self.rows@[j].info.id.0 == b;
                lemma_rows_view_at(self.rows@, j);
                assert(self.rows@[j].parent == parent);
            }
        }
        None
    }

    fn list_children(&self, parent: Option<i64>, recursion_depth: u8) -> (r: Vec<ScenarioTreeNode>)
        requires
            self.wf(),
            recursion_depth <= MAX_SCENARIO_TREE_DEPTH,
            parent is None ==> recursion_depth == 0,
            parent is Some ==> recursion_depth >= 1,
            parent matches Some(p) ==> self@.dom().contains(p) && depth_of(self@, p) == Some(
                (recursion_depth - 1) as nat,
            ),
        ensures
            lists_forest(self@, parent, r@, (tree_fuel() + 1 - recursion_depth) as nat),
        decreases MAX_SCENARIO_TREE_DEPTH - recursion_depth,
    {
        let ghost m = self@;
        let ghost fuel = (tree_fuel() + 1 - recursion_depth) as nat;
        proof {
            self.lemma_wf_invariant();
        }
        let mut result: Vec<ScenarioTreeNode> = Vec::new();
        let mut pos: u32 = 1;
        loop
            invariant_except_break
                self.wf(),
                m == self@,
                table_invariant(m),
                fuel == (tree_fuel() + 1 - recursion_depth) as nat,
                recursion_depth <= MAX_SCENARIO_TREE_DEPTH,
                parent is None ==> recursion_depth == 0,
                parent is Some ==> recursion_depth >= 1,
                parent matches Some(p) ==> m.dom().contains(p) && depth_of(m, p) == Some(
                    (recursion_depth - 1) as nat,
                ),
                1 <= pos <= m.dom().len() + 1,
                pos == 1 || has_position(m, parent, pos - 1),
                forest_prefix_ok(m, listed_prefix(m, parent, (pos - 1) as nat), result@, (fuel - 1) as nat),
            ensures
                lists_forest(m, parent, result@, fuel),
            decreases m.dom().len() + 1 - pos,
        {
            match self.find_child(parent, pos) {
                None => {
                    proof {
                        lemma_listing_done(m, parent, pos);
                    }
                    break;
                },
                Some(i) => {
                    let c = self.rows[i].info.id.0;
                    proof {
                        lemma_listing_step(m, parent, pos, c);
                        lemma_position_bounded(m, c);
                    }
                    if parent.is_some() || c > 1 {
                        proof {
                            lemma_listed_child_depth(m, parent, c, recursion_depth);
                        }
                        let children = self.list_children(Some(c), recursion_depth + 1);
                        let node = ScenarioTreeNode { info: self.rows[i].info.duplicate(), children };
                        result.push(node);
                        proof {
                            let kids = listed_prefix(m, parent, pos as nat);
                            assert forall|j: int| 0 <= j < result@.len() implies (#[trigger] result@[j]).info
                                == m[kids[j]].info && lists_forest(m, Some(kids[j]), result@[j].children@, (fuel - 1) as nat) by {
                                if j < result@.len() - 1 {
                                    assert(result@[j] == old_result_at(result@, j));
                                }
                            }
                        }
                    }
                    pos = pos + 1;
                },
            }
        }
        result
    }

    /// The whole methodology tree: the top-level scenarios in position order
    /// (leaving out scenario 1, which collects unassigned proxy traffic), each
    /// with its children, recursively.
    pub fn list_scenarios(&self) -> (r: Vec<ScenarioTreeNode>)
        requires
            self.wf(),
        ensures
            lists_forest(self@, None, r@, tree_fuel() + 1),
    {
        self.list_children(None, 0)
    }

    fn check_ids_unique(rows: &Vec<ScenarioRow>) -> (b: bool)
        ensures
            b == ids_unique(rows@),
    {
        let n = rows.len();
        let mut i: usize = 0;
        while i < n
            invariant
                n == rows@.len(),
                i <= n,
                forall|a: int, c: int|
                    0 <= a < i && 0 <= c < n && #[trigger] rows@[a].info.id.0 == #[trigger] rows@[c].info.id.0
                        ==> a == c,
            decreases n - i,
        {
            let mut j: usize = 0;
            while j < n
                invariant
                    n == rows@.len(),
                    i < n,
                    j <= n,
                    forall|a: int, c: int|
                        0 <= a < i && 0 <= c < n && #[trigger] rows@[a].info.id.0 == #[trigger] rows@[c].info.id.0
                            ==> a == c,
                    forall|c: int| 0 <= c < j && #[trigger] rows@[c].info.id.0 == rows@[i as int].info.id.0 ==> c == i,
                decreases n - j,
            {
                if j != i && rows[j].info.id.0 == rows[i].info.id.0 {
                    return false;
                }
                j += 1;
            }
            i += 1;
        }
        true
    }

    fn check_ids_below(rows: &Vec<ScenarioRow>, next_id: i64) -> (b: bool)
        ensures
            b == forall|i: int| 0 <= i < rows@.len() ==> #[trigger] rows@[i].info.id.0 < next_id,
    {
        let n = rows.len();
        let mut i: usize = 0;
        while i < n
            invariant
                n == rows@.len(),
                i <= n,
                forall|a: int| 0 <= a < i ==> #[trigger] rows@[a].info.id.0 < next_id,
            decreases n - i,
        {
            if rows[i].info.id.0 >= next_id {
                return false;
            }
            i += 1;
        }
        true
    }

    fn check_user_ids_unique(&self) -> (b: bool)
        requires
            ids_unique(self.rows@),
        ensures
            b == user_ids_unique(self@),
    {
        proof {
            lemma_rows_view_all(self.rows@);
        }
        let n = self.rows.len();
        let mut i: usize = 0;
        while i < n
            invariant
                ids_unique(self.rows@),
                n == self.rows@.len(),
                i <= n,
                forall|a: int, c: int|
                    0 <= a < i && 0 <= c < n && a != c ==> #[trigger] self.rows@[a].info.user_defined_id@
                        != #[trigger] self.rows@[c].info.user_defined_id@,
            decreases n - i,
        {
            let mut j: usize = 0;
            while j < n
                invariant
                    ids_unique(self.rows@),
                    n == self.rows@.len(),
                    i < n,
                    j <= n,
                    forall|a: int, c: int|
                        0 <= a < i && 0 <= c < n && a != c ==> #[trigger] self.rows@[a].info.user_defined_id@
                            != #[trigger] self.rows@[c].info.user_defined_id@,
                    forall|c: int|
                        0 <= c < j && c != i ==> #[trigger] self.rows@[c].info.user_defined_id@
                            != self.rows@[i as int].info.user_defined_id@,
                decreases n - j,
            {
                if j != i && self.rows[j].info.user_defined_id == self.rows[i].info.user_defined_id {
                    proof {
                        lemma_rows_view_at(self.rows@, i as int);
                        lemma_rows_view_at(self.rows@, j as int);
                        let a = self.rows@[i as int].info.id.0;
                        let c = self.rows@[j as int].info.id.0;
                        assert(self@.dom().contains(a) && self@.dom().contains(c) && a != c);
                    }
                    return false;
                }
                j += 1;
            }
            i += 1;
        }
        proof {
            assert forall|a: i64, c: i64|
                #![trigger self@.dom().contains(a), self@.dom().contains(c)]
                self@.dom().contains(a) && self@.dom().contains(c) && a != c implies self@[a].info.user_defined_id@
                    != self@[c].info.user_defined_id@ by {
                let x = choose|x: int| 0 <= x < self.rows@.len() && #[trigger] self.rows@[x].info.id.0 == a;
                let y = choose|y: int| 0 <= y < self.rows@.len() && #[trigger] self.rows@[y].info.id.0 == c;
                lemma_rows_view_at(self.rows@, x);
                lemma_rows_view_at(self.rows@, y);
            }
        }
        true
    }

    fn check_siblings_ordered(&self) -> (b: bool)
        requires
            ids_unique(self.rows@),
            self.rows@.len() <= MAX_SCENARIOS,
        ensures
            b == siblings_ordered(self@),
    {
        proof {
            lemma_rows_view_all(self.rows@);
        }
        let n = self.rows.len();
        let ghost m = self@;
        let mut i: usize = 0;
        while i < n
            invariant
                ids_unique(self.rows@),
                m == self@,
                n == self.rows@.len(),
                i <= n,
                forall|a: int|
                    0 <= a < i ==> (#[trigger] self.rows@[a]).position >= 1 && (self.rows@[a].position > 1
                        ==> has_position(m, self.rows@[a].parent, self.rows@[a].position - 1)),
                forall|a: int, c: int|
                    #![trigger self.rows@[a], self.rows@[c]]
                    0 <= a < i && 0 <= c < n && a != c && self.rows@[a].parent
                        == self.rows@[c].parent ==> self.rows@[a].position != self.rows@[c].position,
            decreases n - i,
        {
            let p = self.rows[i].position;
            if p < 1 {
                proof {
                    lemma_rows_view_at(self.rows@, i as int);
                    assert(m.dom().contains(self.rows@[i as int].info.id.0));
                }
                return false;
            }
            let mut j: usize = 0;
            let mut found_prev = p == 1;
            while j < n
                invariant
                    ids_unique(self.rows@),
                    m == self@,
                    n == self.rows@.len(),
                    i < n,
                    j <= n,
                    p == self.rows@[i as int].position,
                    p >= 1,
                    found_prev ==> (p == 1 || has_position(m, self.rows@[i as int].parent, p - 1)),
                    !found_prev ==> p > 1,
                    !found_prev ==> forall|c: int|
                        #![trigger self.rows@[c]]
                        0 <= c < j ==> !(self.rows@[c].parent == self.rows@[i as int].parent
                            && self.rows@[c].position == p - 1),
                    forall|c: int|
                        #![trigger self.rows@[c]]
                        0 <= c < j && c != i && self.rows@[c].parent == self.rows@[i as int].parent
                            ==> self.rows@[c].position != p,
                decreases n - j,
            {
                if same_parent(self.rows[j].parent, self.rows[i].parent) {
                    if j != i && self.rows[j].position == p {
                        proof {
                            lemma_rows_view_at(self.rows@, i as int);
                            lemma_rows_view_at(self.rows@, j as int);
                            let a = self.rows@[i as int].info.id.0;
                            let c = self.rows@[j as int].info.id.0;
                            assert(m.dom().contains(a) && m.dom().contains(c) && a != c);
                        }
                        return false;
                    }
                    if p > 1 && self.rows[j].position == p - 1 {
                        proof {
                            lemma_rows_view_at(self.rows@, j as int);
                            let b = self.rows@[j as int].info.id.0;
                            assert(m.dom().contains(b));
                            assert(m[b] == self.rows@[j as int]);
                            assert(m[b].parent == self.rows@[i as int].parent);
                            assert(has_position(m, self.rows@[i as int].parent, p - 1));
                        }
                        found_prev = true;
                    }
                }
                j += 1;
            }
            if !found_prev {
                proof {
                    lemma_rows_view_at(self.rows@, i as int);
                    let a = self.rows@[i as int].info.id.0;
                    if has_position(m, m[a].parent, m[a].position - 1) {
                        let b = choose|b: i64|
                            #![trigger m.dom().contains(b)]
                            m.dom().contains(b) && Some(b) != None::<i64> && m[b].parent == m[a].parent
                                && m[b].position == m[a].position - 1;
                        let c = choose|c: int| 0 <= c < self.rows@.len() && #[trigger] self.rows@[c].info.id.0 == b;
                        lemma_rows_view_at(self.rows@, c);
                        assert(self.rows@[c].parent == self.rows@[i as int].parent);
                    }
                    assert(m.dom().contains(a));
                }
                return false;
            }
            i += 1;
        }
        proof {
            assert forall|a: i64| #[trigger] m.dom().contains(a) && Some(a) != None::<i64> implies m[a].position >= 1
                && (m[a].position > 1 ==> has_position_except(m, m[a].parent, m[a].position - 1, None)) by {
                let x = choose|x: int| 0 <= x < self.rows@.len() && #[trigger] self.rows@[x].info.id.0 == a;
                lemma_rows_view_at(self.rows@, x);
            }
            assert forall|a: i64, c: i64|
                #![trigger m.dom().contains(a), m.dom().contains(c)]
                m.dom().contains(a) && m.dom().contains(c) && Some(a) != None::<i64> && Some(c) != None::<i64>
                    && a != c && m[a].parent == m[c].parent implies m[a].position != m[c].position by {
                let x = choose|x: int| 0 <= x < self.rows@.len() && #[trigger] self.rows@[x].info.id.0 == a;
                let y = choose|y: int| 0 <= y < self.rows@.len() && #[trigger] self.rows@[y].info.id.0 == c;
                lemma_rows_view_at(self.rows@, x);
                lemma_rows_view_at(self.rows@, y);
            }
        }
        true
    }

    fn check_acyclic(&self) -> (b: bool)
        requires
            ids_unique(self.rows@),
        ensures
            b == acyclic(links(self@), tree_fuel()),
    {
        proof {
            lemma_rows_view_all(self.rows@);
        }
        let n = self.rows.len();
        let mut i: usize = 0;
        while i < n
            invariant
                ids_unique(self.rows@),
                n == self.rows@.len(),
                i <= n,
                forall|a: int|
                    0 <= a < i ==> depth_within(links(self@), #[trigger] self.rows@[a].info.id.0, tree_fuel()) is Some,
            decreases n - i,
        {
            if self.depth_from(self.rows[i].info.id.0, MAX_SCENARIO_TREE_DEPTH).is_none() {
                proof {
                    lemma_rows_view_at(self.rows@, i as int);
                    assert(links(self@).dom().contains(self.rows@[i as int].info.id.0));
                }
                return false;
            }
            i += 1;
        }
        proof {
            assert forall|x: i64| #[trigger] links(self@).dom().contains(x) implies depth_within(links(self@), x, tree_fuel()) is Some by {
                let a = choose|a: int| 0 <= a < self.rows@.len() && #[trigger] self.rows@[a].info.id.0 == x;
            }
        }
        true
    }

    /// A table holding `rows`, if they form a consistent methodology tree
    /// (distinct ids below `next_id`, at most `MAX_SCENARIOS` rows, distinct
    /// user-defined ids, siblings numbered 1..n, depth within the limit).
    pub fn from_rows(rows: Vec<ScenarioRow>, next_id: i64) -> (r: Option<ScenarioTable>)
        ensures
            match r {
                Some(t) => t.wf() && t@ == rows_view(rows@) && t.next_id() == next_id,
                None => !(ids_unique(rows@) && rows@.len() <= MAX_SCENARIOS && (forall|i: int|
                    0 <= i < rows@.len() ==> #[trigger] rows@[i].info.id.0 < next_id) && table_invariant(
                    rows_view(rows@),
                )),
            },
    {
        if rows.len() > MAX_SCENARIOS as usize {
            return None;
        }
        if !Self::check_ids_unique(&rows) {
            return None;
        }
        if !Self::check_ids_below(&rows, next_id) {
            return None;
        }
        let t = ScenarioTable { rows, next_id };
        if !t.check_user_ids_unique() {
            return None;
        }
        if !t.check_siblings_ordered() {
            return None;
        }
        if !t.check_acyclic() {
            return None;
        }
        Some(t)
    }

    /// The index of a row in the subtree of `k` that has testing data, if any.
    fn find_testing_data(&self, k: i64) -> (r: Option<usize>)
        requires
            self.wf(),
        ensures
            match r {
                Some(i) => i < self.rows@.len() && in_subtree_of(self@, k, self.rows@[i as int].info.id.0)
                    && self.rows@[i as int].has_testing_data,
                None => forall|j: int|
                    0 <= j < self.rows@.len() && #[trigger] in_subtree_of(self@, k, self.rows@[j].info.id.0)
                        ==> !self.rows@[j].has_testing_data,
            },
    {
        let n = self.rows.len();
        let mut i: usize = 0;
        while i < n
            invariant
                self.wf(),
                n == self.rows@.len(),
                i <= n,
                forall|j: int|
                    0 <= j < i && #[trigger] in_subtree_of(self@, k, self.rows@[j].info.id.0)
                        ==> !self.rows@[j].has_testing_data,
            decreases n - i,
        {
            let x = self.rows[i].info.id.0;
            if self.subtree_contains(k, x, MAX_SCENARIO_TREE_DEPTH) && self.rows[i].has_testing_data {
                return Some(i);
            }
            i += 1;
        }
        None
    }

    /// Deletes a scenario and everything below it, unless testing data refers
    /// to one of them; the siblings after it close the gap.
    pub fn delete_scenario(&mut self, scenario_id: ScenarioId) -> (r: Result<(), DeleteScenarioError>)
        requires
            old(self).wf(),
        ensures
            final(self).wf(),
            final(self).next_id() == old(self).next_id(),
            match r {
                Ok(()) => {
                    &&& old(self)@.dom().contains(scenario_id.0)
                    &&& !subtree_has_testing_data(old(self)@, scenario_id.0)
                    &&& final(self)@ == without_subtree(old(self)@, scenario_id.0)
                },
                Err(DeleteScenarioError::ScenarioNotFound) => {
                    &&& !old(self)@.dom().contains(scenario_id.0)
                    &&& final(self)@ == old(self)@
                },
                Err(DeleteScenarioError::ScenarioHasTestingData(u)) => {
                    &&& old(self)@.dom().contains(scenario_id.0)
                    &&& exists|x: i64|
                        #[trigger] in_subtree_of(old(self)@, scenario_id.0, x) && old(self)@.dom().contains(x)
                            && old(self)@[x].has_testing_data && old(self)@[x].info.user_defined_id@
                            == u@
                    &&& final(self)@ == old(self)@
                },
            },
    {
        let k = scenario_id.0;
        let mi = match self.index_of(k) {
            Some(i) => i,
            None => {
                return Err(DeleteScenarioError::ScenarioNotFound);
            },
        };
        let op = self.rows[mi].parent;
        let o = self.rows[mi].position;
        let n = self.rows.len();
        if let Some(bi) = self.find_testing_data(k) {
            let u = self.rows[bi].info.user_defined_id.clone();
            proof {
                lemma_rows_view_at(self.rows@, bi as int);
            }
            return Err(DeleteScenarioError::ScenarioHasTestingData(u));
        }
        let ghost m = self@;
        let ghost rows = self.rows@;
        proof {
            self.lemma_wf_invariant();
            lemma_rows_view_all(rows);
            assert forall|x: i64| #[trigger] in_subtree_of(m, k, x) && m.dom().contains(x) implies !m[x].has_testing_data by {
                let j = choose|j: int| 0 <= j < rows.len() && #[trigger] rows[j].info.id.0 == x;
            }
        }
        let mut kept: Vec<ScenarioRow> = Vec::new();
        let mut i: usize = 0;
        while i < n
            invariant
                self.rows@ == rows,
                self.next_id == old(self).next_id,
                old(self).rows@ == rows,
                m == rows_view(rows),
                ids_unique(rows),
                n == rows.len(),
                i <= n,
                ids_unique(kept@),
                kept@.len() <= i,
                rows_view(kept@) =~= Map::new(
                    |x: i64| exists|j: int| 0 <= j < i && #[trigger] rows[j].info.id.0 == x && !in_subtree_of(m, k, x),
                    |x: i64| detach_row(m[x], op, o),
                ),
            decreases n - i,
        {
            let x = self.rows[i].info.id.0;
            if !self.subtree_contains(k, x, MAX_SCENARIO_TREE_DEPTH) {
                let mut r = ScenarioRow {
                    info: self.rows[i].info.duplicate(),
                    parent: self.rows[i].parent,
                    position: self.rows[i].position,
                    has_testing_data: self.rows[i].has_testing_data,
                };
                if same_parent(r.parent, op) && r.position > o {
                    r.position = r.position - 1;
                }
                proof {
                    lemma_rows_view_at(rows, i as int);
                    assert(r == detach_row(m[x], op, o));
                    assert(!rows_view(kept@).dom().contains(x));
                    lemma_rows_view_push(kept@, r);
                }
                kept.push(r);
            }
            proof {
                let v = rows_view(kept@);
                let target = Map::new(
                    |y: i64| exists|j: int| 0 <= j < i + 1 && #[trigger] rows[j].info.id.0 == y && !in_subtree_of(m, k, y),
                    |y: i64| detach_row(m[y], op, o),
                );
                assert forall|y: i64| v.dom().contains(y) <==> target.dom().contains(y) by {
                    if target.dom().contains(y) {
                        let j = choose|j: int| 0 <= j < i + 1 && #[trigger] rows[j].info.id.0 == y && !in_subtree_of(m, k, y);
                        if j < i {
                            assert(rows[j].info.id.0 == y);
                        }
                    }
                }
                assert(v =~= target);
            }
            i += 1;
        }
        proof {
            lemma_rows_view_len(kept@);
            lemma_cut_keeps_invariant(m, k);
            let w = without_subtree(m, k);
            assert forall|y: i64| rows_view(kept@).dom().contains(y) <==> w.dom().contains(y) by {
                if w.dom().contains(y) {
                    let j = choose|j: int| 0 <= j < rows.len() && #[trigger] rows[j].info.id.0 == y;
                }
            }
            assert(rows_view(kept@) =~= w);
            vstd::set_lib::lemma_len_subset(w.dom(), m.dom());
            lemma_rows_view_len(rows);
        }
        self.rows = kept;
        proof {
            assert forall|j: int| 0 <= j < self.rows@.len() implies #[trigger] self.rows@[j].info.id.0 < self.next_id by {
                lemma_rows_view_at(self.rows@, j);
                let y = self.rows@[j].info.id.0;
                assert(m.dom().contains(y));
                let q = choose|q: int| 0 <= q < rows.len() && #[trigger] rows[q].info.id.0 == y;
                assert(old(self).rows@[q].info.id.0 < old(self).next_id);
            }
            assert(self@ == without_subtree(m, k));
            assert(!subtree_has_testing_data(m, k));
            assert(m.dom().contains(k));
            assert(self.wf());
        }
        Ok(())
    }

    /// The record of a scenario.
    pub fn get_scenario_info(&self, scenario_id: ScenarioId) -> (r: Result<ScenarioInfo, LookupError>)
        requires
            self.wf(),
        ensures
            match r {
                Ok(info) => self@.dom().contains(scenario_id.0) && info == self@[scenario_id.0].info,
                Err(e) => e == LookupError::NotFound && !self@.dom().contains(scenario_id.0),
            },
    {
        match self.index_of(scenario_id.0) {
            Some(i) => Ok(self.rows[i].info.duplicate()),
            None => Err(LookupError::NotFound),
        }
    }
}

} // verus!

verus! {

/// After a successful move before `t`, the moved scenario sits directly in
/// front of `t`, under the same parent.
pub proof fn lemma_move_before_places(m: Rows, k: i64, t: i64)
    requires
        table_invariant(m),
        k != t,
        move_beside_error(m, k, t) is None,
    ensures
        ({
            let m2 = moved(m, k, m[t].parent, before_slot(m, k, t));
            &&& m2[k].parent == m[t].parent
            &&& m2[t].parent == m[t].parent
            &&& m2[k].position + 1 == m2[t].position
        }),
{
    let np = m[t].parent;
    let ts = before_slot(m, k, t);
    let d = detached(m, k);
    let m2 = moved(m, k, np, ts);
    assert(m.dom().contains(k) && m.dom().contains(t));
    assert(d.dom().contains(t));
    assert(d[t] == detach_row(m[t], m[k].parent, m[k].position));
    assert(d[t].position == ts);
    assert(d[t].parent == np);
    lemma_position_bounded(m, t);
    assert(m2[t] == attach_row(d[t], np, ts));
}

/// After a successful move after `t`, the moved scenario sits directly behind
/// `t`, under the same parent.
pub proof fn lemma_move_after_places(m: Rows, k: i64, t: i64)
    requires
        table_invariant(m),
        k != t,
        move_beside_error(m, k, t) is None,
    ensures
        ({
            let m2 = moved(m, k, m[t].parent, after_slot(m, k, t));
            &&& m2[k].parent == m[t].parent
            &&& m2[t].parent == m[t].parent
            &&& m2[t].position + 1 == m2[k].position
        }),
{
    let np = m[t].parent;
    let ts = after_slot(m, k, t);
    let d = detached(m, k);
    let m2 = moved(m, k, np, ts);
    assert(m.dom().contains(k) && m.dom().contains(t));
    assert(d.dom().contains(t));
    assert(d[t] == detach_row(m[t], m[k].parent, m[k].position));
    lemma_position_bounded(m, t);
    assert(d[t].position + 1 == ts);
    assert(d[t].parent == np);
    assert(m2[t] == attach_row(d[t], np, ts));
}

/// After a successful move inside `p` (to a new parent), the moved scenario is
/// the last child of `p`.
pub proof fn lemma_move_inside_places(m: Rows, k: i64, p: i64)
    requires
        table_invariant(m),
        move_inside_error(m, k, p) is None,
        m[k].parent != Some(p),
    ensures
        ({
            let m2 = moved(m, k, Some(p), next_position(m, Some(p)));
            &&& m2[k].parent == Some(p)
            &&& forall|c: i64|
                #[trigger] m2.dom().contains(c) && c != k && m2[c].parent == Some(p) ==> m2[c].position
                    < m2[k].position
        }),
{
    let t = next_position(m, Some(p));
    let m2 = moved(m, k, Some(p), t);
    assert(m.dom().contains(k));
    crate::table::lemma_next_position_exists(m, Some(p));
    assert forall|c: i64| #[trigger] m2.dom().contains(c) && c != k && m2[c].parent == Some(p) implies m2[c].position
        < m2[k].position by {
        assert(m.dom().contains(c));
    }
}

/// A successful move changes only where scenarios sit: the same scenarios
/// remain, with the same records, and the table invariant still holds.
pub proof fn lemma_move_keeps_records(m: Rows, k: i64, np: Option<i64>, t: u32)
    requires
        table_invariant(m),
        m.dom().contains(k),
        reparent_error(m, k, np) is None,
        np matches Some(q) ==> m.dom().contains(q),
        valid_slot(detached(m, k), k, np, t),
    ensures
        table_invariant(moved(m, k, np, t)),
        moved(m, k, np, t).dom() == m.dom(),
        forall|x: i64| #[trigger] m.dom().contains(x) ==> moved(m, k, np, t)[x].info == m[x].info,
{
    lemma_move_keeps_invariant(m, k, np, t);
}

/// After a scenario is created, it is the only one with its user-defined id,
/// so looking that id up finds it.
pub proof fn lemma_created_is_found(
    m: Rows,
    id: i64,
    parent: Option<ScenarioId>,
    user_defined_id: String,
    description: String,
    type_: ScenarioType,
    now: Timestamp,
)
    requires
        table_invariant(m),
        !m.dom().contains(id),
        create_scenario_error(m, parent, user_defined_id@) is None,
    ensures
        ({
            let m2 = m.insert(id, created_row(m, id, parent, user_defined_id, description, type_, now));
            forall|a: i64|
                #[trigger] m2.dom().contains(a) && m2[a].info.user_defined_id@ == user_defined_id@ ==> a == id
        }),
{
    let m2 = m.insert(id, created_row(m, id, parent, user_defined_id, description, type_, now));
    assert forall|a: i64| #[trigger] m2.dom().contains(a) && m2[a].info.user_defined_id@ == user_defined_id@ implies a == id by {
        if a != id {
            assert(m.dom().contains(a));
            assert(user_id_taken(m, user_defined_id@));
        }
    }
}

/// Creating a top-level scenario can only fail because the table is full or
/// the user-defined id is taken.
pub proof fn lemma_top_level_create_errors(m: Rows, udid: Seq<char>)
    ensures
        create_scenario_error(m, None, udid) != Some(CreateScenarioError::ParentDoesNotExist),
        create_scenario_error(m, None, udid) != Some(CreateScenarioError::MaxScenarioTreeDepthExceeded),
{
}

/// An update that carries the modification time it last read, and keeps the
/// user-defined id or picks a free one, is accepted.
pub proof fn lemma_fresh_update_accepted(m: Rows, k: i64, udid: Seq<char>)
    requires
        m.dom().contains(k),
        udid == m[k].info.user_defined_id@ || !user_id_taken(m, udid),
    ensures
        update_info_error(m, k, udid, m[k].info.modified_time) is None,
{
}

pub proof fn lemma_next_position_exists(m: Rows, parent: Option<i64>)
    requires
        table_invariant(m),
    ensures
        is_next_position(m, parent, next_position(m, parent)),
{
    lemma_next_position_search(m, parent, 1);
}

proof fn lemma_next_position_search(m: Rows, parent: Option<i64>, t: u32)
    requires
        table_invariant(m),
        1 <= t <= m.dom().len() + 1,
        t == 1 || has_position(m, parent, t - 1),
    ensures
        is_next_position(m, parent, next_position(m, parent)),
    decreases m.dom().len() + 1 - t,
{
    if has_position(m, parent, t as int) {
        let b = choose|b: i64|
            #![trigger m.dom().contains(b)]
            m.dom().contains(b) && Some(b) != None::<i64> && m[b].parent == parent && m[b].position == t;
        lemma_position_bounded(m, b);
        lemma_next_position_search(m, parent, (t + 1) as u32);
    } else {
        assert forall|b: i64| #[trigger] m.dom().contains(b) && m[b].parent == parent implies m[b].position < t by {
            if m[b].position >= t {
                crate::positions::lemma_positions_contiguous(m, b, t as int);
            }
        }
        lemma_next_position_unique(m, parent, t);
    }
}

} // verus!
