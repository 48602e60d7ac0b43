//! Sibling order in the scenario table: the children of each parent carry the
//! positions 1, 2, ..., n without gaps or repeats. Moving a scenario first
//! detaches it (closing the gap it leaves) and then attaches it at a new slot
//! (opening a gap there).

use vstd::prelude::*;
use vstd::set_lib::*;
use crate::scenario::ScenarioRow;

verus! {

pub type Rows = Map<i64, ScenarioRow>;

/// Some scenario other than `skip` is a child of `parent` at `pos`.
pub open spec fn has_position_except(m: Rows, parent: Option<i64>, pos: int, skip: Option<i64>) -> bool {
    exists|b: i64|
        #![trigger m.dom().contains(b)]
        m.dom().contains(b) && Some(b) != skip && m[b].parent == parent && m[b].position == pos
}

/// Some scenario is a child of `parent` at `pos`.
pub open spec fn has_position(m: Rows, parent: Option<i64>, pos: int) -> bool {
    has_position_except(m, parent, pos, None)
}

/// Sibling order holds among all scenarios other than `skip`.
pub open spec fn siblings_ordered_except(m: Rows, skip: Option<i64>) -> bool {
    &&& forall|a: i64| #[trigger] m.dom().contains(a) && Some(a) != skip ==> m[a].position >= 1
    &&& forall|a: i64, b: i64|
        #![trigger m.dom().contains(a), m.dom().contains(b)]
        m.dom().contains(a) && m.dom().contains(b) && Some(a) != skip && Some(b) != skip && a != b
            && m[a].parent == m[b].parent ==> m[a].position != m[b].position
    &&& forall|a: i64|
        #[trigger] m.dom().contains(a) && Some(a) != skip && m[a].position > 1 ==> has_position_except(
            m,
            m[a].parent,
            m[a].position - 1,
            skip,
        )
}

/// The children of every parent are numbered 1..n without gaps or repeats.
pub open spec fn siblings_ordered(m: Rows) -> bool {
    siblings_ordered_except(m, None)
}

/// A sibling after position `pos` of `parent` moves up one place to close a gap.
pub open spec fn detach_row(r: ScenarioRow, parent: Option<i64>, pos: u32) -> ScenarioRow {
    if r.parent == parent && r.position > pos {
        ScenarioRow { position: (r.position - 1) as u32, ..r }
    } else {
        r
    }
}

/// A sibling at or after position `pos` of `parent` moves down one place to open a gap.
pub open spec fn attach_row(r: ScenarioRow, parent: Option<i64>, pos: u32) -> ScenarioRow {
    if r.parent == parent && r.position >= pos {
        ScenarioRow { position: (r.position + 1) as u32, ..r }
    } else {
        r
    }
}

/// `k` leaves its siblings, which close the gap behind it; `k` itself is unchanged.
pub open spec fn detached(m: Rows, k: i64) -> Rows {
    Map::new(
        |x: i64| m.dom().contains(x),
        |x: i64| if x == k { m[x] } else { detach_row(m[x], m[k].parent, m[k].position) },
    )
}

/// `k` becomes the child of `parent` at `pos`, and the siblings from `pos` on make room.
pub open spec fn attached(m: Rows, k: i64, parent: Option<i64>, pos: u32) -> Rows {
    Map::new(
        |x: i64| m.dom().contains(x),
        |x: i64|
            if x == k {
                ScenarioRow { parent: parent, position: pos, ..m[k] }
            } else {
                attach_row(m[x], parent, pos)
            },
    )
}

/// `k` moves to position `pos` under `parent`, the siblings on both sides adjusting.
pub open spec fn moved(m: Rows, k: i64, parent: Option<i64>, pos: u32) -> Rows {
    attached(detached(m, k), k, parent, pos)
}

/// Detaching `k` keeps the order among all the other scenarios.
pub proof fn lemma_detach_ordered(m: Rows, k: i64)
    requires
        siblings_ordered(m),
        m.dom().contains(k),
    ensures
        siblings_ordered_except(detached(m, k), Some(k)),
{
    let d = detached(m, k);
    let op = m[k].parent;
    let o = m[k].position;
    assert forall|a: i64| #[trigger] d.dom().contains(a) && Some(a) != Some(k) && d[a].position > 1 implies has_position_except(
        d,
        d[a].parent,
        d[a].position - 1,
        Some(k),
    ) by {
        let pa = m[a].position;
        assert(m.dom().contains(a));
        if m[a].parent == op && pa > o {
            // a moved up from pa to pa - 1
            assert(has_position_except(m, op, pa - 1, None));
            let b = choose|b: i64|
                #![trigger m.dom().contains(b)]
                m.dom().contains(b) && Some(b) != None::<i64> && m[b].parent == op && m[b].position == pa - 1;
            if pa - 1 > o {
                assert(b != k);
                assert(d.dom().contains(b));
                assert(d[b].position == pa - 2);
            } else {
                // pa - 1 == o: the slot below is the one below k
                assert(o > 1);
                assert(m.dom().contains(k));
                assert(has_position_except(m, op, o - 1, None));
                let c = choose|c: i64|
                    #![trigger m.dom().contains(c)]
                    m.dom().contains(c) && Some(c) != None::<i64> && m[c].parent == op && m[c].position == o - 1;
                assert(c != k);
                assert(d.dom().contains(c));
                assert(d[c].position == o - 1);
            }
        } else {
            assert(has_position_except(m, m[a].parent, pa - 1, None));
            let b = choose|b: i64|
                #![trigger m.dom().contains(b)]
                m.dom().contains(b) && Some(b) != None::<i64> && m[b].parent == m[a].parent && m[b].position
                    == pa - 1;
            if m[a].parent == op {
                assert(m.dom().contains(k));
                assert(pa != o);
                assert(pa < o);
            }
            assert(b != k);
            assert(d.dom().contains(b));
            assert(d[b].position == pa - 1);
        }
    }
    assert forall|a: i64, b: i64|
        #![trigger d.dom().contains(a), d.dom().contains(b)]
        d.dom().contains(a) && d.dom().contains(b) && Some(a) != Some(k) && Some(b) != Some(k) && a != b
            && d[a].parent == d[b].parent implies d[a].position != d[b].position by {
        assert(m.dom().contains(a) && m.dom().contains(b));
        assert(m.dom().contains(k));
    }
    assert forall|a: i64| #[trigger] d.dom().contains(a) && Some(a) != Some(k) implies d[a].position >= 1 by {
        assert(m.dom().contains(a));
        assert(m.dom().contains(k));
    }
}

/// `pos` is a slot where a child of `parent` can be attached: it is 1 or
/// follows an existing child.
pub open spec fn valid_slot(m: Rows, k: i64, parent: Option<i64>, pos: u32) -> bool {
    pos >= 1 && (pos == 1 || has_position_except(m, parent, pos - 1, Some(k)))
}

/// Attaching a detached scenario at a valid slot restores the order.
pub proof fn lemma_attach_ordered(d: Rows, k: i64, parent: Option<i64>, pos: u32)
    requires
        siblings_ordered_except(d, Some(k)),
        d.dom().contains(k),
        valid_slot(d, k, parent, pos),
        forall|x: i64| #[trigger] d.dom().contains(x) ==> d[x].position < u32::MAX,
    ensures
        siblings_ordered(attached(d, k, parent, pos)),
{
    let a2 = attached(d, k, parent, pos);
    assert forall|a: i64| #[trigger] a2.dom().contains(a) && Some(a) != None::<i64> && a2[a].position > 1 implies has_position_except(
        a2,
        a2[a].parent,
        a2[a].position - 1,
        None,
    ) by {
        assert(d.dom().contains(a));
        if a == k {
            let b = choose|b: i64|
                #![trigger d.dom().contains(b)]
                d.dom().contains(b) && Some(b) != Some(k) && d[b].parent == parent && d[b].position == pos - 1;
            assert(a2.dom().contains(b));
            assert(a2[b].position == pos - 1);
        } else {
            let pa = d[a].position;
            if d[a].parent == parent && pa >= pos {
                if pa == pos {
                    assert(a2.dom().contains(k));
                } else {
                    let b = choose|b: i64|
                        #![trigger d.dom().contains(b)]
                        d.dom().contains(b) && Some(b) != Some(k) && d[b].parent == parent && d[b].position
                            == pa - 1;
                    assert(a2.dom().contains(b));
                    assert(a2[b].position == pa);
                }
            } else {
                let b = choose|b: i64|
                    #![trigger d.dom().contains(b)]
                    d.dom().contains(b) && Some(b) != Some(k) && d[b].parent == d[a].parent
                        && d[b].position == pa - 1;
                assert(a2.dom().contains(b));
                assert(a2[b].position == pa - 1);
            }
        }
    }
    assert forall|a: i64, b: i64|
        #![trigger a2.dom().contains(a), a2.dom().contains(b)]
        a2.dom().contains(a) && a2.dom().contains(b) && Some(a) != None::<i64> && Some(b) != None::<i64>
            && a != b && a2[a].parent == a2[b].parent implies a2[a].position != a2[b].position by {
        assert(d.dom().contains(a) && d.dom().contains(b));
    }
    assert forall|a: i64| #[trigger] a2.dom().contains(a) && Some(a) != None::<i64> implies a2[a].position >= 1 by {
        assert(d.dom().contains(a));
    }
}

/// Every position from 1 up to that of an existing child is taken by some child.
pub proof fn lemma_positions_contiguous(m: Rows, a: i64, k: int)
    requires
        siblings_ordered(m),
        m.dom().contains(a),
        1 <= k <= m[a].position,
    ensures
        has_position(m, m[a].parent, k),
    decreases m[a].position - k,
{
    if k < m[a].position {
        let b = choose|b: i64|
            #![trigger m.dom().contains(b)]
            m.dom().contains(b) && Some(b) != None::<i64> && m[b].parent == m[a].parent && m[b].position
                == m[a].position - 1;
        lemma_positions_contiguous(m, b, k);
    } else {
        assert(m.dom().contains(a));
    }
}

/// No position exceeds the number of scenarios.
pub proof fn lemma_position_bounded(m: Rows, a: i64)
    requires
        siblings_ordered(m),
        m.dom().finite(),
        m.dom().contains(a),
    ensures
        m[a].position <= m.dom().len(),
{
    let p = m[a].parent;
    let n = m[a].position as int;
    let w = m.dom().filter(|b: i64| m[b].parent == p && 1 <= m[b].position <= n);
    let f = |b: i64| m[b].position as int;
    let r = set_int_range(1, n + 1);
    assert forall|k: int| #[trigger] r.contains(k) implies w.map(f).contains(k) by {
        lemma_positions_contiguous(m, a, k);
        let b = choose|b: i64|
            #![trigger m.dom().contains(b)]
            m.dom().contains(b) && Some(b) != None::<i64> && m[b].parent == p && m[b].position == k;
        assert(w.contains(b));
    }
    assert forall|k: int| #[trigger] w.map(f).contains(k) implies r.contains(k) by {
        let b = choose|b: i64| w.contains(b) && f(b) == k;
    }
    assert(w.map(f) =~= r);
    lemma_int_range(1, n + 1);
    lemma_map_size_bound(w, r, f);
    lemma_len_subset(w, m.dom());
}

} // verus!

verus! {

/// `t` is one past the last position among the children of `parent` (1 when there are none).
pub open spec fn is_next_position(m: Rows, parent: Option<i64>, t: u32) -> bool {
    &&& t >= 1
    &&& forall|b: i64|
        #[trigger] m.dom().contains(b) && m[b].parent == parent ==> m[b].position < t
    &&& t == 1 || has_position(m, parent, t - 1)
}

/// The position a new last child of `parent` takes.
pub open spec fn next_position(m: Rows, parent: Option<i64>) -> u32 {
    choose|t: u32| is_next_position(m, parent, t)
}

pub proof fn lemma_next_position_unique(m: Rows, parent: Option<i64>, t: u32)
    requires
        is_next_position(m, parent, t),
    ensures
        next_position(m, parent) == t,
{
    let u = next_position(m, parent);
    assert(is_next_position(m, parent, u));
    if u < t {
        let b = choose|b: i64|
            #![trigger m.dom().contains(b)]
            m.dom().contains(b) && Some(b) != None::<i64> && m[b].parent == parent && m[b].position == t - 1;
        assert(m[b].position < u);
    }
    if t < u {
        let b = choose|b: i64|
            #![trigger m.dom().contains(b)]
            m.dom().contains(b) && Some(b) != None::<i64> && m[b].parent == parent && m[b].position == u - 1;
        assert(m[b].position < t);
    }
}

/// Adding a new scenario as the last child of its parent keeps the order.
pub proof fn lemma_append_child_ordered(m: Rows, k: i64, r: ScenarioRow)
    requires
        siblings_ordered(m),
        !m.dom().contains(k),
        is_next_position(m, r.parent, r.position),
    ensures
        siblings_ordered(m.insert(k, r)),
{
    let m2 = m.insert(k, r);
    assert forall|a: i64| #[trigger] m2.dom().contains(a) && Some(a) != None::<i64> && m2[a].position > 1 implies has_position_except(
        m2,
        m2[a].parent,
        m2[a].position - 1,
        None,
    ) by {
        if a == k {
            let b = choose|b: i64|
                #![trigger m.dom().contains(b)]
                m.dom().contains(b) && Some(b) != None::<i64> && m[b].parent == r.parent && m[b].position
                    == r.position - 1;
            assert(m2.dom().contains(b));
        } else {
            assert(m.dom().contains(a));
            let b = choose|b: i64|
                #![trigger m.dom().contains(b)]
                m.dom().contains(b) && Some(b) != None::<i64> && m[b].parent == m[a].parent && m[b].position
                    == m[a].position - 1;
            assert(m2.dom().contains(b));
        }
    }
    assert forall|a: i64, b: i64|
        #![trigger m2.dom().contains(a), m2.dom().contains(b)]
        m2.dom().contains(a) && m2.dom().contains(b) && Some(a) != None::<i64> && Some(b) != None::<i64>
            && a != b && m2[a].parent == m2[b].parent implies m2[a].position != m2[b].position by {
        if a != k {
            assert(m.dom().contains(a));
        }
        if b != k {
            assert(m.dom().contains(b));
        }
    }
    assert forall|a: i64| #[trigger] m2.dom().contains(a) && Some(a) != None::<i64> implies m2[a].position >= 1 by {
        if a != k {
            assert(m.dom().contains(a));
        }
    }
}

} // verus!

verus! {

/// A scenario's own position is a valid slot once it is detached.
pub proof fn lemma_slot_of_self(m: Rows, k: i64)
    requires
        siblings_ordered(m),
        m.dom().contains(k),
    ensures
        valid_slot(detached(m, k), k, m[k].parent, m[k].position),
{
    let d = detached(m, k);
    let o = m[k].position;
    if o > 1 {
        let c = choose|c: i64|
            #![trigger m.dom().contains(c)]
            m.dom().contains(c) && Some(c) != None::<i64> && m[c].parent == m[k].parent && m[c].position == o - 1;
        assert(d.dom().contains(c));
        assert(d[c].position == o - 1);
    }
}

} // verus!
