//! The parent relation of the methodology tree, seen as a map from a scenario
//! id to the id of its parent (`None` for a top-level scenario), and the facts
//! about depth and ancestry that the scenario table relies on.

use vstd::prelude::*;

verus! {

/// Parent links of a forest: id -> parent id.
pub type Links = Map<i64, Option<i64>>;

/// Depth of `x` (0 for a top-level scenario), following at most `fuel` links.
/// `None` when `x` is unknown, a link dangles, or the chain is longer than `fuel`.
pub open spec fn depth_within(l: Links, x: i64, fuel: nat) -> Option<nat>
    decreases fuel,
{
    if fuel == 0 || !l.dom().contains(x) {
        None
    } else {
        match l[x] {
            None => Some(0nat),
            Some(p) => match depth_within(l, p, (fuel - 1) as nat) {
                Some(d) => Some(d + 1),
                None => None,
            },
        }
    }
}

/// `x` is `root` or one of its descendants, found within `fuel` steps up from `x`.
pub open spec fn in_subtree(l: Links, root: i64, x: i64, fuel: nat) -> bool
    decreases fuel,
{
    fuel > 0 && l.dom().contains(x) && (x == root || match l[x] {
        Some(p) => in_subtree(l, root, p, (fuel - 1) as nat),
        None => false,
    })
}

/// Number of links from `x` up to `root`.
pub open spec fn dist_to(l: Links, root: i64, x: i64, fuel: nat) -> nat
    decreases fuel,
{
    if fuel == 0 || !l.dom().contains(x) || x == root {
        0
    } else {
        match l[x] {
            Some(p) => 1 + dist_to(l, root, p, (fuel - 1) as nat),
            None => 0,
        }
    }
}

pub proof fn lemma_depth_lt_fuel(l: Links, x: i64, f: nat)
    ensures
        depth_within(l, x, f) matches Some(d) ==> d < f,
    decreases f,
{
    if f > 0 && l.dom().contains(x) {
        if let Some(p) = l[x] {
            lemma_depth_lt_fuel(l, p, (f - 1) as nat);
        }
    }
}

} // verus!

verus! {

/// Every node reaches a top-level node within `fuel` links.
pub open spec fn acyclic(l: Links, fuel: nat) -> bool {
    forall|x: i64| #[trigger] l.dom().contains(x) ==> depth_within(l, x, fuel) is Some
}

pub proof fn lemma_depth_fuel_mono(l: Links, x: i64, f: nat, f2: nat)
    requires
        depth_within(l, x, f) is Some,
        f2 > depth_within(l, x, f)->Some_0,
    ensures
        depth_within(l, x, f2) == depth_within(l, x, f),
    decreases f,
{
    if let Some(p) = l[x] {
        lemma_depth_fuel_mono(l, p, (f - 1) as nat, (f2 - 1) as nat);
    }
}

pub proof fn lemma_in_subtree_mono(l: Links, r: i64, x: i64, f: nat, f2: nat)
    requires
        in_subtree(l, r, x, f),
        f2 >= f,
    ensures
        in_subtree(l, r, x, f2),
    decreases f,
{
    if x != r {
        if let Some(p) = l[x] {
            lemma_in_subtree_mono(l, r, p, (f - 1) as nat, (f2 - 1) as nat);
        }
    }
}

/// Once the fuel exceeds the depth of `x`, more fuel does not change whether
/// `x` lies in a subtree.
pub proof fn lemma_in_subtree_stable(l: Links, r: i64, x: i64, big: nat, g: nat, f: nat)
    requires
        depth_within(l, x, big) is Some,
        f > depth_within(l, x, big)->Some_0,
        in_subtree(l, r, x, g),
    ensures
        in_subtree(l, r, x, f),
    decreases g,
{
    if x != r {
        if let Some(p) = l[x] {
            lemma_in_subtree_stable(l, r, p, (big - 1) as nat, (g - 1) as nat, (f - 1) as nat);
        }
    }
}

/// The distance from `x` up to an ancestor is at most the depth of `x`, and the
/// ancestor's depth is what is left.
pub proof fn lemma_dist_depth(l: Links, r: i64, x: i64, g: nat, big: nat)
    requires
        in_subtree(l, r, x, g),
        depth_within(l, x, big) is Some,
    ensures
        dist_to(l, r, x, g) <= depth_within(l, x, big)->Some_0,
        depth_within(l, r, (big - dist_to(l, r, x, g)) as nat) == Some(
            (depth_within(l, x, big)->Some_0 - dist_to(l, r, x, g)) as nat,
        ),
    decreases g,
{
    if x != r {
        if let Some(p) = l[x] {
            lemma_dist_depth(l, r, p, (g - 1) as nat, (big - 1) as nat);
        }
    }
}

pub proof fn lemma_dist_fuel(l: Links, r: i64, x: i64, g: nat, g2: nat)
    requires
        in_subtree(l, r, x, g),
        g2 >= g,
    ensures
        dist_to(l, r, x, g2) == dist_to(l, r, x, g),
    decreases g,
{
    if x != r {
        if let Some(p) = l[x] {
            lemma_dist_fuel(l, r, p, (g - 1) as nat, (g2 - 1) as nat);
        }
    }
}

/// In an acyclic forest every parent is itself a node.
pub proof fn lemma_parent_known(l: Links, x: i64, fuel: nat)
    requires
        acyclic(l, fuel),
        l.dom().contains(x),
        l[x] is Some,
    ensures
        l.dom().contains(l[x]->Some_0),
        depth_within(l, l[x]->Some_0, fuel) is Some,
        depth_within(l, l[x]->Some_0, fuel)->Some_0 + 1 == depth_within(l, x, fuel)->Some_0,
{
    let p = l[x]->Some_0;
    assert(depth_within(l, x, fuel) is Some);
    assert(depth_within(l, p, (fuel - 1) as nat) is Some);
    lemma_depth_lt_fuel(l, p, (fuel - 1) as nat);
    lemma_depth_fuel_mono(l, p, (fuel - 1) as nat, fuel);
}

/// Re-linking `k` leaves alone the depth of every node outside the subtree of `k`.
pub proof fn lemma_relink_outside(l: Links, k: i64, np: Option<i64>, x: i64, f: nat)
    requires
        l.dom().contains(k),
        !in_subtree(l, k, x, f),
    ensures
        depth_within(l.insert(k, np), x, f) == depth_within(l, x, f),
    decreases f,
{
    let l2 = l.insert(k, np);
    assert(l2.dom() =~= l.dom());
    if f > 0 && l.dom().contains(x) {
        if let Some(p) = l[x] {
            lemma_relink_outside(l, k, np, p, (f - 1) as nat);
        }
    }
}

/// Re-linking `k` shifts every node of its subtree by the new depth of `k`.
pub proof fn lemma_relink_inside(l: Links, k: i64, np: Option<i64>, dk: nat, x: i64, g: nat, f: nat)
    requires
        l.dom().contains(k),
        forall|f2: nat| f2 > dk ==> #[trigger] depth_within(l.insert(k, np), k, f2) == Some(dk),
        in_subtree(l, k, x, g),
        f > dist_to(l, k, x, g) + dk,
    ensures
        depth_within(l.insert(k, np), x, f) == Some(dist_to(l, k, x, g) + dk),
    decreases g,
{
    let l2 = l.insert(k, np);
    if x == k {
        assert(depth_within(l2, k, f) == Some(dk));
    } else {
        let p = l[x]->Some_0;
        lemma_relink_inside(l, k, np, dk, p, (g - 1) as nat, (f - 1) as nat);
    }
}

/// Moving `k` (with its subtree) under `np` keeps the forest acyclic when `np`
/// is outside that subtree and no node of it ends deeper than the fuel allows.
pub proof fn lemma_relink_acyclic(l: Links, k: i64, np: Option<i64>, fuel: nat)
    requires
        acyclic(l, fuel),
        l.dom().contains(k),
        np matches Some(q) ==> l.dom().contains(q) && !in_subtree(l, k, q, fuel),
        forall|x: i64|
            #![trigger in_subtree(l, k, x, fuel)]
            in_subtree(l, k, x, fuel) ==> dist_to(l, k, x, fuel) + match np {
                None => 0nat,
                Some(q) => depth_within(l, q, fuel)->Some_0 + 1,
            } < fuel,
    ensures
        acyclic(l.insert(k, np), fuel),
{
    let l2 = l.insert(k, np);
    assert(l2.dom() =~= l.dom());
    let dk: nat = match np {
        None => 0nat,
        Some(q) => depth_within(l, q, fuel)->Some_0 + 1,
    };
    assert forall|f2: nat| f2 > dk implies #[trigger] depth_within(l2, k, f2) == Some(dk) by {
        match np {
            None => {},
            Some(q) => {
                assert(depth_within(l, q, fuel) is Some);
                if in_subtree(l, k, q, (f2 - 1) as nat) {
                    lemma_depth_lt_fuel(l, q, fuel);
                    lemma_in_subtree_stable(l, k, q, fuel, (f2 - 1) as nat, fuel);
                }
                lemma_relink_outside(l, k, np, q, (f2 - 1) as nat);
                lemma_depth_fuel_mono(l, q, fuel, (f2 - 1) as nat);
            },
        }
    }
    assert forall|x: i64| #[trigger] l2.dom().contains(x) implies depth_within(l2, x, fuel) is Some by {
        if in_subtree(l, k, x, fuel) {
            lemma_relink_inside(l, k, np, dk, x, fuel, fuel);
        } else {
            lemma_relink_outside(l, k, np, x, fuel);
            assert(l.dom().contains(x));
        }
    }
}

} // verus!

verus! {

/// The nodes that stay when the subtree of `r` is cut away.
pub open spec fn outside_subtree(l: Links, r: i64, fuel: nat) -> Set<i64> {
    Set::new(|x: i64| l.dom().contains(x) && !in_subtree(l, r, x, fuel))
}

proof fn lemma_cut_depth(l: Links, r: i64, fuel: nat, x: i64, f: nat)
    requires
        acyclic(l, fuel),
        outside_subtree(l, r, fuel).contains(x),
    ensures
        depth_within(l.restrict(outside_subtree(l, r, fuel)), x, f) == depth_within(l, x, f),
    decreases f,
{
    let s = outside_subtree(l, r, fuel);
    let l2 = l.restrict(s);
    if f > 0 {
        if let Some(p) = l[x] {
            lemma_parent_known(l, x, fuel);
            if in_subtree(l, r, p, fuel) {
                assert(in_subtree(l, r, x, fuel + 1));
                lemma_depth_lt_fuel(l, x, fuel);
                lemma_in_subtree_stable(l, r, x, fuel, fuel + 1, fuel);
            }
            assert(s.contains(p));
            lemma_cut_depth(l, r, fuel, p, (f - 1) as nat);
        }
    }
}

/// Cutting away a whole subtree leaves an acyclic forest whose depths are unchanged.
pub proof fn lemma_cut_acyclic(l: Links, r: i64, fuel: nat)
    requires
        acyclic(l, fuel),
    ensures
        acyclic(l.restrict(outside_subtree(l, r, fuel)), fuel),
        forall|x: i64|
            #[trigger] outside_subtree(l, r, fuel).contains(x) ==> depth_within(
                l.restrict(outside_subtree(l, r, fuel)),
                x,
                fuel,
            ) == depth_within(l, x, fuel),
{
    let s = outside_subtree(l, r, fuel);
    let l2 = l.restrict(s);
    assert forall|x: i64| #[trigger] s.contains(x) implies depth_within(l2, x, fuel) == depth_within(
        l,
        x,
        fuel,
    ) by {
        lemma_cut_depth(l, r, fuel, x, fuel);
    }
    assert forall|x: i64| #[trigger] l2.dom().contains(x) implies depth_within(l2, x, fuel) is Some by {
        assert(s.contains(x));
        assert(l.dom().contains(x));
    }
}

proof fn lemma_grow_depth(l: Links, n: i64, p: Option<i64>, fuel: nat, x: i64, f: nat)
    requires
        acyclic(l, fuel),
        !l.dom().contains(n),
        l.dom().contains(x),
    ensures
        depth_within(l.insert(n, p), x, f) == depth_within(l, x, f),
    decreases f,
{
    if f > 0 {
        if let Some(q) = l[x] {
            lemma_parent_known(l, x, fuel);
            lemma_grow_depth(l, n, p, fuel, q, (f - 1) as nat);
        }
    }
}

/// Adding a fresh leaf under a node that is not too deep keeps the forest acyclic.
pub proof fn lemma_grow_acyclic(l: Links, n: i64, p: Option<i64>, fuel: nat)
    requires
        acyclic(l, fuel),
        !l.dom().contains(n),
        fuel > 0,
        p matches Some(q) ==> l.dom().contains(q) && depth_within(l, q, fuel)->Some_0 + 1 < fuel,
    ensures
        acyclic(l.insert(n, p), fuel),
        forall|x: i64|
            #[trigger] l.dom().contains(x) ==> depth_within(l.insert(n, p), x, fuel) == depth_within(
                l,
                x,
                fuel,
            ),
        depth_within(l.insert(n, p), n, fuel) == match p {
            None => Some(0nat),
            Some(q) => Some(depth_within(l, q, fuel)->Some_0 + 1),
        },
{
    let l2 = l.insert(n, p);
    assert forall|x: i64| #[trigger] l.dom().contains(x) implies depth_within(l2, x, fuel)
        == depth_within(l, x, fuel) by {
        lemma_grow_depth(l, n, p, fuel, x, fuel);
    }
    if let Some(q) = p {
        assert(depth_within(l, q, fuel) is Some);
        lemma_grow_depth(l, n, p, fuel, q, (fuel - 1) as nat);
        lemma_depth_fuel_mono(l, q, fuel, (fuel - 1) as nat);
    }
    assert forall|x: i64| #[trigger] l2.dom().contains(x) implies depth_within(l2, x, fuel) is Some by {
        if x != n {
            assert(l.dom().contains(x));
        }
    }
}

} // verus!

verus! {

pub proof fn lemma_dist_le_fuel(l: Links, r: i64, x: i64, f: nat)
    ensures
        dist_to(l, r, x, f) <= f,
    decreases f,
{
    if f > 0 && l.dom().contains(x) && x != r {
        if let Some(p) = l[x] {
            lemma_dist_le_fuel(l, r, p, (f - 1) as nat);
        }
    }
}

} // verus!
