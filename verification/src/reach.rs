//! What the built tree holds, stated against the snapshot's own
//! parent-child graph: the tree of a present target carries exactly
//! the identifiers reachable from the target, each exactly once, and
//! its node count is the size of that reachable component.

use vstd::prelude::*;
use vstd::seq_lib::lemma_no_dup_in_concat;
use crate::record::{RecView, snap_has};
use crate::tree::{NodeView, tree_pid_seq, forest_pid_seq, tree_size, spec_children, spec_assemble,
    spec_build, unvisited_count, lemma_unvisited_insert_decreases, lemma_unvisited_superset,
    lemma_concat_to_set};

verus! {

/// A parent-to-child edge of the snapshot: some record carries
/// identifier `b` and names `a` as its parent.  An identifier of 0
/// means "no parent" and so starts no edge.
pub open spec fn edge(s: Seq<RecView>, a: u32, b: u32) -> bool {
    a != 0 && exists|i: int| 0 <= i < s.len() && s[i].pid == b && s[i].ppid == a
}

/// Whether `c` walks the snapshot's edges step by step.
pub open spec fn is_chain(s: Seq<RecView>, c: Seq<u32>) -> bool {
    forall|j: int| 0 <= j < c.len() - 1 ==> #[trigger] edge(s, c[j], c[j + 1])
}

/// Whether `q` is reachable from `t` along parent-to-child edges of
/// the snapshot (in zero or more steps).
pub open spec fn reaches(s: Seq<RecView>, t: u32, q: u32) -> bool {
    exists|c: Seq<u32>| c.len() >= 1 && c[0] == t && c.last() == q && is_chain(s, c)
}

/// The connected component of `t`: everything reachable from it.
pub open spec fn component(s: Seq<RecView>, t: u32) -> Set<u32> {
    Set::new(|q: u32| reaches(s, t, q))
}

/// Reachability is reflexive.
proof fn lemma_reaches_refl(s: Seq<RecView>, a: u32)
    ensures
        reaches(s, a, a),
{
    let c = seq![a];
    assert(c[0] == a && c.last() == a && is_chain(s, c));
}

/// One edge is one step of reachability.
proof fn lemma_reaches_edge(s: Seq<RecView>, a: u32, b: u32)
    requires
        edge(s, a, b),
    ensures
        reaches(s, a, b),
{
    let c = seq![a, b];
    assert(c[0] == a && c.last() == b);
    assert forall|j: int| 0 <= j < c.len() - 1 implies #[trigger] edge(s, c[j], c[j + 1]) by {
        assert(c[0] == a && c[1] == b);
    }
}

/// Reachability composes.
proof fn lemma_reaches_trans(s: Seq<RecView>, a: u32, b: u32, q: u32)
    requires
        reaches(s, a, b),
        reaches(s, b, q),
    ensures
        reaches(s, a, q),
{
    let c1 = choose|c: Seq<u32>| c.len() >= 1 && c[0] == a && c.last() == b && is_chain(s, c);
    let c2 = choose|c: Seq<u32>| c.len() >= 1 && c[0] == b && c.last() == q && is_chain(s, c);
    let c3 = c1 + c2.subrange(1, c2.len() as int);
    assert(c3[0] == a);
    if c2.len() == 1 {
        assert(c3 =~= c1);
        assert(c3.last() == q);
    } else {
        assert(c3.last() == c2[c2.len() - 1]);
    }
    assert forall|j: int| 0 <= j < c3.len() - 1 implies #[trigger] edge(s, c3[j], c3[j + 1]) by {
        if j < c1.len() - 1 {
            assert(c3[j] == c1[j] && c3[j + 1] == c1[j + 1]);
        } else if j == c1.len() - 1 {
            assert(c3[j] == c1.last());
            assert(c3[j + 1] == c2[1]);
            assert(edge(s, c2[0], c2[1]));
        } else {
            let k = j - c1.len() + 1;
            assert(c3[j] == c2[k] && c3[j + 1] == c2[k + 1]);
            assert(edge(s, c2[k], c2[k + 1]));
        }
    }
    assert(c3.len() >= 1 && c3[0] == a && c3.last() == q && is_chain(s, c3));
}

/// Splitting a forest at its first tree splits its identifiers.
proof fn lemma_forest_cons(c: NodeView, rest: Seq<NodeView>, k: int)
    requires
        0 <= k <= rest.len(),
    ensures
        forest_pid_seq(seq![c] + rest, k + 1) == forest_pid_seq(rest, k),
    decreases rest.len() - k,
{
    let cs = seq![c] + rest;
    if k == rest.len() {
        assert(forest_pid_seq(cs, k + 1) == Seq::<u32>::empty());
        assert(forest_pid_seq(rest, k) == Seq::<u32>::empty());
    } else {
        lemma_forest_cons(c, rest, k + 1);
        assert(cs[k + 1] == rest[k]);
        assert(forest_pid_seq(cs, k + 1) == tree_pid_seq(cs[k + 1]) + forest_pid_seq(cs, k + 2));
        assert(forest_pid_seq(rest, k) == tree_pid_seq(rest[k]) + forest_pid_seq(rest, k + 1));
    }
}

/// What the children assembled from `s[i..]` under placed set `v`
/// satisfy: their identifiers repeat nothing (neither each other nor
/// anything already placed), they pick up every matching record not
/// already placed, their edges stay inside them up to `v`, and each
/// of them is reachable from the parent `p`.
proof fn lemma_children_props(s: Seq<RecView>, i: int, p: u32, v: Set<u32>)
    requires
        0 <= i,
    ensures
        ({
            let f = forest_pid_seq(spec_children(s, i, p, v), 0);
            &&& f.no_duplicates()
            &&& forall|x: u32| f.to_set().contains(x) ==> !v.contains(x)
            &&& forall|j: int|
                i <= j < s.len() && p != 0 && s[j].ppid == p ==> f.to_set().contains(s[j].pid)
                    || v.contains(s[j].pid)
            &&& forall|x: u32, y: u32|
                f.to_set().contains(x) && edge(s, x, y) ==> f.to_set().contains(y) || v.contains(y)
            &&& forall|x: u32| f.to_set().contains(x) ==> reaches(s, p, x)
        }),
    decreases unvisited_count(s, v), s.len() - i, 0int,
{
    if i >= s.len() {
        let cs = spec_children(s, i, p, v);
        assert(cs == Seq::<NodeView>::empty());
        assert(forest_pid_seq(cs, 0) == Seq::<u32>::empty());
    } else if p != 0 && s[i].ppid == p && !v.contains(s[i].pid) {
        let q = s[i].pid;
        lemma_unvisited_insert_decreases(s, v, i);
        let child = spec_assemble(s, q, v.insert(q));
        let ts = tree_pid_seq(child);
        let v2 = v.insert(q).union(ts.to_set());
        lemma_unvisited_superset(s, v.insert(q), v2);
        lemma_assemble_props(s, q, v.insert(q));
        lemma_children_props(s, i + 1, p, v2);
        let rest = spec_children(s, i + 1, p, v2);
        let fr = forest_pid_seq(rest, 0);
        let cs = spec_children(s, i, p, v);
        assert(cs == seq![child] + rest);
        lemma_forest_cons(child, rest, 0);
        assert((seq![child] + rest)[0] == child);
        assert(forest_pid_seq(cs, 0) == ts + fr);
        let f = forest_pid_seq(cs, 0);
        lemma_concat_to_set(ts, fr);
        // The two parts repeat nothing and are disjoint.
        assert forall|a: int, b: int| 0 <= a < ts.len() && 0 <= b < fr.len() implies ts[a]
            != fr[b] by {
            assert(ts.to_set().contains(ts[a]));
            assert(fr.to_set().contains(fr[b]));
            assert(v2.contains(ts[a]));
        }
        lemma_no_dup_in_concat(ts, fr);
        // Nothing placed before shows up.
        assert(ts[0] == q);
        assert(ts.to_set().contains(q));
        assert forall|x: u32| f.to_set().contains(x) implies !v.contains(x) by {
            if ts.to_set().contains(x) {
                if x != q {
                    assert(!v.insert(q).contains(x));
                }
            } else {
                assert(fr.to_set().contains(x));
                assert(!v2.contains(x));
            }
        }
        // Every matching record from i on is picked up or was placed.
        assert forall|j: int|
            i <= j < s.len() && p != 0 && s[j].ppid == p implies f.to_set().contains(s[j].pid)
            || v.contains(s[j].pid) by {
            if j == i {
                assert(f.to_set().contains(q));
            } else {
                assert(fr.to_set().contains(s[j].pid) || v2.contains(s[j].pid));
            }
        }
        // Edges out of the forest end inside it or in `v`.
        assert forall|x: u32, y: u32|
            f.to_set().contains(x) && edge(s, x, y) implies f.to_set().contains(y) || v.contains(
            y,
        ) by {
            if ts.to_set().contains(x) {
                assert(ts.to_set().contains(y) || v.insert(q).contains(y));
            } else {
                assert(fr.to_set().contains(x));
                assert(fr.to_set().contains(y) || v2.contains(y));
            }
        }
        // Everything here is reachable from `p`.
        assert(edge(s, p, q)) by {
            assert(0 <= i < s.len() && s[i].pid == q && s[i].ppid == p);
        }
        lemma_reaches_edge(s, p, q);
        assert forall|x: u32| f.to_set().contains(x) implies reaches(s, p, x) by {
            if ts.to_set().contains(x) {
                assert(reaches(s, q, x));
                lemma_reaches_trans(s, p, q, x);
            } else {
                assert(fr.to_set().contains(x));
            }
        }
    } else {
        lemma_children_props(s, i + 1, p, v);
        assert(spec_children(s, i, p, v) == spec_children(s, i + 1, p, v));
    }
}

/// What the tree assembled for `p` under placed set `v` satisfies:
/// its root identifier is `p`; no identifier repeats; apart from `p`
/// it holds nothing already placed; every snapshot edge leaving it
/// ends inside it or in `v`; and everything in it is reachable from
/// `p`.
proof fn lemma_assemble_props(s: Seq<RecView>, p: u32, v: Set<u32>)
    requires
        v.contains(p),
    ensures
        ({
            let ts = tree_pid_seq(spec_assemble(s, p, v));
            &&& ts.no_duplicates()
            &&& ts[0] == p
            &&& ts.to_set().contains(p)
            &&& forall|x: u32| ts.to_set().contains(x) && x != p ==> !v.contains(x)
            &&& forall|x: u32, y: u32|
                ts.to_set().contains(x) && edge(s, x, y) ==> ts.to_set().contains(y) || v.contains(
                    y,
                )
            &&& forall|x: u32| ts.to_set().contains(x) ==> reaches(s, p, x)
        }),
    decreases unvisited_count(s, v), s.len(), 1int,
{
    lemma_children_props(s, 0, p, v);
    let n = spec_assemble(s, p, v);
    let f = forest_pid_seq(n.children, 0);
    let ts = tree_pid_seq(n);
    assert(ts == seq![p] + f);
    lemma_concat_to_set(seq![p], f);
    assert(seq![p][0] == p);
    assert(seq![p].to_set().contains(p));
    assert forall|a: int, b: int| 0 <= a < seq![p].len() && 0 <= b < f.len() implies seq![p][a]
        != f[b] by {
        assert(f.to_set().contains(f[b]));
    }
    assert(seq![p].no_duplicates());
    lemma_no_dup_in_concat(seq![p], f);
    assert(ts[0] == p);
    assert forall|x: u32, y: u32|
        ts.to_set().contains(x) && edge(s, x, y) implies ts.to_set().contains(y) || v.contains(
        y,
    ) by {
        if x == p {
            let j = choose|j: int| 0 <= j < s.len() && s[j].pid == y && s[j].ppid == x;
            assert(f.to_set().contains(s[j].pid) || v.contains(s[j].pid));
        } else {
            assert(f.to_set().contains(x));
            assert(f.to_set().contains(y) || v.contains(y));
        }
    }
    assert forall|x: u32| ts.to_set().contains(x) implies reaches(s, p, x) by {
        if x == p {
            lemma_reaches_refl(s, p);
        } else {
            assert(f.to_set().contains(x));
        }
    }
}

/// Walking a chain through an edge-closed set stays inside it.
proof fn lemma_chain_in_set(s: Seq<RecView>, c: Seq<u32>, m: Set<u32>)
    requires
        is_chain(s, c),
        c.len() >= 1,
        m.contains(c[0]),
        forall|x: u32, y: u32| m.contains(x) && edge(s, x, y) ==> m.contains(y),
    ensures
        m.contains(c.last()),
    decreases c.len(),
{
    if c.len() > 1 {
        let c0 = c.drop_last();
        assert forall|j: int| 0 <= j < c0.len() - 1 implies #[trigger] edge(s, c0[j], c0[j + 1]) by {
            assert(edge(s, c[j], c[j + 1]));
        }
        lemma_chain_in_set(s, c0, m);
        let j = c.len() - 2;
        assert(c0.last() == c[j]);
        assert(edge(s, c[j], c[j + 1]));
        assert(c[j + 1] == c.last());
    }
}

/// The tree built for a present target holds exactly the identifiers
/// reachable from the target, each exactly once; its node count is
/// therefore the size of the target's connected component — no more,
/// no less.
pub proof fn lemma_build_is_component(s: Seq<RecView>, t: u32)
    requires
        snap_has(s, t),
    ensures
        spec_build(s, t) is Some,
        ({
            let n = spec_build(s, t)->Some_0;
            &&& tree_pid_seq(n).no_duplicates()
            &&& tree_pid_seq(n).to_set() == component(s, t)
            &&& tree_size(n) == component(s, t).len()
        }),
{
    let v = Set::<u32>::empty().insert(t);
    let n = spec_assemble(s, t, v);
    lemma_assemble_props(s, t, v);
    let ts = tree_pid_seq(n);
    assert forall|x: u32, y: u32|
        ts.to_set().contains(x) && edge(s, x, y) implies ts.to_set().contains(y) by {
        assert(ts.to_set().contains(y) || v.contains(y));
        assert(ts.to_set().contains(t));
    }
    assert forall|q: u32| component(s, t).contains(q) implies ts.to_set().contains(q) by {
        let c = choose|c: Seq<u32>|
            c.len() >= 1 && c[0] == t && c.last() == q && is_chain(s, c);
        lemma_chain_in_set(s, c, ts.to_set());
    }
    assert(ts.to_set() =~= component(s, t));
    ts.unique_seq_to_set();
}

/// Building a tree never repeats an identifier, whatever the snapshot
/// holds: each process id appears at most once in any built tree.
pub proof fn lemma_build_no_duplicates(s: Seq<RecView>, t: u32)
    ensures
        spec_build(s, t) matches Option::Some(n) ==> tree_pid_seq(n).no_duplicates(),
{
    if snap_has(s, t) {
        lemma_assemble_props(s, t, Set::<u32>::empty().insert(t));
    }
}

/// Building is a pure function of the snapshot: two builds over equal
/// snapshots yield identical trees, node for node and field for field.
pub proof fn lemma_build_deterministic(s1: Seq<RecView>, s2: Seq<RecView>, t: u32)
    requires
        s1 == s2,
    ensures
        spec_build(s1, t) == spec_build(s2, t),
{
}

} // verus!
