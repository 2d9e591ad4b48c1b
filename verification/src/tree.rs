//! The tree builder: turning a flat snapshot into the tree of
//! processes rooted at a target identifier.
//!
//! A node's children are assembled in snapshot order from the records
//! whose parent identifier equals the node's identifier.  A set of
//! already-placed identifiers guards the descent, so that even a
//! corrupted snapshot whose parent links form a cycle, or one that
//! repeats an identifier, yields a finite tree in which every
//! identifier appears at most once.

use vstd::prelude::*;
use vstd::set_lib::lemma_len_subset;
use crate::record::{ProcessRecord, RecView, snap_view, snap_has, spec_find, find_record};

verus! {

/// One node of the emitted tree: the fields of the process's snapshot
/// record, plus the subtrees of its children in discovery order.
#[derive(Debug, PartialEq)]
pub struct ProcessNode {
    pub pid: u32,
    pub ppid: u32,
    pub name: String,
    pub cmd: Vec<String>,
    pub cpu_bits: u32,
    pub memory: u64,
    pub children: Vec<ProcessNode>,
}

/// The mathematical image of a `ProcessNode`.
#[verifier::ext_equal]
pub ghost struct NodeView {
    pub pid: u32,
    pub ppid: u32,
    pub name: Seq<char>,
    pub cmd: Seq<Seq<char>>,
    pub cpu_bits: u32,
    pub memory: u64,
    pub children: Seq<NodeView>,
}

impl ProcessNode {
    /// The mathematical tree this node stands for.
    pub open spec fn spec_view(self) -> NodeView
        decreases self,
    {
        NodeView {
            pid: self.pid,
            ppid: self.ppid,
            name: self.name@,
            cmd: self.cmd.deep_view(),
            cpu_bits: self.cpu_bits,
            memory: self.memory,
            children: Seq::new(
                self.children@.len(),
                |i: int|
                    if 0 <= i < self.children@.len() {
                        self.children@[i].spec_view()
                    } else {
                        arbitrary()
                    },
            ),
        }
    }
}

impl View for ProcessNode {
    type V = NodeView;

    open spec fn view(&self) -> NodeView {
        self.spec_view()
    }
}

/// The images of a sequence of nodes.
pub open spec fn nodes_view(cs: Seq<ProcessNode>) -> Seq<NodeView> {
    cs.map_values(|c: ProcessNode| c@)
}

/// Every identifier of the forest `cs[i..]`, one entry per node, in
/// depth-first order.
pub open spec fn forest_pid_seq(cs: Seq<NodeView>, i: int) -> Seq<u32>
    decreases cs, cs.len() - i, 0int,
{
    if i < 0 || i >= cs.len() {
        Seq::<u32>::empty()
    } else {
        tree_pid_seq(cs[i]) + forest_pid_seq(cs, i + 1)
    }
}

/// Every identifier of the tree rooted at `n`, one entry per node, in
/// depth-first order.
pub open spec fn tree_pid_seq(n: NodeView) -> Seq<u32>
    decreases n, 0int, 1int,
{
    seq![n.pid] + forest_pid_seq(n.children, 0)
}

/// The number of nodes of the tree rooted at `n`.
pub open spec fn tree_size(n: NodeView) -> nat {
    tree_pid_seq(n).len()
}

/// The set of identifiers the snapshot holds.
pub open spec fn snap_pids(s: Seq<RecView>) -> Set<u32> {
    s.map_values(|r: RecView| r.pid).to_set()
}

/// How many identifiers of the snapshot are not yet placed: the
/// builder's measure of remaining work.
pub open spec fn unvisited_count(s: Seq<RecView>, v: Set<u32>) -> nat {
    snap_pids(s).difference(v).len()
}

/// The children assembled from the records `s[i..]` whose parent
/// identifier is `p`, skipping identifiers already placed; `v` is the
/// set of placed identifiers and is threaded left to right, so a
/// subtree never repeats an identifier that an earlier sibling (or an
/// ancestor) already holds.
pub open spec fn spec_children(s: Seq<RecView>, i: int, p: u32, v: Set<u32>) -> Seq<NodeView>
    decreases unvisited_count(s, v), s.len() - i, 0int,
{
    if i < 0 || i >= s.len() {
        Seq::<NodeView>::empty()
    } else if p != 0 && s[i].ppid == p && !v.contains(s[i].pid) {
        proof {
            lemma_unvisited_insert_decreases(s, v, i);
        }
        let child = spec_assemble(s, s[i].pid, v.insert(s[i].pid));
        let v2 = v.insert(s[i].pid).union(tree_pid_seq(child).to_set());
        proof {
            lemma_unvisited_superset(s, v.insert(s[i].pid), v2);
        }
        seq![child] + spec_children(s, i + 1, p, v2)
    } else {
        spec_children(s, i + 1, p, v)
    }
}

/// The tree the builder assembles for identifier `p`: the fields of
/// the record indexed under `p`, with the children drawn from the
/// whole snapshot.  `v` is the set of identifiers already placed on
/// the path so far; it contains `p` itself.
pub open spec fn spec_assemble(s: Seq<RecView>, p: u32, v: Set<u32>) -> NodeView
    decreases unvisited_count(s, v), s.len(), 1int,
{
    let r = spec_find(s, p)->Some_0;
    NodeView {
        pid: p,
        ppid: r.ppid,
        name: r.name,
        cmd: r.cmd,
        cpu_bits: r.cpu_bits,
        memory: r.memory,
        children: spec_children(s, 0, p, v),
    }
}

/// The whole builder: `None` exactly when no record of the snapshot
/// carries the target identifier, and otherwise the tree assembled
/// from the target's record with nothing placed beforehand.
pub open spec fn spec_build(s: Seq<RecView>, t: u32) -> Option<NodeView> {
    if snap_has(s, t) {
        Option::Some(spec_assemble(s, t, Set::<u32>::empty().insert(t)))
    } else {
        Option::<NodeView>::None
    }
}

/// Placing one more identifier of the snapshot strictly shrinks the
/// count of unplaced ones.
pub proof fn lemma_unvisited_insert_decreases(s: Seq<RecView>, v: Set<u32>, i: int)
    requires
        0 <= i < s.len(),
        !v.contains(s[i].pid),
    ensures
        unvisited_count(s, v.insert(s[i].pid)) < unvisited_count(s, v),
{
    let pids = s.map_values(|r: RecView| r.pid);
    assert(pids[i] == s[i].pid);
    assert(pids.contains(s[i].pid));
    assert(snap_pids(s).contains(s[i].pid));
    snap_pids(s).lemma_set_insert_diff_decreases(v, s[i].pid);
}

/// Growing the placed set can only shrink the count of unplaced
/// identifiers.
pub proof fn lemma_unvisited_superset(s: Seq<RecView>, v1: Set<u32>, v2: Set<u32>)
    requires
        v1.subset_of(v2),
    ensures
        unvisited_count(s, v2) <= unvisited_count(s, v1),
{
    assert(snap_pids(s).difference(v2).subset_of(snap_pids(s).difference(v1)));
    lemma_len_subset(snap_pids(s).difference(v2), snap_pids(s).difference(v1));
}

/// Appending one tree to a forest appends its identifiers.
proof fn lemma_forest_push(cs: Seq<NodeView>, c: NodeView, i: int)
    requires
        0 <= i <= cs.len(),
    ensures
        forest_pid_seq(cs.push(c), i) == forest_pid_seq(cs, i) + tree_pid_seq(c),
    decreases cs.len() - i,
{
    if i == cs.len() {
        assert(cs.push(c)[i] == c);
        assert(forest_pid_seq(cs, i) == Seq::<u32>::empty());
        assert(forest_pid_seq(cs.push(c), i + 1) == Seq::<u32>::empty());
        assert(forest_pid_seq(cs.push(c), i) == tree_pid_seq(c) + Seq::<u32>::empty());
        assert(forest_pid_seq(cs.push(c), i) =~= forest_pid_seq(cs, i) + tree_pid_seq(c));
    } else {
        lemma_forest_push(cs, c, i + 1);
        assert(cs.push(c)[i] == cs[i]);
        assert(forest_pid_seq(cs.push(c), i) == tree_pid_seq(cs[i]) + forest_pid_seq(
            cs.push(c),
            i + 1,
        ));
        assert(forest_pid_seq(cs, i) == tree_pid_seq(cs[i]) + forest_pid_seq(cs, i + 1));
        assert(forest_pid_seq(cs.push(c), i) =~= forest_pid_seq(cs, i) + tree_pid_seq(c));
    }
}

/// The identifiers of a concatenation are the union of the two sides'.
pub proof fn lemma_concat_to_set(a: Seq<u32>, b: Seq<u32>)
    ensures
        (a + b).to_set() == a.to_set().union(b.to_set()),
{
    assert forall|x: u32| (a + b).to_set().contains(x) implies a.to_set().union(
        b.to_set(),
    ).contains(x) by {
        let i = choose|i: int| 0 <= i < (a + b).len() && (a + b)[i] == x;
        if i < a.len() {
            assert(a[i] == x);
        } else {
            assert(b[i - a.len()] == x);
        }
    }
    assert forall|x: u32|
        a.to_set().union(b.to_set()).contains(x) implies (a + b).to_set().contains(x) by {
        if a.to_set().contains(x) {
            let i = choose|i: int| 0 <= i < a.len() && a[i] == x;
            assert((a + b)[i] == x);
        } else {
            let i = choose|i: int| 0 <= i < b.len() && b[i] == x;
            assert((a + b)[a.len() + i] == x);
        }
    }
    assert((a + b).to_set() =~= a.to_set().union(b.to_set()));
}

/// Whether `x` occurs in `v`.
fn vec_has(v: &Vec<u32>, x: u32) -> (r: bool)
    ensures
        r == v@.contains(x),
{
    let mut i: usize = 0;
    while i < v.len()
        invariant
            i <= v.len(),
            forall|j: int| 0 <= j < i ==> v@[j] != x,
        decreases v.len() - i,
    {
        if v[i] == x {
            assert(v@[i as int] == x);
            return true;
        }
        i = i + 1;
    }
    false
}

/// A fresh copy of a command line, word for word.
fn clone_cmd(v: &Vec<String>) -> (r: Vec<String>)
    ensures
        r.deep_view() == v.deep_view(),
{
    let mut r: Vec<String> = Vec::new();
    let mut i: usize = 0;
    while i < v.len()
        invariant
            i <= v.len(),
            r@.len() == i,
            forall|j: int| 0 <= j < i ==> r@[j]@ == v@[j]@,
        decreases v.len() - i,
    {
        r.push(v[i].clone());
        i = i + 1;
    }
    proof {
        assert forall|j: int| 0 <= j < v@.len() implies r.deep_view()[j] == v.deep_view()[j] by {
            assert(r@[j]@ == v@[j]@);
        }
        assert(r.deep_view() =~= v.deep_view());
    }
    r
}

/// Assembles the tree rooted at `p` from the snapshot `s`, placing
/// every identifier it uses into the visited list it hands back.
fn assemble_tree(s: &Vec<ProcessRecord>, p: u32, visited: Vec<u32>) -> (res: (
    ProcessNode,
    Vec<u32>,
))
    requires
        snap_has(snap_view(s@), p),
        visited@.contains(p),
    ensures
        res.0@ == spec_assemble(snap_view(s@), p, visited@.to_set()),
        res.1@.to_set() == visited@.to_set().union(tree_pid_seq(res.0@).to_set()),
    decreases unvisited_count(snap_view(s@), visited@.to_set()),
{
    let ghost sv = snap_view(s@);
    let ghost v0 = visited@.to_set();
    let idx: usize = match find_record(s, p) {
        Option::Some(j) => j,
        Option::None => { unreached() },
    };
    let mut vis = visited;
    let mut children_vec: Vec<ProcessNode> = Vec::new();
    let mut i: usize = 0;
    while i < s.len()
        invariant
            i <= s.len(),
            sv == snap_view(s@),
            v0 == visited@.to_set(),
            snap_has(sv, p),
            v0.contains(p),
            spec_children(sv, 0, p, v0) == nodes_view(children_vec@) + spec_children(
                sv,
                i as int,
                p,
                vis@.to_set(),
            ),
            vis@.to_set() == v0.union(forest_pid_seq(nodes_view(children_vec@), 0).to_set()),
        decreases s.len() - i,
    {
        let q = s[i].pid;
        let qpp = s[i].ppid;
        proof {
            assert(sv[i as int] == s@[i as int]@);
        }
        if p != 0 && qpp == p && !vec_has(&vis, q) {
            let ghost vpre = vis@.to_set();
            vis.push(q);
            proof {
                broadcast use vstd::seq_lib::lemma_seq_contains_after_push;

                assert(vis@.to_set() =~= vpre.insert(q));
                assert(snap_has(sv, q));
                assert(!v0.contains(q));
                lemma_unvisited_insert_decreases(sv, v0, i as int);
                lemma_unvisited_superset(sv, v0.insert(q), vpre.insert(q));
            }
            let call_res = assemble_tree(s, q, vis);
            let child = call_res.0;
            vis = call_res.1;
            proof {
                let old_children = nodes_view(children_vec@);
                assert(child@ == spec_assemble(sv, q, vpre.insert(q)));
                assert(child@.pid == q);
                assert(tree_pid_seq(child@)[0] == q);
                assert(tree_pid_seq(child@).contains(q));
                assert(tree_pid_seq(child@).to_set().contains(q));
                assert(spec_children(sv, i as int, p, vpre) == seq![child@] + spec_children(
                    sv,
                    i as int + 1,
                    p,
                    vpre.insert(q).union(tree_pid_seq(child@).to_set()),
                ));
                assert(vis@.to_set() == vpre.insert(q).union(tree_pid_seq(child@).to_set()));
                assert(nodes_view(children_vec@.push(child)) =~= old_children.push(child@));
                lemma_forest_push(old_children, child@, 0);
                lemma_concat_to_set(forest_pid_seq(old_children, 0), tree_pid_seq(child@));
                assert(vis@.to_set() =~= v0.union(
                    forest_pid_seq(nodes_view(children_vec@.push(child)), 0).to_set(),
                ));
                assert(nodes_view(children_vec@.push(child)) + spec_children(
                    sv,
                    i as int + 1,
                    p,
                    vis@.to_set(),
                ) =~= old_children + spec_children(sv, i as int, p, vpre));
            }
            children_vec.push(child);
        } else {
            proof {
                assert(spec_children(sv, i as int, p, vis@.to_set()) == spec_children(
                    sv,
                    i as int + 1,
                    p,
                    vis@.to_set(),
                ));
            }
        }
        i = i + 1;
    }
    proof {
        assert(spec_children(sv, s@.len() as int, p, vis@.to_set()) == Seq::<NodeView>::empty());
        assert(nodes_view(children_vec@) + Seq::<NodeView>::empty() =~= nodes_view(children_vec@));
    }
    let rec = &s[idx];
    let node = ProcessNode {
        pid: rec.pid,
        ppid: rec.ppid,
        name: rec.name.clone(),
        cmd: clone_cmd(&rec.cmd),
        cpu_bits: rec.cpu_bits,
        memory: rec.memory,
        children: children_vec,
    };
    proof {
        assert(node@.children.len() == node.children@.len());
        assert forall|j: int| 0 <= j < node.children@.len() implies node@.children[j]
            == nodes_view(node.children@)[j] by {
            assert(node@.children[j] == node.children@[j]@);
            assert(nodes_view(node.children@)[j] == node.children@[j]@);
        }
        assert(node@.children =~= nodes_view(node.children@));
        assert(node@ =~= spec_assemble(sv, p, v0));
        assert(tree_pid_seq(node@) == seq![p] + forest_pid_seq(node@.children, 0));
        lemma_concat_to_set(seq![p], forest_pid_seq(node@.children, 0));
        assert(seq![p][0] == p);
        assert(seq![p].to_set().contains(p));
        assert(vis@.to_set() =~= v0.union(tree_pid_seq(node@).to_set()));
    }
    (node, vis)
}

/// The tree of processes rooted at `target`: `None` exactly when no
/// record of the snapshot carries that identifier, and otherwise the
/// tree holding every process reachable from `target` along
/// parent-to-child edges of the same snapshot, assembled in snapshot
/// order, each identifier at most once.
pub fn build_process_tree(snapshot: &Vec<ProcessRecord>, target: u32) -> (r: Option<ProcessNode>)
    ensures
        r is Some <==> snap_has(snap_view(snapshot@), target),
        r matches Option::Some(n) ==> Option::Some(n@) == spec_build(snap_view(snapshot@), target)
            && n@.pid == target,
{
    match find_record(snapshot, target) {
        Option::None => Option::None,
        Option::Some(j) => {
            proof {
                assert(snap_view(snapshot@)[j as int] == snapshot@[j as int]@);
                assert(snap_has(snap_view(snapshot@), target));
            }
            let mut visited: Vec<u32> = Vec::new();
            visited.push(target);
            proof {
                assert(visited@[0] == target);
                assert(visited@.contains(target));
                assert(visited@.to_set() =~= Set::<u32>::empty().insert(target));
            }
            let res = assemble_tree(snapshot, target, visited);
            Option::Some(res.0)
        },
    }
}

} // verus!
