use ps_tree::record::ProcessRecord;
use ps_tree::tree::{build_process_tree, ProcessNode};

fn rec(pid: u32, ppid: u32, name: &str) -> ProcessRecord {
    ProcessRecord {
        pid,
        ppid,
        name: name.to_string(),
        cmd: vec![format!("/bin/{}", name)],
        cpu_bits: (1.5f32).to_bits(),
        memory: 4096,
    }
}

fn sample_snapshot() -> Vec<ProcessRecord> {
    vec![
        rec(1, 0, "init"),
        rec(10, 1, "app"),
        rec(11, 10, "worker"),
        rec(12, 10, "worker"),
        rec(13, 12, "sub"),
    ]
}

fn collect_pids(n: &ProcessNode, out: &mut Vec<u32>) {
    out.push(n.pid);
    for c in &n.children {
        collect_pids(c, out);
    }
}

#[test]
fn builds_subtree_of_target() {
    let snapshot = sample_snapshot();
    let tree = build_process_tree(&snapshot, 10).expect("target is present");
    assert_eq!(tree.pid, 10);
    assert_eq!(tree.ppid, 1);
    assert_eq!(tree.name, "app");
    assert_eq!(tree.cmd, vec!["/bin/app".to_string()]);
    assert_eq!(tree.memory, 4096);
    assert_eq!(f32::from_bits(tree.cpu_bits), 1.5f32);
    assert_eq!(tree.children.len(), 2);
    assert_eq!(tree.children[0].pid, 11);
    assert!(tree.children[0].children.is_empty());
    assert_eq!(tree.children[1].pid, 12);
    assert_eq!(tree.children[1].children.len(), 1);
    assert_eq!(tree.children[1].children[0].pid, 13);
    assert_eq!(tree.children[1].children[0].name, "sub");
    assert!(tree.children[1].children[0].children.is_empty());
}

#[test]
fn absent_target_builds_nothing() {
    let snapshot = sample_snapshot();
    assert!(build_process_tree(&snapshot, 99).is_none());
}

#[test]
fn empty_snapshot_builds_nothing() {
    let snapshot: Vec<ProcessRecord> = Vec::new();
    assert!(build_process_tree(&snapshot, 1).is_none());
}

#[test]
fn node_count_matches_reachable_component() {
    let snapshot = sample_snapshot();
    // Reachable from 10: {10, 11, 12, 13}; 1 is not a descendant.
    let tree = build_process_tree(&snapshot, 10).unwrap();
    let mut pids = Vec::new();
    collect_pids(&tree, &mut pids);
    assert_eq!(pids.len(), 4);
    // Whole table from 1.
    let tree = build_process_tree(&snapshot, 1).unwrap();
    let mut pids = Vec::new();
    collect_pids(&tree, &mut pids);
    assert_eq!(pids.len(), 5);
}

#[test]
fn no_duplicate_identifiers_in_tree() {
    let snapshot = sample_snapshot();
    let tree = build_process_tree(&snapshot, 1).unwrap();
    let mut pids = Vec::new();
    collect_pids(&tree, &mut pids);
    let mut sorted = pids.clone();
    sorted.sort();
    sorted.dedup();
    assert_eq!(sorted.len(), pids.len());
}

#[test]
fn building_twice_yields_identical_trees() {
    let snapshot = sample_snapshot();
    let first = build_process_tree(&snapshot, 10).unwrap();
    let second = build_process_tree(&snapshot, 10).unwrap();
    assert_eq!(first, second);
}

#[test]
fn dangling_parent_reference_is_inert() {
    // 5's parent 42 is in no record: 5 is still found, with no parent
    // node above it and its own children intact.
    let snapshot = vec![rec(5, 42, "stray"), rec(6, 5, "kid")];
    let tree = build_process_tree(&snapshot, 5).unwrap();
    assert_eq!(tree.pid, 5);
    assert_eq!(tree.ppid, 42);
    assert_eq!(tree.children.len(), 1);
    assert_eq!(tree.children[0].pid, 6);
}

#[test]
fn cyclic_parent_links_still_yield_finite_tree() {
    // A corrupted table: 2 and 3 each name the other as parent.  The
    // builder must terminate and repeat no identifier.
    let snapshot = vec![rec(2, 3, "a"), rec(3, 2, "b")];
    let tree = build_process_tree(&snapshot, 2).unwrap();
    assert_eq!(tree.pid, 2);
    assert_eq!(tree.children.len(), 1);
    assert_eq!(tree.children[0].pid, 3);
    assert!(tree.children[0].children.is_empty());
}

#[test]
fn later_duplicate_record_overwrites_earlier() {
    let mut snapshot = vec![rec(5, 0, "old")];
    snapshot.push(rec(5, 0, "new"));
    let tree = build_process_tree(&snapshot, 5).unwrap();
    assert_eq!(tree.name, "new");
}

#[test]
fn self_parent_record_gets_no_child_loop() {
    // A record naming itself as parent must not become its own child.
    let snapshot = vec![rec(7, 7, "selfish")];
    let tree = build_process_tree(&snapshot, 7).unwrap();
    assert_eq!(tree.pid, 7);
    assert!(tree.children.is_empty());
}

#[test]
fn children_keep_snapshot_order() {
    let snapshot = vec![rec(1, 0, "root"), rec(30, 1, "c"), rec(20, 1, "b"), rec(10, 1, "a")];
    let tree = build_process_tree(&snapshot, 1).unwrap();
    let order: Vec<u32> = tree.children.iter().map(|c| c.pid).collect();
    assert_eq!(order, vec![30, 20, 10]);
}
