use ps_tree::record::ProcessRecord;
use ps_tree::guard::is_orphaned;

fn rec(pid: u32, ppid: u32, name: &str) -> ProcessRecord {
    ProcessRecord {
        pid,
        ppid,
        name: name.to_string(),
        cmd: Vec::new(),
        cpu_bits: 0,
        memory: 0,
    }
}

const INIT_PID: u32 = 1;

#[test]
fn orphaned_when_own_record_absent() {
    let snapshot = vec![rec(1, 0, "init"), rec(10, 1, "app")];
    assert!(is_orphaned(&snapshot, 999, INIT_PID));
}

#[test]
fn orphaned_when_own_record_has_no_parent() {
    let snapshot = vec![rec(1, 0, "init"), rec(10, 0, "mon")];
    assert!(is_orphaned(&snapshot, 10, INIT_PID));
}

#[test]
fn orphaned_when_parent_is_init() {
    let snapshot = vec![rec(1, 0, "init"), rec(10, 1, "mon")];
    assert!(is_orphaned(&snapshot, 10, INIT_PID));
}

#[test]
fn not_orphaned_when_parent_alive() {
    let snapshot = vec![rec(1, 0, "init"), rec(5, 1, "shell"), rec(10, 5, "mon")];
    assert!(!is_orphaned(&snapshot, 10, INIT_PID));
}

#[test]
fn init_identifier_is_configurable() {
    // On a platform whose init process is 4, a parent of 1 is an
    // ordinary parent and a parent of 4 is an orphaning one.
    let snapshot = vec![rec(10, 1, "mon"), rec(11, 4, "mon2")];
    assert!(!is_orphaned(&snapshot, 10, 4));
    assert!(is_orphaned(&snapshot, 11, 4));
}
