use ps_tree::record::ProcessRecord;
use ps_tree::sched::{continues, next_state, plan_cycle, CycleOutcome, LoopEvent, LoopState};

fn rec(pid: u32, ppid: u32, name: &str) -> ProcessRecord {
    ProcessRecord {
        pid,
        ppid,
        name: name.to_string(),
        cmd: Vec::new(),
        cpu_bits: 0,
        memory: 0,
    }
}

const INIT_PID: u32 = 1;

#[test]
fn cancellation_during_wait_stops_the_loop_at_once() {
    // The cancellation notification beats the timer: the running loop
    // leaves its cycle immediately instead of waiting the interval
    // out, and the next state after unwinding is terminal.
    let st = next_state(LoopState::Running, LoopEvent::Cancelled);
    assert_eq!(st, LoopState::Stopping);
    assert!(!continues(st));
    assert_eq!(next_state(st, LoopEvent::IntervalElapsed), LoopState::Stopped);
}

#[test]
fn elapsed_interval_keeps_polling() {
    let st = next_state(LoopState::Running, LoopEvent::IntervalElapsed);
    assert_eq!(st, LoopState::Running);
    assert!(continues(st));
}

#[test]
fn orphan_detection_stops_without_waiting() {
    let st = next_state(LoopState::Running, LoopEvent::OrphanDetected);
    assert_eq!(st, LoopState::Stopped);
    assert!(!continues(st));
}

#[test]
fn stopped_is_terminal() {
    assert_eq!(next_state(LoopState::Stopped, LoopEvent::Cancelled), LoopState::Stopped);
    assert_eq!(next_state(LoopState::Stopped, LoopEvent::IntervalElapsed), LoopState::Stopped);
}

#[test]
fn reparented_monitor_exits_before_building() {
    // The monitor's own record now names init as its parent: the cycle
    // asks for an exit even though the target is present.
    let snapshot = vec![rec(1, 0, "init"), rec(10, 1, "mon"), rec(20, 1, "target")];
    let outcome = plan_cycle(&snapshot, 10, INIT_PID, 20);
    assert!(matches!(outcome, CycleOutcome::ExitOrphaned));
}

#[test]
fn healthy_cycle_emits_the_tree() {
    let snapshot = vec![
        rec(1, 0, "init"),
        rec(5, 1, "shell"),
        rec(10, 5, "mon"),
        rec(20, 5, "target"),
        rec(21, 20, "child"),
    ];
    match plan_cycle(&snapshot, 10, INIT_PID, 20) {
        CycleOutcome::Emit(tree) => {
            assert_eq!(tree.pid, 20);
            assert_eq!(tree.children.len(), 1);
            assert_eq!(tree.children[0].pid, 21);
        }
        _ => panic!("expected a tree"),
    }
}

#[test]
fn missing_target_reports_and_keeps_polling() {
    let snapshot = vec![rec(1, 0, "init"), rec(5, 1, "shell"), rec(10, 5, "mon")];
    let outcome = plan_cycle(&snapshot, 10, INIT_PID, 777);
    assert!(matches!(outcome, CycleOutcome::ReportMissing));
}
