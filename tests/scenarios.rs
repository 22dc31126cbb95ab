use std::time::Duration;

use procflow::base::{Executable, Next};
use procflow::procedure::Procedure;
use procflow::scheduler::{Scheduler, Step};

/// Runs a node step the way the script host would: `f` plays the script.
fn run_script(s: &mut Scheduler, c: usize, f: impl FnOnce(&mut procflow::script::Script)) {
    let mut script = s.prepare_script(c);
    f(&mut script);
    s.apply_script(c, script);
}

fn linear_procedure() -> Procedure {
    let mut p = Procedure::new("P".to_string());
    let a = p.add_node("A".to_string(), "set_continue()".to_string()).unwrap();
    let b = p.add_node("B".to_string(), "set_complete()".to_string()).unwrap();
    p.add_flow("A->B".to_string(), a, b, String::new()).unwrap();
    p
}

#[test]
fn linear_path_completes_without_children() {
    let mut s = Scheduler::new();
    s.start_procedure(vec![linear_procedure()]);
    let mut path = vec![s.cursors[0].current().clone()];
    assert!(matches!(s.execute_current(0), Step::Yield));
    path.push(s.cursors[0].current().clone());
    assert!(matches!(s.execute_current(0), Step::RunNode(0)));
    run_script(&mut s, 0, |sc| sc.set_continue());
    path.push(s.cursors[0].current().clone());
    assert!(matches!(s.execute_current(0), Step::CheckFlow(0)));
    let holds = !s.procedures[0].as_ref().unwrap().flows[0].has_condition();
    let next = s.procedures[0].as_ref().unwrap().flows[0].execute(holds);
    s.handle_next_operation(0, next);
    path.push(s.cursors[0].current().clone());
    assert!(matches!(s.execute_current(0), Step::RunNode(1)));
    run_script(&mut s, 0, |sc| sc.set_complete());
    assert!(s.cursors[0].is_complete());
    assert!(matches!(s.execute_current(0), Step::Finished));
    assert_eq!(
        path,
        vec![Executable::Procedure, Executable::Node(0), Executable::Flow(0), Executable::Node(1)]
    );
    assert_eq!(s.cursors.len(), 1);
}

#[test]
fn parallel_join_then_parent_completes() {
    let mut p = Procedure::new("P".to_string());
    let a = p.add_node("A".to_string(), String::new()).unwrap();
    let b = p.add_node("B".to_string(), "set_complete()".to_string()).unwrap();
    let c = p.add_node("C".to_string(), "set_complete()".to_string()).unwrap();
    assert!(p.add_link(a, b));
    assert!(p.add_link(a, c));
    let mut s = Scheduler::new();
    s.start_procedure(vec![p]);
    assert!(matches!(s.execute_current(0), Step::Yield));
    assert_eq!(s.cursors[0].current(), &Executable::Node(a));
    s.handle_next_operation(0, Next::Parallel(vec![Executable::Node(b), Executable::Node(c)]));
    assert_eq!(s.cursors[0].children, vec![1, 2]);
    assert!(matches!(s.execute_current(0), Step::Suspended));
    assert!(matches!(s.execute_current(1), Step::RunNode(1)));
    run_script(&mut s, 1, |sc| sc.set_complete());
    assert!(matches!(s.execute_current(0), Step::Suspended));
    assert!(matches!(s.execute_current(2), Step::RunNode(2)));
    run_script(&mut s, 2, |sc| sc.set_complete());
    assert!(s.cursors[0].children.is_empty());
    assert!(!s.cursors[0].is_complete());
    assert!(matches!(s.execute_current(0), Step::Yield));
    assert!(s.cursors[0].is_complete());
    assert!(matches!(s.execute_current(0), Step::Finished));
}

#[test]
fn select_on_flows_picks_first_true() {
    let mut p = Procedure::new("P".to_string());
    let a = p.add_node("A".to_string(), "set_continue()".to_string()).unwrap();
    let b = p.add_node("B".to_string(), String::new()).unwrap();
    let c = p.add_node("C".to_string(), String::new()).unwrap();
    let d = p.add_node("D".to_string(), String::new()).unwrap();
    let f1 = p.add_flow("F1".to_string(), a, b, "return false".to_string()).unwrap();
    let f2 = p.add_flow("F2".to_string(), a, c, "return true".to_string()).unwrap();
    let f3 = p.add_flow("F3".to_string(), a, d, "return true".to_string()).unwrap();
    let mut s = Scheduler::new();
    s.start_procedure(vec![p]);
    s.execute_current(0);
    run_script(&mut s, 0, |sc| sc.set_continue());
    assert_eq!(s.cursors[0].current(), &Executable::Selection(vec![f1, f2, f3]));
    match s.execute_current(0) {
        Step::RaceFlows(fs) => assert_eq!(fs, vec![f1, f2, f3]),
        other => panic!("unexpected step {:?}", other),
    }
    // F3 is never evaluated: the race stops at the first condition that holds.
    s.resolve_selection(0, &vec![false, true]);
    assert_eq!(s.cursors[0].current(), &Executable::Flow(f2));
    assert!(matches!(s.execute_current(0), Step::CheckFlow(1)));
    let next = s.procedures[0].as_ref().unwrap().flows[f2].execute(true);
    s.handle_next_operation(0, next);
    assert_eq!(s.cursors[0].current(), &Executable::Node(c));
    assert_eq!(s.cursors.len(), 1);
}

#[test]
fn wait_then_move() {
    let mut s = Scheduler::new();
    s.start_procedure(vec![linear_procedure()]);
    s.execute_current(0);
    let deadline = tokio::time::Instant::now() + Duration::from_millis(50);
    s.handle_next_operation(0, Next::Wait(Executable::Node(1), deadline));
    match s.execute_current(0) {
        Step::Sleep(t) => assert_eq!(t, deadline),
        other => panic!("unexpected step {:?}", other),
    }
    assert_eq!(s.cursors[0].current(), &Executable::Node(0));
    s.wake(0);
    assert_eq!(s.cursors[0].current(), &Executable::Node(1));
    assert!(s.cursors[0].waiting.is_none());
}

#[test]
fn wait_cancelled_does_not_enter_target() {
    let mut s = Scheduler::new();
    s.start_procedure(vec![linear_procedure()]);
    s.execute_current(0);
    let deadline = tokio::time::Instant::now() + Duration::from_millis(50);
    s.handle_next_operation(0, Next::Wait(Executable::Node(1), deadline));
    s.complete(0);
    s.wake(0);
    assert!(s.cursors[0].is_complete());
    assert_eq!(s.cursors[0].current(), &Executable::Node(0));
}

#[test]
fn wait_in_the_past_fires_at_once() {
    let mut s = Scheduler::new();
    s.start_procedure(vec![linear_procedure()]);
    s.execute_current(0);
    let deadline = tokio::time::Instant::now();
    s.handle_next_operation(0, Next::Wait(Executable::Node(1), deadline));
    match s.execute_current(0) {
        Step::Sleep(t) => assert!(t <= tokio::time::Instant::now()),
        other => panic!("unexpected step {:?}", other),
    }
    s.wake(0);
    assert_eq!(s.cursors[0].current(), &Executable::Node(1));
}

#[test]
fn bubble_completes_parent_and_cancels_siblings() {
    let mut p = Procedure::new("P".to_string());
    let root = p.add_node("P".to_string(), String::new()).unwrap();
    let a = p.add_node("A".to_string(), "set_bubble()".to_string()).unwrap();
    let b = p.add_node("B".to_string(), String::new()).unwrap();
    let c = p.add_node("C".to_string(), String::new()).unwrap();
    let mut s = Scheduler::new();
    s.start_procedure(vec![p]);
    s.execute_current(0);
    assert_eq!(s.cursors[0].current(), &Executable::Node(root));
    s.handle_next_operation(
        0,
        Next::Parallel(vec![Executable::Node(a), Executable::Node(b), Executable::Node(c)]),
    );
    let tokens: Vec<_> = (1..4).map(|i| s.cursors[i].signals()).collect();
    assert!(tokens.iter().all(|t| !t.is_cancelled()));
    assert!(matches!(s.execute_current(1), Step::RunNode(1)));
    run_script(&mut s, 1, |sc| sc.set_bubble());
    for i in 0..4 {
        assert!(s.cursors[i].is_complete());
    }
    assert!(tokens.iter().all(|t| t.is_cancelled()));
    assert!(s.live_cursors().is_empty());
    assert!(matches!(s.execute_current(2), Step::Finished));
    assert!(matches!(s.execute_current(3), Step::Finished));
}

#[test]
fn dropped_procedure_cancels_cursor() {
    let mut s = Scheduler::new();
    s.start_procedure(vec![linear_procedure()]);
    s.release_procedure(0);
    assert_eq!(s.live_cursors(), vec![0]);
    assert!(matches!(s.execute_current(0), Step::Finished));
    assert!(s.live_cursors().is_empty());
    assert!(s.cursors[0].is_complete());
    assert!(s.cursors[0].signals().is_cancelled());
}
