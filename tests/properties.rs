use procflow::base::{Executable, Next};
use procflow::error::Error;
use procflow::procedure::Procedure;
use procflow::scheduler::{Scheduler, Step};
use procflow::state::{State, TableKey, Variant};
use procflow::task::{Port, Task};

fn fan_procedure() -> Procedure {
    let mut p = Procedure::new("fan".to_string());
    let a = p.add_node("A".to_string(), String::new()).unwrap();
    let b = p.add_node("B".to_string(), String::new()).unwrap();
    let c = p.add_node("C".to_string(), String::new()).unwrap();
    assert!(p.add_link(a, b));
    assert!(p.add_link(a, c));
    p
}

fn started(p: Procedure) -> Scheduler {
    let mut s = Scheduler::new();
    s.start_procedure(vec![p]);
    assert!(matches!(s.execute_current(0), Step::Yield));
    s
}

#[test]
fn completion_is_monotone() {
    let mut s = started(fan_procedure());
    s.complete(0);
    s.handle_next_operation(0, Next::One(Executable::Node(1)));
    s.handle_next_operation(0, Next::Continue);
    s.wake(0);
    assert!(s.cursors[0].is_complete());
    assert_eq!(s.cursors[0].current(), &Executable::Node(0));
    assert!(matches!(s.execute_current(0), Step::Finished));
}

#[test]
fn cancellation_reaches_every_descendant() {
    let mut s = started(fan_procedure());
    s.handle_next_operation(0, Next::Parallel(vec![Executable::Node(1), Executable::Node(2)]));
    s.handle_next_operation(1, Next::Parallel(vec![Executable::Node(2)]));
    assert_eq!(s.cursors.len(), 4);
    assert_eq!(s.cursors[3].parent(), Some(1));
    s.complete(0);
    for i in 0..4 {
        assert!(s.cursors[i].is_complete());
        assert!(s.cursors[i].signals().is_cancelled());
    }
}

#[test]
fn parent_joins_only_when_all_children_complete() {
    let mut s = started(fan_procedure());
    s.handle_next_operation(0, Next::Continue);
    assert_eq!(s.cursors[0].children.len(), 2);
    assert_eq!(s.cursors[1].current(), &Executable::Node(1));
    assert_eq!(s.cursors[2].current(), &Executable::Node(2));
    s.complete(2);
    assert_eq!(s.cursors[0].children.len(), 2);
    assert!(!s.cursors[0].resume);
    s.complete(1);
    assert!(s.cursors[0].children.is_empty());
    assert!(s.cursors[0].resume);
    assert!(matches!(s.execute_current(0), Step::Yield));
    assert!(s.cursors[0].is_complete());
}

#[test]
fn parallel_over_nothing_joins_at_once() {
    let mut s = started(fan_procedure());
    s.handle_next_operation(0, Next::Parallel(vec![]));
    assert!(s.cursors[0].resume);
    assert_eq!(s.cursors.len(), 1);
}

#[test]
fn select_node_wins_over_flows() {
    let mut p = fan_procedure();
    let f = p.add_flow("F".to_string(), 1, 2, String::new()).unwrap();
    let mut s = started(p);
    s.handle_next_operation(0, Next::Select(vec![Executable::Flow(f), Executable::Node(2), Executable::Node(1)]));
    assert_eq!(s.cursors[0].current(), &Executable::Node(2));
    assert_eq!(s.cursors.len(), 1);
}

#[test]
fn select_single_flow_folds_to_flow() {
    let mut p = fan_procedure();
    let f = p.add_flow("F".to_string(), 1, 2, String::new()).unwrap();
    let mut s = started(p);
    s.handle_next_operation(0, Next::Select(vec![Executable::Flow(f)]));
    assert_eq!(s.cursors[0].current(), &Executable::Flow(f));
}

#[test]
fn select_flattens_selections() {
    let mut p = fan_procedure();
    let f = p.add_flow("F".to_string(), 1, 2, String::new()).unwrap();
    let g = p.add_flow("G".to_string(), 2, 1, String::new()).unwrap();
    let mut s = started(p);
    s.handle_next_operation(0, Next::Select(vec![Executable::Flow(g), Executable::Selection(vec![f, g])]));
    assert_eq!(s.cursors[0].current(), &Executable::Selection(vec![g, f, g]));
}

#[test]
fn select_without_candidates_completes() {
    let mut s = started(fan_procedure());
    s.handle_next_operation(0, Next::Select(vec![]));
    assert!(s.cursors[0].is_complete());
}

#[test]
fn selection_with_no_true_condition_completes() {
    let mut p = fan_procedure();
    let f = p.add_flow("F".to_string(), 0, 1, String::new()).unwrap();
    let g = p.add_flow("G".to_string(), 0, 2, String::new()).unwrap();
    let mut s = started(p);
    s.handle_next_operation(0, Next::One(Executable::Selection(vec![f, g])));
    s.resolve_selection(0, &vec![false, false]);
    assert!(s.cursors[0].is_complete());
}

#[test]
fn continue_is_deterministic() {
    let mut s1 = started(fan_procedure());
    let mut s2 = started(fan_procedure());
    s1.handle_next_operation(0, Next::Continue);
    s2.handle_next_operation(0, Next::Continue);
    assert_eq!(s1.cursors.len(), s2.cursors.len());
    for i in 0..s1.cursors.len() {
        assert_eq!(s1.cursors[i].current(), s2.cursors[i].current());
        assert_eq!(s1.cursors[i].children, s2.cursors[i].children);
    }
}

#[test]
fn continue_with_no_outgoings_completes() {
    let mut p = Procedure::new("one".to_string());
    p.add_node("A".to_string(), String::new()).unwrap();
    let mut s = started(p);
    s.handle_next_operation(0, Next::Continue);
    assert!(s.cursors[0].is_complete());
}

#[test]
fn continue_with_single_flow_moves_to_flow() {
    let mut p = Procedure::new("one".to_string());
    let a = p.add_node("A".to_string(), String::new()).unwrap();
    let b = p.add_node("B".to_string(), String::new()).unwrap();
    let f = p.add_flow("F".to_string(), a, b, String::new()).unwrap();
    let mut s = started(p);
    s.handle_next_operation(0, Next::Continue);
    assert_eq!(s.cursors[0].current(), &Executable::Flow(f));
}

#[test]
fn continue_with_mixed_outgoings_fans_out() {
    let mut p = Procedure::new("mixed".to_string());
    let a = p.add_node("A".to_string(), String::new()).unwrap();
    let b = p.add_node("B".to_string(), String::new()).unwrap();
    let f = p.add_flow("F".to_string(), a, b, String::new()).unwrap();
    assert!(p.add_link(a, b));
    let mut s = started(p);
    s.handle_next_operation(0, Next::Continue);
    assert_eq!(s.cursors[0].children, vec![1, 2]);
    assert_eq!(s.cursors[1].current(), &Executable::Flow(f));
    assert_eq!(s.cursors[2].current(), &Executable::Node(b));
}

#[test]
fn child_state_is_a_snapshot() {
    let mut s = started(fan_procedure());
    let mut script = s.prepare_script(0);
    script.set_state("k".to_string(), Variant::Integer(1));
    s.apply_script(0, script);
    s.handle_next_operation(0, Next::Parallel(vec![Executable::Node(1)]));
    assert_eq!(s.cursors[1].context().state.get("k"), Some(&Variant::Integer(1)));
    let mut script = s.prepare_script(1);
    script.set_state("k".to_string(), Variant::Integer(2));
    script.set_state("new".to_string(), Variant::Boolean(true));
    s.apply_script(1, script);
    assert_eq!(s.cursors[1].context().state.get("k"), Some(&Variant::Integer(2)));
    assert_eq!(s.cursors[0].context().state.get("k"), Some(&Variant::Integer(1)));
    assert!(!s.cursors[0].context().state.has("new"));
}

#[test]
fn set_one_moves_to_named_entity() {
    let mut p = fan_procedure();
    let f = p.add_flow("F".to_string(), 1, 2, String::new()).unwrap();
    let mut s = started(p);
    let mut script = s.prepare_script(0);
    script.set_one("C".to_string());
    s.apply_script(0, script);
    assert_eq!(s.cursors[0].current(), &Executable::Node(2));
    let mut script = s.prepare_script(0);
    script.set_one("F".to_string());
    s.apply_script(0, script);
    assert_eq!(s.cursors[0].current(), &Executable::Flow(f));
}

#[test]
fn set_one_with_unknown_name_fails_the_cursor() {
    let mut s = started(fan_procedure());
    let mut script = s.prepare_script(0);
    script.set_one("missing".to_string());
    s.apply_script(0, script);
    assert!(s.cursors[0].is_complete());
}

#[test]
fn script_without_directive_stays() {
    let mut s = started(fan_procedure());
    let script = s.prepare_script(0);
    s.apply_script(0, script);
    assert!(!s.cursors[0].is_complete());
    assert_eq!(s.cursors[0].current(), &Executable::Node(0));
}

#[test]
fn cursor_ids_are_hyphenated_uuids() {
    let mut s = Scheduler::new();
    s.start_procedure(vec![fan_procedure(), fan_procedure()]);
    assert_eq!(s.cursors[0].id().len(), 36);
    assert_eq!(s.cursors[0].id().matches('-').count(), 4);
    assert_ne!(s.cursors[0].id(), s.cursors[1].id());
}

#[test]
fn procedure_with_no_nodes_completes_its_cursor() {
    let mut s = Scheduler::new();
    s.start_procedure(vec![Procedure::new("empty".to_string())]);
    assert!(matches!(s.execute_current(0), Step::Finished));
    assert!(s.cursors[0].is_complete());
}

#[test]
fn start_node_is_first_without_incomings() {
    let mut p = Procedure::new("p".to_string());
    let a = p.add_node("A".to_string(), String::new()).unwrap();
    let b = p.add_node("B".to_string(), String::new()).unwrap();
    let c = p.add_node("C".to_string(), String::new()).unwrap();
    assert!(p.add_link(a, b));
    assert!(p.add_link(c, a));
    assert_eq!(p.start_node(), Some(c));
    assert!(matches!(p.execute(), Next::One(Executable::Node(2))));
}

#[test]
fn find_prefers_nodes_then_flows() {
    let mut p = fan_procedure();
    let f = p.add_flow("F".to_string(), 0, 1, String::new()).unwrap();
    assert_eq!(p.find("B"), Ok(Executable::Node(1)));
    assert_eq!(p.find("F"), Ok(Executable::Flow(f)));
    assert_eq!(
        p.find("Z"),
        Err(Error::NotFound { procedure: "fan".to_string(), name: "Z".to_string() })
    );
}

#[test]
fn duplicate_names_are_refused() {
    let mut p = fan_procedure();
    assert_eq!(p.add_node("A".to_string(), String::new()), None);
    assert!(p.add_flow("F".to_string(), 0, 1, String::new()).is_some());
    assert!(p.add_flow("F".to_string(), 1, 2, String::new()).is_none());
    assert!(p.add_flow("G".to_string(), 0, 9, String::new()).is_none());
    assert!(!p.add_link(0, 9));
}

#[test]
fn outgoings_of_each_kind() {
    let mut p = fan_procedure();
    let f = p.add_flow("F".to_string(), 1, 2, String::new()).unwrap();
    assert_eq!(
        Executable::Node(0).outgoings(&p),
        vec![Executable::Node(1), Executable::Node(2)]
    );
    assert_eq!(Executable::Flow(f).outgoings(&p), vec![Executable::Node(2)]);
    assert_eq!(Executable::Procedure.outgoings(&p), vec![]);
    assert_eq!(
        Executable::Selection(vec![f, f]).outgoings(&p),
        vec![Executable::Flow(f), Executable::Flow(f)]
    );
    assert_eq!(Executable::Node(7).outgoings(&p), vec![]);
}

#[test]
fn executable_equality_is_identity() {
    assert_eq!(Executable::Node(1), Executable::Node(1));
    assert_ne!(Executable::Node(1), Executable::Flow(1));
    assert_eq!(Executable::Selection(vec![1, 2]), Executable::Selection(vec![1, 2]));
    assert_ne!(Executable::Selection(vec![1, 2]), Executable::Selection(vec![2, 1]));
    assert_ne!(Executable::Selection(vec![1]), Executable::Selection(vec![1, 2]));
}

#[test]
fn flow_execute_follows_condition() {
    let p = {
        let mut p = fan_procedure();
        p.add_flow("F".to_string(), 0, 1, "x".to_string()).unwrap();
        p
    };
    assert!(p.flows[0].has_condition());
    assert!(matches!(p.flows[0].execute(true), Next::Continue));
    assert!(matches!(p.flows[0].execute(false), Next::Complete));
}

#[test]
fn state_set_get_remove() {
    let mut st = State::new();
    assert!(!st.has("a"));
    st.set("a".to_string(), Variant::String("x".to_string()));
    st.set("b".to_string(), Variant::Float(1.5f64.to_bits()));
    assert_eq!(st.get("a"), Some(&Variant::String("x".to_string())));
    st.set("a".to_string(), Variant::Null);
    assert_eq!(st.get("a"), Some(&Variant::Null));
    assert_eq!(st.remove("a"), Some(Variant::Null));
    assert_eq!(st.remove("a"), None);
    assert!(!st.has("a"));
    assert!(st.has("b"));
}

#[test]
fn variant_clone_is_deep() {
    let v = Variant::Object(vec![(
        "list".to_string(),
        Variant::Array(vec![Variant::Integer(-3), Variant::Boolean(false)]),
    )]);
    let w = v.clone();
    assert_eq!(v, w);
}

#[test]
fn bubble_from_root_completes_only_root() {
    let mut s = started(fan_procedure());
    s.complete_and_bubble(0);
    assert!(s.cursors[0].is_complete());
}

#[test]
fn table_with_integer_keys_becomes_sorted_array() {
    let v = Variant::from_table(vec![
        (TableKey::Integer(3), Variant::String("c".to_string())),
        (TableKey::Integer(1), Variant::String("a".to_string())),
        (TableKey::Other, Variant::Null),
        (TableKey::Integer(2), Variant::String("b".to_string())),
    ]);
    assert_eq!(
        v,
        Variant::Array(vec![
            Variant::String("a".to_string()),
            Variant::String("b".to_string()),
            Variant::String("c".to_string()),
        ])
    );
}

#[test]
fn table_with_a_text_key_becomes_object() {
    let v = Variant::from_table(vec![
        (TableKey::Integer(1), Variant::Integer(10)),
        (TableKey::Text("name".to_string()), Variant::Boolean(true)),
    ]);
    assert_eq!(v, Variant::Object(vec![("name".to_string(), Variant::Boolean(true))]));
}

#[test]
fn empty_table_becomes_empty_array() {
    assert_eq!(Variant::from_table(vec![]), Variant::Array(vec![]));
}

#[test]
fn task_execute_leaves_cursor() {
    let mut s = started(fan_procedure());
    let task = Task {
        name: "t".to_string(),
        script: String::new(),
        incomings: vec![],
        outgoings: vec![Port::Task(Task {
            name: "u".to_string(),
            script: String::new(),
            incomings: vec![],
            outgoings: vec![],
        })],
    };
    assert!(task.execute(&mut s.cursors[0]).is_ok());
    assert_eq!(s.cursors[0].current(), &Executable::Node(0));
    assert!(!s.cursors[0].is_complete());
}

#[test]
fn check_accepts_built_and_refuses_broken_procedures() {
    let p = fan_procedure();
    assert!(p.check());
    let mut dup = fan_procedure();
    dup.nodes.push(procflow::node::Node {
        name: "A".to_string(),
        script: String::new(),
        incomings: vec![],
        outgoings: vec![],
    });
    assert!(!dup.check());
    let mut dangling = fan_procedure();
    dangling.nodes[0].outgoings.push(Executable::Selection(vec![4]));
    assert!(!dangling.check());
    let mut bad_flow = fan_procedure();
    bad_flow.add_flow("F".to_string(), 0, 1, String::new()).unwrap();
    bad_flow.flows[0].target_node = 9;
    assert!(!bad_flow.check());
}
