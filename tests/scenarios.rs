use nx_graph::{Action, Task, TaskGraph, TaskGraphBuilder};

fn task(id: &str) -> Task {
    Task::new(id.to_string(), format!("task {}", id), Action::Shell(vec!["echo".to_string(), id.to_string()]))
}

fn builder(ids: &[&str], deps: &[(&str, &str)]) -> TaskGraphBuilder {
    let mut b = TaskGraphBuilder::new();
    for id in ids {
        b.add_task(task(id));
    }
    for (t, d) in deps {
        b.add_dependency(t.to_string(), d.to_string());
    }
    b
}

fn ready_id(g: &mut TaskGraph) -> String {
    match g.next() {
        Some(Some(t)) => t.id().clone(),
        other => panic!("expected a ready task, got {:?}", other),
    }
}

fn diamond() -> TaskGraph {
    builder(&["a", "b", "c", "d"], &[("a", "b"), ("a", "d"), ("b", "c"), ("d", "c")])
        .build()
        .unwrap()
}

#[test]
fn diamond_runs_in_dependency_order() {
    let mut g = diamond();
    assert_eq!(g.remaining(), 4);
    assert_eq!(ready_id(&mut g), "c");
    assert_eq!(g.next(), Some(None));
    g.done(&"c".to_string());
    let x = ready_id(&mut g);
    let y = ready_id(&mut g);
    let mut mid = vec![x.clone(), y.clone()];
    mid.sort();
    assert_eq!(mid, vec!["b".to_string(), "d".to_string()]);
    assert_eq!(g.next(), Some(None));
    g.done(&x);
    assert_eq!(g.next(), Some(None));
    g.done(&y);
    assert_eq!(ready_id(&mut g), "a");
    g.done(&"a".to_string());
    assert_eq!(g.remaining(), 0);
    assert_eq!(g.next(), None);
    assert_eq!(g.next(), None);
}

#[test]
fn diamond_order_is_the_same_every_time() {
    let mut first: Vec<String> = vec![];
    for round in 0..20 {
        let mut g = diamond();
        let mut seen: Vec<String> = vec![];
        while let Some(Some(t)) = g.next() {
            g.done(t.id());
            seen.push(t.id().clone());
        }
        if round == 0 {
            first = seen;
        } else {
            assert_eq!(seen, first);
        }
    }
    assert_eq!(first.len(), 4);
}

#[test]
fn two_task_cycle_is_rejected() {
    let r = builder(&[], &[("a", "b"), ("b", "a")]).build();
    match r {
        Err(id) => assert!(id == "a" || id == "b", "unexpected id {}", id),
        Ok(_) => panic!("cycle accepted"),
    }
}

#[test]
fn registered_two_task_cycle_is_rejected() {
    let r = builder(&["a", "b"], &[("a", "b"), ("b", "a")]).build();
    match r {
        Err(id) => assert!(id == "a" || id == "b"),
        Ok(_) => panic!("cycle accepted"),
    }
}

#[test]
fn cycle_behind_a_source_names_a_cycle_member() {
    let r = builder(&["s", "x", "y", "z"], &[("x", "s"), ("y", "x"), ("x", "y"), ("z", "y")]).build();
    match r {
        Err(id) => assert!(id == "x" || id == "y", "unexpected id {}", id),
        Ok(_) => panic!("cycle accepted"),
    }
}

#[test]
fn self_dependency_is_a_cycle() {
    let r = builder(&["a"], &[("a", "a")]).build();
    assert_eq!(r.err(), Some("a".to_string()));
}

#[test]
fn isolated_task_is_ready_first() {
    let mut g = builder(&["x", "e"], &[("x", "y")]).build().unwrap();
    assert_eq!(g.next(), Some(Some(task("e"))));
    assert_eq!(g.next(), Some(None));

    let mut only = builder(&["e"], &[]).build().unwrap();
    assert_eq!(only.next(), Some(Some(task("e"))));
    assert_eq!(only.next(), None);
}

#[test]
fn not_ready_yet() {
    let mut g = builder(&["x", "y"], &[("x", "y")]).build().unwrap();
    assert_eq!(ready_id(&mut g), "y");
    assert_eq!(g.next(), Some(None));
    assert_eq!(g.next(), Some(None));
    assert_eq!(g.remaining(), 1);
    g.done(&"y".to_string());
    assert_eq!(ready_id(&mut g), "x");
    assert_eq!(g.next(), None);
}

#[test]
fn dependency_added_before_its_task_still_orders() {
    let mut b = TaskGraphBuilder::new();
    b.add_dependency("late".to_string(), "early".to_string());
    b.add_task(task("late"));
    b.add_task(task("early"));
    let mut g = b.build().unwrap();
    assert_eq!(ready_id(&mut g), "early");
    g.done(&"early".to_string());
    assert_eq!(ready_id(&mut g), "late");
}

#[test]
fn remaining_counts_dispatch_not_completion() {
    let mut g = builder(&["a", "b", "c"], &[]).build().unwrap();
    assert_eq!(g.remaining(), 3);
    g.done(&"a".to_string());
    g.done(&"zzz".to_string());
    assert_eq!(g.remaining(), 3);
    let _ = ready_id(&mut g);
    assert_eq!(g.remaining(), 2);
    let _ = ready_id(&mut g);
    let _ = ready_id(&mut g);
    assert_eq!(g.remaining(), 0);
    assert_eq!(g.next(), None);
}

#[test]
fn done_is_idempotent() {
    let mut g = builder(&["x", "y"], &[("x", "y")]).build().unwrap();
    g.done(&"y".to_string());
    g.done(&"y".to_string());
    let mut got: Vec<String> = vec![];
    while let Some(Some(t)) = g.next() {
        got.push(t.id().clone());
    }
    assert_eq!(got, vec!["y".to_string(), "x".to_string()]);
}

#[test]
fn unregistered_dependency_waits_for_its_done() {
    let mut g = builder(&["t"], &[("t", "ghost")]).build().unwrap();
    assert_eq!(g.remaining(), 1);
    assert_eq!(g.next(), Some(None));
    g.done(&"ghost".to_string());
    assert_eq!(ready_id(&mut g), "t");
}

#[test]
fn duplicate_dependencies_are_tolerated() {
    let mut g = builder(&["x", "y"], &[("x", "y"), ("x", "y")]).build().unwrap();
    assert_eq!(ready_id(&mut g), "y");
    g.done(&"y".to_string());
    assert_eq!(ready_id(&mut g), "x");
}

#[test]
fn add_task_overwrites_same_id() {
    let mut b = TaskGraphBuilder::new();
    b.add_task(task("a"));
    let replacement = Task::new("a".to_string(), "other".to_string(), Action::Shell(vec!["true".to_string()]));
    b.add_task(replacement.clone());
    let mut g = b.build().unwrap();
    assert_eq!(g.remaining(), 1);
    assert_eq!(g.next(), Some(Some(replacement)));
}

#[test]
fn empty_builder_is_exhausted() {
    let mut g = TaskGraphBuilder::new().build().unwrap();
    assert_eq!(g.remaining(), 0);
    assert_eq!(g.next(), None);
}

#[test]
fn ready_task_is_a_copy_of_the_registered_one() {
    let mut g = builder(&["a"], &[]).build().unwrap();
    let t = g.next().unwrap().unwrap();
    assert_eq!(t.id(), "a");
    assert_eq!(t.name(), "task a");
    assert_eq!(t.action(), &Action::Shell(vec!["echo".to_string(), "a".to_string()]));
}

#[test]
fn chain_comes_out_in_dependency_order() {
    let mut g = builder(&["d", "c", "b", "a"], &[("a", "b"), ("b", "c"), ("c", "d")]).build().unwrap();
    let mut got: Vec<String> = vec![];
    while let Some(Some(t)) = g.next() {
        g.done(t.id());
        got.push(t.id().clone());
    }
    assert_eq!(got, vec!["d", "c", "b", "a"]);
}
