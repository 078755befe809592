use nx_graph::{Action, Task, TaskGraphBuilder};

fn task(id: &str) -> Task {
    Task::new(id.to_string(), id.to_string(), Action::Shell(vec![]))
}

#[test]
fn test_graph_creation() {
    let n_a = task("a");
    let n_b = task("b");
    let n_c = task("c");
    let n_d = task("d");

    let mut builder = TaskGraphBuilder::new();

    builder.add_task(n_a.clone());
    builder.add_task(n_b.clone());
    builder.add_task(n_c.clone());
    builder.add_task(n_d.clone());

    builder.add_dependency(n_a.id().clone(), n_b.id().clone());
    builder.add_dependency(n_a.id().clone(), n_d.id().clone());
    builder.add_dependency(n_b.id().clone(), n_c.id().clone());

    assert!(builder.clone().build().is_ok(), "Graph should be valid");

    builder.add_dependency(n_d.id().clone(), n_c.id().clone());
    assert!(
        builder.clone().build().is_ok(),
        "Graph should be valid with shared dependencies"
    );

    builder.add_dependency(n_d.id().clone(), n_b.id().clone());
    assert!(
        builder.clone().build().is_ok(),
        "Graph should be valid with multiple shared dependencies"
    );

    builder.add_dependency(n_b.id().clone(), n_d.id().clone());
    assert!(
        builder.clone().build().is_err(),
        "Graph should be invalid with circular dependencies"
    );
}

#[test]
fn test_get_tasks() {
    for _ in 0..10 {
        let n_a = task("a");
        let n_b = task("b");
        let n_c = task("c");
        let n_d = task("d");

        let mut builder = TaskGraphBuilder::new();

        builder.add_task(n_a.clone());
        builder.add_task(n_b.clone());
        builder.add_task(n_c.clone());
        builder.add_task(n_d.clone());

        builder.add_dependency(n_a.id().clone(), n_b.id().clone());
        builder.add_dependency(n_a.id().clone(), n_d.id().clone());
        builder.add_dependency(n_a.id().clone(), n_c.id().clone());
        builder.add_dependency(n_b.id().clone(), n_c.id().clone());

        let mut graph = builder.build().unwrap();

        let first = graph.next().unwrap().unwrap();
        assert!(
            vec![n_c.clone(), n_d.clone()].contains(&first),
            "First task should be c or d",
        );

        if first == n_d {
            graph.done(n_d.id());
            assert_eq!(
                graph.next(),
                Some(Some(n_c.clone())),
                "Next task should be c"
            );
        } else {
            assert_eq!(
                graph.next(),
                Some(Some(n_d.clone())),
                "Next task should be d"
            );

            graph.done(n_d.id());
        }

        assert_eq!(
            graph.next(),
            Some(None),
            "There are tasks remaining, but none are ready"
        );

        graph.done(n_c.id());
        assert_eq!(
            graph.next(),
            Some(Some(n_b.clone())),
            "Next task should be b"
        );
        graph.done(n_b.id());

        assert_eq!(
            graph.next(),
            Some(Some(n_a.clone())),
            "Final task should be a"
        );
        graph.done(n_a.id());

        assert_eq!(
            graph.next(),
            None,
            "Should return None if no tasks are ready"
        );

        assert_eq!(graph.remaining(), 0, "Should have no remaining tasks");
    }
}
