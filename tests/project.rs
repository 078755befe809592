use nx_graph::project::affected_util;
use nx_graph::{Project, ValidateProjectsError, Workspace};

fn strings(xs: &[&str]) -> Vec<String> {
    xs.iter().map(|x| x.to_string()).collect()
}

fn project(name: &str, affects: &[&str], affected_by: &[&str], targets: &[&str]) -> Project {
    Project::new(
        name.to_string(),
        Some("1.0.0".to_string()),
        format!("the {} project", name),
        strings(&["owner"]),
        strings(affects),
        strings(affected_by),
        strings(targets),
    )
}

fn workspace(tags: &[&str], required: &[&str]) -> Workspace {
    Workspace::new(
        "ws".to_string(),
        "0.1.0".to_string(),
        vec![("core".to_string(), "core/project.json".to_string())],
        strings(tags),
        strings(&["someone"]),
        "https://example.invalid/repo".to_string(),
        strings(required),
    )
}

#[test]
fn valid_project_has_no_errors() {
    let ws = workspace(&["lib", "app"], &["build", "test"]);
    let p = project("core", &["lib"], &["app"], &["test", "build", "lint"]);
    assert_eq!(ws.check_project(&"core".to_string(), &p), vec![]);
}

#[test]
fn missing_targets_are_reported_in_workspace_order() {
    let ws = workspace(&["lib"], &["build", "test", "lint"]);
    let p = project("core", &[], &[], &["test"]);
    assert_eq!(
        ws.check_project(&"core".to_string(), &p),
        vec![
            ValidateProjectsError::MissingTargets("core".to_string(), "build".to_string()),
            ValidateProjectsError::MissingTargets("core".to_string(), "lint".to_string()),
        ]
    );
}

#[test]
fn unknown_tags_are_reported_once_with_all_tags() {
    let ws = workspace(&["lib"], &[]);
    let p = project("core", &["lib", "x"], &["y", "lib"], &[]);
    assert_eq!(
        ws.check_project(&"core".to_string(), &p),
        vec![ValidateProjectsError::UnknownTags("core".to_string(), strings(&["x", "y"]))]
    );
}

#[test]
fn missing_targets_come_before_unknown_tags() {
    let ws = workspace(&[], &["build"]);
    let p = project("web", &["ui"], &[], &[]);
    assert_eq!(
        ws.check_project(&"web".to_string(), &p),
        vec![
            ValidateProjectsError::MissingTargets("web".to_string(), "build".to_string()),
            ValidateProjectsError::UnknownTags("web".to_string(), strings(&["ui"])),
        ]
    );
}

fn sorted(mut v: Vec<String>) -> Vec<String> {
    v.sort();
    v
}

#[test]
fn affected_follows_tags_transitively() {
    let ps = vec![
        ("a".to_string(), project("a", &["t1"], &[], &[])),
        ("b".to_string(), project("b", &["t2"], &["t1"], &[])),
        ("c".to_string(), project("c", &[], &["t2"], &[])),
        ("d".to_string(), project("d", &[], &["other"], &[])),
    ];
    assert_eq!(sorted(affected_util(0, &ps)), strings(&["b", "c"]));
    assert_eq!(affected_util(1, &ps), strings(&["c"]));
    assert_eq!(affected_util(2, &ps), Vec::<String>::new());
}

#[test]
fn affected_lists_each_project_once() {
    let ps = vec![
        ("a".to_string(), project("a", &["t"], &[], &[])),
        ("b".to_string(), project("b", &["u"], &["t"], &[])),
        ("c".to_string(), project("c", &["u"], &["t"], &[])),
        ("d".to_string(), project("d", &[], &["u"], &[])),
    ];
    assert_eq!(sorted(affected_util(0, &ps)), strings(&["b", "c", "d"]));
}

#[test]
fn affected_terminates_on_cyclic_tags() {
    let ps = vec![
        ("a".to_string(), project("a", &["ta"], &["tb"], &[])),
        ("b".to_string(), project("b", &["tb"], &["ta"], &[])),
    ];
    assert_eq!(sorted(affected_util(0, &ps)), strings(&["a", "b"]));
}
