use workspace_graph::file::FileProbe;
use workspace_graph::name_map::NameMap;
use workspace_graph::package_json::PackageJson;
use workspace_graph::package_json::PackageJsonData;
use workspace_graph::project::InvalidationError;
use workspace_graph::project::Project;
use workspace_graph::workspace::Workspace;

fn text(s: &str) -> String {
    s.to_string()
}

fn workspace(name: &str) -> Workspace {
    let data = PackageJsonData {
        name: text(name),
        version: text("1.0.0"),
        workspaces: vec![],
        dependencies: vec![],
    };
    let manifest = format!("/repo/packages/{}/package.json", name);
    Workspace::new(format!("/repo/packages/{}", name), PackageJson::new(&manifest, data))
}

fn root() -> PackageJson {
    let data = PackageJsonData {
        name: text("root"),
        version: text("0.0.0"),
        workspaces: vec![text("packages/*")],
        dependencies: vec![],
    };
    PackageJson::new(&text("/repo/package.json"), data)
}

fn probe(path: &str, modified: u128, content: Option<&str>) -> FileProbe {
    FileProbe { path: text(path), modified: Some(modified), content: content.map(text) }
}

fn answers(list: &[(&str, &str)]) -> NameMap<String> {
    let mut map = NameMap::new();
    for (id, payload) in list {
        map.insert(text(id), text(payload));
    }
    map
}

fn disk_at_first() -> Vec<FileProbe> {
    vec![
        probe("/repo/packages/a/package.json", 1, Some("{\"name\":\"a\"}")),
        probe("/repo/packages/a/index.js", 2, Some("hello")),
        probe("/repo/packages/b/package.json", 3, Some("{\"name\":\"b\"}")),
        probe("/repo/packages/b/index.js", 4, Some("")),
    ]
}

fn both_answers() -> NameMap<String> {
    answers(&[
        ("a", "[\"/repo/packages/a/index.js\"]"),
        ("b", "[\"/repo/packages/b/index.js\"]"),
    ])
}

#[test]
fn first_pass_finds_every_workspace_dirty() {
    let project = Project::new(text("/repo"), root(), vec![]).ok().unwrap();
    let report = project.invalidate(vec![workspace("a"), workspace("b")], &both_answers(), &disk_at_first());
    assert_eq!(report.updated, vec![text("a"), text("b")]);
    assert!(report.failed.is_empty());
    assert_eq!(report.workspaces.len(), 2);
    assert_eq!(report.workspaces[0].name, "a");
    assert_eq!(report.workspaces[0].files.len(), 2);
    assert_eq!(report.workspaces[1].name, "b");
    assert_eq!(report.workspaces[1].files.len(), 2);
}

#[test]
fn later_pass_finds_only_the_changed_workspace_dirty() {
    let mut project = Project::new(text("/repo"), root(), vec![]).ok().unwrap();
    let report = project.invalidate(vec![workspace("a"), workspace("b")], &both_answers(), &disk_at_first());
    project.replace_workspaces(report.workspaces);

    let unchanged = vec![
        probe("/repo/packages/a/package.json", 1, None),
        probe("/repo/packages/a/index.js", 2, None),
        probe("/repo/packages/b/package.json", 3, None),
        probe("/repo/packages/b/index.js", 4, None),
    ];
    let report = project.invalidate(vec![workspace("a"), workspace("b")], &both_answers(), &unchanged);
    assert!(report.updated.is_empty());
    assert!(report.failed.is_empty());
    assert_eq!(report.workspaces.len(), 2);
    assert_eq!(report.workspaces[0].files.len(), 2);

    let edited = vec![
        probe("/repo/packages/a/package.json", 1, None),
        probe("/repo/packages/a/index.js", 2, None),
        probe("/repo/packages/b/package.json", 3, None),
        probe("/repo/packages/b/index.js", 9, Some("changed")),
    ];
    let report = project.invalidate(vec![workspace("a"), workspace("b")], &both_answers(), &edited);
    assert_eq!(report.updated, vec![text("b")]);
    assert_eq!(
        report.workspaces[1].files.get(&text("/repo/packages/b/index.js")).unwrap().modified,
        9
    );
}

#[test]
fn a_workspace_that_fails_keeps_its_state_and_does_not_stop_the_pass() {
    let mut project = Project::new(text("/repo"), root(), vec![]).ok().unwrap();
    let report = project.invalidate(vec![workspace("a"), workspace("b")], &both_answers(), &disk_at_first());
    project.replace_workspaces(report.workspaces);

    let only_b = answers(&[
        ("b", "[\"/repo/packages/b/index.js\", \"/repo/packages/b/gone.js\"]"),
        ("c", "not a list"),
    ]);
    let report = project.invalidate(
        vec![workspace("a"), workspace("b"), workspace("c"), workspace("d")],
        &only_b,
        &disk_at_first(),
    );
    assert!(report.updated.is_empty());
    assert_eq!(report.workspaces.len(), 4);
    assert_eq!(report.workspaces[0].files.len(), 2);
    assert_eq!(report.workspaces[1].files.len(), 2);
    assert_eq!(report.workspaces[2].files.len(), 0);
    assert_eq!(report.failed.len(), 4);
    assert_eq!(report.failed[0].0, "a");
    assert!(matches!(report.failed[0].1, InvalidationError::Unresolved));
    assert_eq!(report.failed[1].0, "b");
    assert!(matches!(&report.failed[1].1, InvalidationError::Unreadable(e) if e.path == "/repo/packages/b/gone.js"));
    assert_eq!(report.failed[2].0, "c");
    assert!(matches!(report.failed[2].1, InvalidationError::Unresolved));
    assert_eq!(report.failed[3].0, "d");
    assert!(matches!(report.failed[3].1, InvalidationError::Unresolved));
}

#[test]
fn settle_enters_with_the_recorded_state() {
    let mut project = Project::new(text("/repo"), root(), vec![]).ok().unwrap();
    let report = project.invalidate(vec![workspace("a")], &both_answers(), &disk_at_first());
    project.replace_workspaces(report.workspaces);
    let (state, outcome) = project.settle(workspace("a"), &both_answers(), &disk_at_first());
    assert_eq!(state.files.len(), 2);
    let (dirty, files) = outcome.ok().unwrap();
    assert!(!dirty);
    assert_eq!(files.len(), 2);
    let (state, outcome) = project.settle(workspace("b"), &both_answers(), &disk_at_first());
    assert_eq!(state.files.len(), 0);
    let (dirty, files) = outcome.ok().unwrap();
    assert!(dirty);
    assert_eq!(files.len(), 2);
}

#[test]
fn a_workspace_that_is_gone_leaves_the_project() {
    let mut project = Project::new(text("/repo"), root(), vec![]).ok().unwrap();
    let report = project.invalidate(vec![workspace("a"), workspace("b")], &both_answers(), &disk_at_first());
    project.replace_workspaces(report.workspaces);
    let report = project.invalidate(vec![workspace("b")], &both_answers(), &disk_at_first());
    project.replace_workspaces(report.workspaces);
    assert_eq!(project.workspaces.len(), 1);
    assert!(project.workspaces.get(&text("a")).is_none());
    assert!(project.workspaces.get(&text("b")).is_some());
}
