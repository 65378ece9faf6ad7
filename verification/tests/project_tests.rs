use workspace_graph::file::File;
use workspace_graph::file::FileIOError;
use workspace_graph::file_cache::FileCache;
use workspace_graph::name_map::NameMap;
use workspace_graph::package_json::default_deps;
use workspace_graph::package_json::default_version;
use workspace_graph::package_json::default_workspaces;
use workspace_graph::package_json::PackageJson;
use workspace_graph::package_json::PackageJsonData;
use workspace_graph::project::manifest_pattern;
use workspace_graph::project::resolved_inputs;
use workspace_graph::project::InvalidationError;
use workspace_graph::project::PassReport;
use workspace_graph::project::Project;
use workspace_graph::text::contains_text;
use workspace_graph::text::joined;
use workspace_graph::text::position;
use workspace_graph::text::same_text;
use workspace_graph::version::check_range;
use workspace_graph::version::clean_version;
use workspace_graph::workspace::Workspace;

fn text(s: &str) -> String {
    s.to_string()
}

fn descriptor(path: &str, name: &str, version: &str, globs: &[&str], deps: &[(&str, &str)]) -> PackageJson {
    let data = PackageJsonData {
        name: text(name),
        version: text(version),
        workspaces: globs.iter().map(|g| g.to_string()).collect(),
        dependencies: deps.iter().map(|(n, r)| (n.to_string(), r.to_string())).collect(),
    };
    PackageJson::new(&text(path), data)
}

fn workspace(root: &str, name: &str) -> Workspace {
    let manifest = format!("{}/package.json", root);
    Workspace::new(text(root), descriptor(&manifest, name, "1.0.0", &[], &[]))
}

fn root_descriptor() -> PackageJson {
    descriptor("/repo/package.json", "root", "0.0.0", &["packages/*"], &[])
}

#[test]
fn descriptor_takes_over_the_data() {
    let pkg = descriptor(
        "/repo/package.json",
        "root",
        "1.0.0",
        &["packages/*", "tools/*"],
        &[("a", "^1.0.0"), ("b", "~2.0.0")],
    );
    assert_eq!(pkg.path, "/repo/package.json");
    assert_eq!(pkg.name, "root");
    assert_eq!(pkg.version, "1.0.0");
    assert_eq!(pkg.get_workspaces_config(), &vec![text("packages/*"), text("tools/*")]);
    assert_eq!(pkg.dependencies.entries, vec![(text("a"), text("^1.0.0")), (text("b"), text("~2.0.0"))]);
}

#[test]
fn dependency_declared_twice_keeps_the_later_range() {
    let pkg = descriptor("p", "n", "1.0.0", &[], &[("a", "^1.0.0"), ("b", "^2.0.0"), ("a", "^3.0.0")]);
    assert_eq!(pkg.dependencies.entries, vec![(text("a"), text("^3.0.0")), (text("b"), text("^2.0.0"))]);
}

#[test]
fn descriptor_defaults() {
    assert_eq!(default_version(), "0.0.0");
    assert!(default_workspaces().is_empty());
    assert!(default_deps().is_empty());
}

#[test]
fn descriptor_clone_keeps_everything() {
    let pkg = descriptor("/repo/package.json", "root", "1.0.0", &["packages/*"], &[("a", "^1.0.0")]);
    let copy = pkg.clone();
    assert_eq!(copy.path, pkg.path);
    assert_eq!(copy.name, pkg.name);
    assert_eq!(copy.version, pkg.version);
    assert_eq!(copy.workspaces_config, pkg.workspaces_config);
    assert_eq!(copy.dependencies.entries, pkg.dependencies.entries);
}

#[test]
fn project_holds_its_workspaces_by_name() {
    let list = vec![workspace("/repo/packages/a", "pkg-a"), workspace("/repo/packages/b", "pkg-b")];
    let project = Project::new(text("/repo"), root_descriptor(), list).ok().unwrap();
    assert_eq!(project.path, "/repo");
    assert_eq!(project.pkg_json.name, "root");
    assert_eq!(project.workspaces.len(), 2);
    assert_eq!(project.workspaces.get(&text("pkg-a")).unwrap().path, "/repo/packages/a");
    assert_eq!(project.workspaces.get(&text("pkg-b")).unwrap().path, "/repo/packages/b");
    assert!(project.workspaces.get(&text("pkg-c")).is_none());
}

#[test]
fn duplicate_workspace_name_is_refused() {
    let list = vec![
        workspace("/repo/packages/a", "pkg-a"),
        workspace("/repo/packages/b", "pkg-b"),
        workspace("/repo/tools/b", "pkg-b"),
        workspace("/repo/tools/a", "pkg-a"),
    ];
    let error = Project::new(text("/repo"), root_descriptor(), list).err().unwrap();
    assert_eq!(error.name, "pkg-b");
}

#[test]
fn project_without_workspaces_is_fine() {
    let project = Project::new(text("/repo"), root_descriptor(), vec![]).ok().unwrap();
    assert_eq!(project.workspaces.len(), 0);
}

#[test]
fn pass_starts_from_the_recorded_state() {
    let mut recorded = workspace("/repo/packages/a", "pkg-a");
    let mut files = NameMap::new();
    files.insert(text("/repo/packages/a/x.js"), File::new(text("/repo/packages/a/x.js"), &text("hello"), 4));
    recorded.set_files(files);
    let project = Project::new(text("/repo"), root_descriptor(), vec![recorded]).ok().unwrap();
    let state = project.state_for_pass(workspace("/repo/packages/a", "pkg-a"));
    assert_eq!(state.files.len(), 1);
    assert_eq!(state.files.get(&text("/repo/packages/a/x.js")).unwrap().modified, 4);
    let state = project.state_for_pass(workspace("/repo/packages/new", "pkg-new"));
    assert_eq!(state.name, "pkg-new");
    assert_eq!(state.files.len(), 0);
}

#[test]
fn workspaces_are_replaced_as_a_whole() {
    let list = vec![workspace("/repo/packages/a", "pkg-a"), workspace("/repo/packages/b", "pkg-b")];
    let mut project = Project::new(text("/repo"), root_descriptor(), list).ok().unwrap();
    project.replace_workspaces(vec![
        workspace("/repo/packages/c", "pkg-c"),
        workspace("/repo/packages/b2", "pkg-b"),
        workspace("/repo/packages/c2", "pkg-c"),
    ]);
    assert_eq!(project.path, "/repo");
    assert_eq!(project.workspaces.len(), 2);
    assert!(project.workspaces.get(&text("pkg-a")).is_none());
    assert_eq!(project.workspaces.get(&text("pkg-b")).unwrap().path, "/repo/packages/b2");
    assert_eq!(project.workspaces.get(&text("pkg-c")).unwrap().path, "/repo/packages/c2");
}

#[test]
fn report_collects_states_dirty_names_and_failures() {
    let mut report = PassReport::new();
    assert!(report.workspaces.is_empty() && report.updated.is_empty() && report.failed.is_empty());
    let mut files = NameMap::new();
    files.insert(text("/repo/packages/a/x.js"), File::new(text("/repo/packages/a/x.js"), &text("hello"), 4));
    report.record(workspace("/repo/packages/a", "pkg-a"), Ok((true, files)));
    report.record(workspace("/repo/packages/b", "pkg-b"), Ok((false, NameMap::new())));
    report.record(
        workspace("/repo/packages/c", "pkg-c"),
        Err(InvalidationError::Unreadable(FileIOError { path: text("/repo/packages/c/y.js") })),
    );
    report.record(workspace("/repo/packages/d", "pkg-d"), Err(InvalidationError::Unresolved));
    let names: Vec<String> = report.workspaces.iter().map(|w| w.name.clone()).collect();
    assert_eq!(names, vec![text("pkg-a"), text("pkg-b"), text("pkg-c"), text("pkg-d")]);
    assert_eq!(report.workspaces[0].files.len(), 1);
    assert_eq!(report.workspaces[1].files.len(), 0);
    assert_eq!(report.updated, vec![text("pkg-a")]);
    assert_eq!(report.failed.len(), 2);
    assert_eq!(report.failed[0].0, "pkg-c");
    assert!(matches!(&report.failed[0].1, InvalidationError::Unreadable(e) if e.path == "/repo/packages/c/y.js"));
    assert_eq!(report.failed[1].0, "pkg-d");
    assert!(matches!(report.failed[1].1, InvalidationError::Unresolved));
}

#[test]
fn manifest_pattern_is_spelled_out() {
    assert_eq!(manifest_pattern(&text("/repo"), &text("packages/*")), "/repo/packages/*/package.json");
}

#[test]
fn payload_is_read_as_a_list_of_paths() {
    assert_eq!(
        resolved_inputs(&text("[\"/repo/a.js\", \"/repo/b.js\"]")),
        Some(vec![text("/repo/a.js"), text("/repo/b.js")])
    );
    assert_eq!(resolved_inputs(&text("[]")), Some(vec![]));
    assert_eq!(resolved_inputs(&text("{\"a\": 1}")), None);
    assert_eq!(resolved_inputs(&text("[1, 2]")), None);
    assert_eq!(resolved_inputs(&text("not json")), None);
}

#[test]
fn cache_file_lies_in_the_cache_directory() {
    let cache = FileCache::new(text("/repo/.cache"));
    assert_eq!(cache.path, "/repo/.cache");
    let expected = format!("/repo/.cache{}project.json", std::path::MAIN_SEPARATOR);
    assert_eq!(cache.get_cache_file_path(&text("project.json")), expected);
}

#[test]
fn text_helpers() {
    let list = vec![text("a"), text("b"), text("a")];
    assert!(same_text(&text("a"), &text("a")));
    assert!(!same_text(&text("a"), &text("b")));
    assert_eq!(position(&list, &text("a")), Some(0));
    assert_eq!(position(&list, &text("b")), Some(1));
    assert_eq!(position(&list, &text("c")), None);
    assert!(contains_text(&list, &text("b")));
    assert!(!contains_text(&list, &text("c")));
    assert_eq!(joined(&text("/repo"), "/package.json"), "/repo/package.json");
}

#[test]
fn version_marks_are_stripped() {
    assert_eq!(clean_version(&text("^1.2.0")), "1.2.0");
    assert_eq!(clean_version(&text("~1.2.0")), "1.2.0");
    assert_eq!(clean_version(&text("1.2.0")), "1.2.0");
    assert_eq!(clean_version(&text("^~1.^2~.0")), "1.2.0");
    assert_eq!(clean_version(&text(">=1.0.0")), ">=1.0.0");
    assert_eq!(clean_version(&text("")), "");
}

#[test]
fn ranges_are_checked_by_semver_rules() {
    assert_eq!(check_range(&text("^1.0.0"), &text("1.2.0")), Some(true));
    assert_eq!(check_range(&text("^1.0.0"), &text("2.0.0")), Some(false));
    assert_eq!(check_range(&text("~1.2.0"), &text("1.2.9")), Some(true));
    assert_eq!(check_range(&text("~1.2.0"), &text("1.3.0")), Some(false));
    assert_eq!(check_range(&text("*"), &text("0.0.1")), Some(true));
    assert_eq!(check_range(&text("not a range"), &text("1.0.0")), None);
    assert_eq!(check_range(&text("^1.0.0"), &text("one")), None);
}

#[test]
fn name_map_inserts_gets_and_removes() {
    let mut map: NameMap<u32> = NameMap::new();
    assert_eq!(map.len(), 0);
    map.insert(text("a"), 1);
    map.insert(text("b"), 2);
    map.insert(text("a"), 3);
    assert_eq!(map.len(), 2);
    assert_eq!(map.find(&text("b")), Some(1));
    assert_eq!(map.get(&text("a")), Some(&3));
    assert_eq!(map.get(&text("c")), None);
    assert!(map.contains_key(&text("b")));
    assert_eq!(map.remove(&text("a")), Some(3));
    assert_eq!(map.remove(&text("a")), None);
    assert_eq!(map.len(), 1);
    assert_eq!(map.entries, vec![(text("b"), 2)]);
}
