use workspace_graph::dependency_graph::DepGraph;
use workspace_graph::file::File;
use workspace_graph::file::FileProbe;
use workspace_graph::name_map::NameMap;
use workspace_graph::package_json::PackageJson;
use workspace_graph::package_json::PackageJsonData;
use workspace_graph::workspace::Workspace;

const HELLO: &str = "aaf4c61ddcc5e8a2dabede0f3b482cd9aea9434d";
const EMPTY: &str = "da39a3ee5e6b4b0d3255bfef95601890afd80709";

fn text(s: &str) -> String {
    s.to_string()
}

fn workspace(name: &str, version: &str, deps: &[(&str, &str)]) -> Workspace {
    let data = PackageJsonData {
        name: text(name),
        version: text(version),
        workspaces: vec![],
        dependencies: deps.iter().map(|(n, r)| (n.to_string(), r.to_string())).collect(),
    };
    let manifest = format!("/repo/{}/package.json", name);
    Workspace::new(format!("/repo/{}", name), PackageJson::new(&manifest, data))
}

fn probe(path: &str, modified: u128, content: Option<&str>) -> FileProbe {
    FileProbe { path: text(path), modified: Some(modified), content: content.map(text) }
}

fn paths(files: &NameMap<File>) -> Vec<String> {
    files.entries.iter().map(|e| e.0.clone()).collect()
}

#[test]
fn fingerprint_is_the_sha1_of_the_content_in_hex() {
    let file = File::new(text("/repo/a.txt"), &text("hello"), 7);
    assert_eq!(file.path, "/repo/a.txt");
    assert_eq!(file.hash, HELLO);
    assert_eq!(file.modified, 7);
    assert_eq!(File::new(text("x"), &text(""), 0).hash, EMPTY);
}

#[test]
fn fingerprint_clone_keeps_every_field() {
    let file = File::new(text("/repo/a.txt"), &text("hello"), 7);
    let copy = file.clone();
    assert_eq!(copy.path, file.path);
    assert_eq!(copy.hash, file.hash);
    assert_eq!(copy.modified, file.modified);
}

#[test]
fn unchanged_time_keeps_the_fingerprint_without_content() {
    let file = File::new(text("/repo/a.txt"), &text("hello"), 7);
    assert!(!file.needs_content(7));
    let (dirty, next) = file.invalidate(&probe("/repo/a.txt", 7, None)).ok().unwrap();
    assert!(!dirty);
    assert_eq!(next.hash, HELLO);
    assert_eq!(next.modified, 7);
    let (dirty, next) = file.invalidate(&probe("/repo/a.txt", 7, Some("other"))).ok().unwrap();
    assert!(!dirty);
    assert_eq!(next.hash, HELLO);
}

#[test]
fn changed_time_with_the_same_content_is_not_dirty() {
    let file = File::new(text("/repo/a.txt"), &text("hello"), 7);
    assert!(file.needs_content(8));
    let (dirty, next) = file.invalidate(&probe("/repo/a.txt", 8, Some("hello"))).ok().unwrap();
    assert!(!dirty);
    assert_eq!(next.hash, HELLO);
    assert_eq!(next.modified, 8);
}

#[test]
fn changed_time_with_new_content_is_dirty() {
    let file = File::new(text("/repo/a.txt"), &text("hello"), 7);
    let (dirty, next) = file.invalidate(&probe("/repo/a.txt", 8, Some(""))).ok().unwrap();
    assert!(dirty);
    assert_eq!(next.path, "/repo/a.txt");
    assert_eq!(next.hash, EMPTY);
    assert_eq!(next.modified, 8);
}

#[test]
fn a_probe_that_lacks_what_is_needed_is_an_error() {
    let file = File::new(text("/repo/a.txt"), &text("hello"), 7);
    let error = file.invalidate(&probe("/repo/a.txt", 8, None)).err().unwrap();
    assert_eq!(error.path, "/repo/a.txt");
    let unseen = FileProbe { path: text("/repo/a.txt"), modified: None, content: Some(text("hello")) };
    assert_eq!(file.invalidate(&unseen).err().unwrap().path, "/repo/a.txt");
    assert_eq!(File::fresh(&text("/repo/b.txt"), &unseen).err().unwrap().path, "/repo/b.txt");
    let no_content = probe("/repo/b.txt", 1, None);
    assert_eq!(File::fresh(&text("/repo/b.txt"), &no_content).err().unwrap().path, "/repo/b.txt");
    let fresh = File::fresh(&text("/repo/b.txt"), &probe("/repo/b.txt", 3, Some("hello"))).ok().unwrap();
    assert_eq!(fresh.path, "/repo/b.txt");
    assert_eq!(fresh.hash, HELLO);
    assert_eq!(fresh.modified, 3);
}

#[test]
fn new_workspace_tracks_nothing() {
    let ws = workspace("pkg-a", "1.2.0", &[("x", "^1.0.0")]);
    assert_eq!(ws.name, "pkg-a");
    assert_eq!(ws.path, "/repo/pkg-a");
    assert_eq!(ws.package_json.path, "/repo/pkg-a/package.json");
    assert_eq!(ws.files.len(), 0);
    assert_eq!(ws.manifest_path(), "/repo/pkg-a/package.json");
    assert!(ws.needs_content(&text("/repo/pkg-a/src/a.js"), 5));
}

#[test]
fn first_pass_of_a_new_workspace_is_dirty() {
    let ws = workspace("pkg-a", "1.2.0", &[]);
    let probes = vec![probe("/repo/pkg-a/package.json", 1, Some("{}"))];
    let (dirty, files) = ws.invalidate(vec![], &probes).ok().unwrap();
    assert!(dirty);
    assert_eq!(paths(&files), vec![text("/repo/pkg-a/package.json")]);
}

#[test]
fn pass_tracks_the_inputs_and_the_descriptor() {
    let ws = workspace("pkg-a", "1.2.0", &[]);
    let probes = vec![
        probe("/repo/pkg-a/package.json", 1, Some("{}")),
        probe("/repo/pkg-a/src/a.js", 2, Some("hello")),
        probe("/repo/pkg-a/src/unused.js", 2, Some("hello")),
    ];
    let (dirty, files) = ws.invalidate(vec![text("/repo/pkg-a/src/a.js")], &probes).ok().unwrap();
    assert!(dirty);
    assert_eq!(paths(&files), vec![text("/repo/pkg-a/src/a.js"), text("/repo/pkg-a/package.json")]);
    let kept = files.get(&text("/repo/pkg-a/src/a.js")).unwrap();
    assert_eq!(kept.path, "/repo/pkg-a/src/a.js");
    assert_eq!(kept.hash, HELLO);
    assert_eq!(kept.modified, 2);
}

#[test]
fn second_pass_without_changes_is_clean() {
    let mut ws = workspace("pkg-a", "1.2.0", &[]);
    let inputs = vec![text("/repo/pkg-a/src/a.js"), text("/repo/pkg-a/src/b.js")];
    let first = vec![
        probe("/repo/pkg-a/package.json", 1, Some("{}")),
        probe("/repo/pkg-a/src/a.js", 2, Some("hello")),
        probe("/repo/pkg-a/src/b.js", 3, Some("")),
    ];
    let (dirty, files) = ws.invalidate(inputs.clone(), &first).ok().unwrap();
    assert!(dirty);
    ws.set_files(files);
    assert!(!ws.needs_content(&text("/repo/pkg-a/src/a.js"), 2));
    assert!(ws.needs_content(&text("/repo/pkg-a/src/a.js"), 9));
    let second = vec![
        probe("/repo/pkg-a/package.json", 1, None),
        probe("/repo/pkg-a/src/a.js", 2, None),
        probe("/repo/pkg-a/src/b.js", 3, None),
    ];
    let (dirty, files) = ws.invalidate(inputs.clone(), &second).ok().unwrap();
    assert!(!dirty);
    assert_eq!(files.len(), 3);
    assert_eq!(files.get(&text("/repo/pkg-a/src/a.js")).unwrap().hash, HELLO);
    assert_eq!(files.get(&text("/repo/pkg-a/src/b.js")).unwrap().hash, EMPTY);
    ws.set_files(files);
    let (dirty, _) = ws.invalidate(inputs, &second).ok().unwrap();
    assert!(!dirty);
}

#[test]
fn touched_file_with_the_same_content_leaves_the_workspace_clean() {
    let mut ws = workspace("pkg-a", "1.2.0", &[]);
    let inputs = vec![text("/repo/pkg-a/src/a.js")];
    let first = vec![
        probe("/repo/pkg-a/package.json", 1, Some("{}")),
        probe("/repo/pkg-a/src/a.js", 2, Some("hello")),
    ];
    let (_, files) = ws.invalidate(inputs.clone(), &first).ok().unwrap();
    ws.set_files(files);
    let touched = vec![
        probe("/repo/pkg-a/package.json", 1, None),
        probe("/repo/pkg-a/src/a.js", 50, Some("hello")),
    ];
    let (dirty, files) = ws.invalidate(inputs.clone(), &touched).ok().unwrap();
    assert!(!dirty);
    assert_eq!(files.get(&text("/repo/pkg-a/src/a.js")).unwrap().modified, 50);
    let edited = vec![
        probe("/repo/pkg-a/package.json", 1, None),
        probe("/repo/pkg-a/src/a.js", 51, Some("hello!")),
    ];
    let (dirty, _) = ws.invalidate(inputs, &edited).ok().unwrap();
    assert!(dirty);
}

#[test]
fn a_file_that_is_no_longer_an_input_is_dropped() {
    let mut ws = workspace("pkg-a", "1.2.0", &[]);
    let first = vec![
        probe("/repo/pkg-a/package.json", 1, Some("{}")),
        probe("/repo/pkg-a/src/a.js", 2, Some("hello")),
        probe("/repo/pkg-a/src/b.js", 3, Some("")),
    ];
    let both = vec![text("/repo/pkg-a/src/a.js"), text("/repo/pkg-a/src/b.js")];
    let (_, files) = ws.invalidate(both, &first).ok().unwrap();
    ws.set_files(files);
    let (dirty, files) = ws.invalidate(vec![text("/repo/pkg-a/src/b.js")], &first).ok().unwrap();
    assert!(!dirty);
    assert_eq!(paths(&files), vec![text("/repo/pkg-a/src/b.js"), text("/repo/pkg-a/package.json")]);
    assert!(!files.contains_key(&text("/repo/pkg-a/src/a.js")));
}

#[test]
fn an_input_named_twice_is_tracked_once() {
    let ws = workspace("pkg-a", "1.2.0", &[]);
    let probes = vec![
        probe("/repo/pkg-a/package.json", 1, Some("{}")),
        probe("/repo/pkg-a/src/a.js", 2, Some("hello")),
    ];
    let twice = vec![text("/repo/pkg-a/src/a.js"), text("/repo/pkg-a/src/a.js")];
    let (dirty, files) = ws.invalidate(twice, &probes).ok().unwrap();
    assert!(dirty);
    assert_eq!(files.len(), 2);
}

#[test]
fn the_first_probe_of_a_path_counts() {
    let ws = workspace("pkg-a", "1.2.0", &[]);
    let probes = vec![
        probe("/repo/pkg-a/package.json", 1, Some("hello")),
        probe("/repo/pkg-a/package.json", 2, Some("")),
    ];
    let (_, files) = ws.invalidate(vec![], &probes).ok().unwrap();
    let manifest = files.get(&text("/repo/pkg-a/package.json")).unwrap();
    assert_eq!(manifest.hash, HELLO);
    assert_eq!(manifest.modified, 1);
}

#[test]
fn pass_fails_on_the_first_input_that_cannot_be_checked() {
    let ws = workspace("pkg-a", "1.2.0", &[]);
    let probes = vec![
        probe("/repo/pkg-a/package.json", 1, Some("{}")),
        probe("/repo/pkg-a/src/a.js", 2, Some("hello")),
        probe("/repo/pkg-a/src/c.js", 2, None),
    ];
    let inputs = vec![
        text("/repo/pkg-a/src/a.js"),
        text("/repo/pkg-a/src/missing.js"),
        text("/repo/pkg-a/src/c.js"),
    ];
    let error = ws.invalidate(inputs, &probes).err().unwrap();
    assert_eq!(error.path, "/repo/pkg-a/src/missing.js");
    let error = ws.invalidate(vec![text("/repo/pkg-a/src/c.js")], &probes).err().unwrap();
    assert_eq!(error.path, "/repo/pkg-a/src/c.js");
    let error = ws.invalidate(vec![], &vec![]).err().unwrap();
    assert_eq!(error.path, "/repo/pkg-a/package.json");
}

#[test]
fn check_input_tells_new_from_known() {
    let mut ws = workspace("pkg-a", "1.2.0", &[]);
    let probes = vec![probe("/repo/pkg-a/src/a.js", 2, Some("hello"))];
    let (dirty, file) = ws.check_input(&text("/repo/pkg-a/src/a.js"), &probes).unwrap();
    assert!(dirty);
    assert_eq!(file.hash, HELLO);
    assert!(ws.check_input(&text("/repo/pkg-a/src/b.js"), &probes).is_none());
    let mut files = NameMap::new();
    files.insert(text("/repo/pkg-a/src/a.js"), file);
    ws.set_files(files);
    let (dirty, file) = ws.check_input(&text("/repo/pkg-a/src/a.js"), &probes).unwrap();
    assert!(!dirty);
    assert_eq!(file.modified, 2);
}

#[test]
fn workspace_clone_keeps_everything() {
    let mut ws = workspace("pkg-a", "1.2.0", &[("x", "^1.0.0")]);
    let probes = vec![probe("/repo/pkg-a/package.json", 1, Some("{}"))];
    let (_, files) = ws.invalidate(vec![], &probes).ok().unwrap();
    ws.set_files(files);
    let copy = ws.clone();
    assert_eq!(copy.name, ws.name);
    assert_eq!(copy.path, ws.path);
    assert_eq!(paths(&copy.files), paths(&ws.files));
    assert_eq!(copy.package_json.version, "1.2.0");
    assert_eq!(copy.package_json.dependencies.entries, vec![(text("x"), text("^1.0.0"))]);
}

#[test]
fn a_change_in_one_package_reaches_those_that_depend_on_it() {
    let mut pkg_a = workspace("pkg-a", "1.2.0", &[]);
    let mut pkg_b = workspace("pkg-b", "0.3.0", &[("pkg-a", "^1.0.0")]);
    let graph = DepGraph::new(vec![pkg_a.clone(), pkg_b.clone()]);
    assert!(graph.validate_versions());

    let before = vec![
        probe("/repo/pkg-a/package.json", 1, Some("{\"name\":\"pkg-a\"}")),
        probe("/repo/pkg-a/src/index.js", 2, Some("hello")),
        probe("/repo/pkg-b/package.json", 3, Some("{\"name\":\"pkg-b\"}")),
        probe("/repo/pkg-b/src/index.js", 4, Some("")),
    ];
    let (_, files) = pkg_a.invalidate(vec![text("/repo/pkg-a/src/index.js")], &before).ok().unwrap();
    pkg_a.set_files(files);
    let (_, files) = pkg_b.invalidate(vec![text("/repo/pkg-b/src/index.js")], &before).ok().unwrap();
    pkg_b.set_files(files);

    let after = vec![
        probe("/repo/pkg-a/package.json", 1, None),
        probe("/repo/pkg-a/src/index.js", 9, Some("hello, world")),
        probe("/repo/pkg-b/package.json", 3, None),
        probe("/repo/pkg-b/src/index.js", 4, None),
    ];
    let mut dirty_names = vec![];
    let (dirty, _) = pkg_a.invalidate(vec![text("/repo/pkg-a/src/index.js")], &after).ok().unwrap();
    if dirty {
        dirty_names.push(pkg_a.name.clone());
    }
    let (dirty, _) = pkg_b.invalidate(vec![text("/repo/pkg-b/src/index.js")], &after).ok().unwrap();
    if dirty {
        dirty_names.push(pkg_b.name.clone());
    }
    assert_eq!(dirty_names, vec![text("pkg-a")]);
    let affected = graph.get_affected(dirty_names).ok().unwrap();
    assert_eq!(affected, vec![text("pkg-a"), text("pkg-b")]);
}

#[test]
fn fingerprints_are_equal_where_path_hash_and_time_agree() {
    let file = File::new(text("/repo/a.txt"), &text("hello"), 7);
    assert!(file == File::new(text("/repo/a.txt"), &text("hello"), 7));
    assert!(file == file.clone());
    assert!(file != File::new(text("/repo/a.txt"), &text("hello"), 8));
    assert!(file != File::new(text("/repo/a.txt"), &text("hello!"), 7));
    assert!(file != File::new(text("/repo/b.txt"), &text("hello"), 7));
}
