use workspace_graph::dep_map::DepMap;
use workspace_graph::dependency_graph::DepGraph;
use workspace_graph::package_json::PackageJson;
use workspace_graph::package_json::PackageJsonData;
use workspace_graph::workspace::Workspace;

fn text(s: &str) -> String {
    s.to_string()
}

fn names(list: &[&str]) -> Vec<String> {
    list.iter().map(|s| s.to_string()).collect()
}

fn workspace(name: &str, version: &str, deps: &[(&str, &str)]) -> Workspace {
    let data = PackageJsonData {
        name: text(name),
        version: text(version),
        workspaces: vec![],
        dependencies: deps.iter().map(|(n, r)| (n.to_string(), r.to_string())).collect(),
    };
    let manifest = format!("/repo/packages/{}/package.json", name);
    Workspace::new(format!("/repo/packages/{}", name), PackageJson::new(&manifest, data))
}

fn place(order: &[String], name: &str) -> usize {
    order.iter().position(|n| n == name).unwrap()
}

/// c depends on b, b depends on a.
fn chain() -> DepGraph {
    DepGraph::new(vec![
        workspace("c", "1.0.0", &[("b", "^1.0.0")]),
        workspace("a", "1.0.0", &[]),
        workspace("b", "1.0.0", &[("a", "^1.0.0")]),
    ])
}

#[test]
fn affected_by_the_root_of_a_chain_is_the_chain_in_order() {
    let order = chain().get_affected(names(&["a"])).ok().unwrap();
    assert_eq!(order, names(&["a", "b", "c"]));
}

#[test]
fn affected_by_the_middle_of_a_chain_leaves_the_root_out() {
    let order = chain().get_affected(names(&["b"])).ok().unwrap();
    assert_eq!(order, names(&["b", "c"]));
}

#[test]
fn a_changed_name_is_always_affected() {
    let order = chain().get_affected(names(&["c"])).ok().unwrap();
    assert_eq!(order, names(&["c"]));
    let order = chain().get_affected(names(&["stranger"])).ok().unwrap();
    assert_eq!(order, names(&["stranger"]));
}

#[test]
fn nothing_changed_affects_nothing() {
    let order = chain().get_affected(vec![]).ok().unwrap();
    assert!(order.is_empty());
}

#[test]
fn a_seed_named_twice_is_listed_once() {
    let order = chain().get_affected(names(&["b", "b", "a"])).ok().unwrap();
    assert_eq!(order, names(&["a", "b", "c"]));
}

#[test]
fn a_dependency_outside_the_set_reaches_its_dependents() {
    let graph = DepGraph::new(vec![
        workspace("app", "1.0.0", &[("lodash", "^4.0.0"), ("lib", "^1.0.0")]),
        workspace("lib", "1.0.0", &[("lodash", "^4.0.0")]),
    ]);
    let order = graph.get_affected(names(&["lodash"])).ok().unwrap();
    assert_eq!(order, names(&["lodash", "lib", "app"]));
}

#[test]
fn diamond_is_ordered_with_every_name_once() {
    let graph = DepGraph::new(vec![
        workspace("top", "1.0.0", &[("left", "^1.0.0"), ("right", "^1.0.0")]),
        workspace("left", "1.0.0", &[("base", "^1.0.0")]),
        workspace("right", "1.0.0", &[("base", "^1.0.0")]),
        workspace("base", "1.0.0", &[]),
    ]);
    let all = names(&["top", "left", "right", "base"]);
    let order = graph.top_sort(&all).ok().unwrap();
    assert_eq!(order.len(), 4);
    for name in &all {
        assert_eq!(order.iter().filter(|n| *n == name).count(), 1);
    }
    assert!(place(&order, "base") < place(&order, "left"));
    assert!(place(&order, "base") < place(&order, "right"));
    assert!(place(&order, "left") < place(&order, "top"));
    assert!(place(&order, "right") < place(&order, "top"));
    assert_eq!(order, names(&["base", "left", "right", "top"]));
    let affected = graph.get_affected(names(&["base"])).ok().unwrap();
    assert_eq!(affected.len(), 4);
    assert_eq!(affected[0], "base");
    assert_eq!(affected[3], "top");
}

#[test]
fn order_is_restricted_to_the_subset() {
    let order = chain().top_sort(&names(&["c", "a"])).ok().unwrap();
    assert_eq!(order, names(&["c", "a"]));
    let order = chain().top_sort(&names(&["c", "b"])).ok().unwrap();
    assert_eq!(order, names(&["b", "c"]));
}

#[test]
fn mutual_dependency_is_reported_as_a_cycle() {
    let graph = DepGraph::new(vec![
        workspace("a", "1.0.0", &[("b", "^1.0.0")]),
        workspace("b", "1.0.0", &[("a", "^1.0.0")]),
    ]);
    let error = graph.top_sort(&names(&["a", "b"])).err().unwrap();
    assert_eq!(error.path, names(&["a", "b", "a"]));
    let side_by_side = error
        .path
        .windows(2)
        .any(|w| (w[0] == "a" && w[1] == "b") || (w[0] == "b" && w[1] == "a"));
    assert!(side_by_side);
    assert!(!graph.validate_cycles());
    assert!(graph.get_affected(names(&["a"])).is_err());
}

#[test]
fn cycle_is_reported_from_the_name_met_twice() {
    let graph = DepGraph::new(vec![
        workspace("entry", "1.0.0", &[("x", "^1.0.0")]),
        workspace("x", "1.0.0", &[("y", "^1.0.0")]),
        workspace("y", "1.0.0", &[("z", "^1.0.0")]),
        workspace("z", "1.0.0", &[("x", "^1.0.0")]),
    ]);
    let error = graph.top_sort(&names(&["entry", "x", "y", "z"])).err().unwrap();
    assert_eq!(error.path, names(&["x", "y", "z", "x"]));
}

#[test]
fn a_name_that_depends_on_itself_is_a_cycle() {
    let graph = DepGraph::new(vec![workspace("solo", "1.0.0", &[("solo", "^1.0.0")])]);
    let error = graph.top_sort(&names(&["solo"])).err().unwrap();
    assert_eq!(error.path, names(&["solo", "solo"]));
}

#[test]
fn a_cycle_outside_the_subset_is_not_seen() {
    let graph = DepGraph::new(vec![
        workspace("a", "1.0.0", &[("b", "^1.0.0")]),
        workspace("b", "1.0.0", &[("a", "^1.0.0")]),
        workspace("c", "1.0.0", &[]),
    ]);
    assert_eq!(graph.top_sort(&names(&["a", "c"])).ok().unwrap(), names(&["a", "c"]));
}

#[test]
fn compatible_ranges_validate() {
    let graph = DepGraph::new(vec![
        workspace("pkg-a", "1.2.0", &[]),
        workspace("pkg-b", "0.1.0", &[("pkg-a", "^1.0.0")]),
    ]);
    assert!(graph.validate_versions());
    assert!(graph.validate_cycles());
    assert!(graph.validate());
    assert_eq!(graph.try_validate_versions(), Some(true));
    assert_eq!(graph.try_validate(), Some(true));
}

#[test]
fn a_range_that_refuses_the_workspace_version_fails() {
    let graph = DepGraph::new(vec![
        workspace("pkg-a", "1.2.0", &[]),
        workspace("pkg-b", "0.1.0", &[("pkg-a", "^1.0.0")]),
        workspace("pkg-c", "0.1.0", &[("pkg-a", "^2.0.0")]),
    ]);
    assert!(!graph.validate_versions());
    assert!(!graph.validate());
    assert_eq!(graph.try_validate_versions(), Some(false));
    assert_eq!(graph.try_validate(), Some(false));
}

#[test]
fn the_first_range_of_an_outside_dependency_is_the_baseline() {
    let wide_first = DepGraph::new(vec![
        workspace("one", "1.0.0", &[("lodash", "^1.2.0")]),
        workspace("two", "1.0.0", &[("lodash", "^1.0.0")]),
    ]);
    assert!(wide_first.validate_versions());
    let narrow_first = DepGraph::new(vec![
        workspace("two", "1.0.0", &[("lodash", "^1.0.0")]),
        workspace("one", "1.0.0", &[("lodash", "^1.2.0")]),
    ]);
    assert!(!narrow_first.validate_versions());
    let tilde = DepGraph::new(vec![
        workspace("one", "1.0.0", &[("lodash", "~1.2.3")]),
        workspace("two", "1.0.0", &[("lodash", "~1.2.0")]),
        workspace("three", "1.0.0", &[("lodash", "~1.3.0")]),
    ]);
    assert!(!tilde.validate_versions());
}

#[test]
fn a_text_that_is_no_version_gives_no_verdict() {
    let bad_range = DepGraph::new(vec![
        workspace("pkg-a", "1.2.0", &[]),
        workspace("pkg-b", "0.1.0", &[("pkg-a", "not a range")]),
    ]);
    assert_eq!(bad_range.try_validate_versions(), None);
    assert_eq!(bad_range.try_validate(), None);
    let bad_version = DepGraph::new(vec![
        workspace("pkg-a", "latest", &[]),
        workspace("pkg-b", "0.1.0", &[("pkg-a", "^1.0.0")]),
    ]);
    assert_eq!(bad_version.try_validate_versions(), None);
    let never_read = DepGraph::new(vec![workspace("pkg-a", "latest", &[])]);
    assert_eq!(never_read.try_validate_versions(), Some(true));
}

#[test]
fn versions_may_agree_where_a_cycle_fails_validation() {
    let graph = DepGraph::new(vec![
        workspace("a", "1.0.0", &[("b", "^1.0.0")]),
        workspace("b", "1.0.0", &[("a", "^1.0.0")]),
    ]);
    assert!(graph.validate_versions());
    assert!(!graph.validate());
    assert_eq!(graph.try_validate(), Some(false));
}

#[test]
fn direct_graph_keeps_versions_and_declared_edges() {
    let map = DepGraph::build_direct_dep_graph(&vec![
        workspace("app", "2.0.0", &[("lib", "^1.0.0"), ("lodash", "~4.17.0")]),
        workspace("lib", "1.1.0", &[]),
    ]);
    assert_eq!(map.nodes.len(), 2);
    assert_eq!(map.nodes[0].name, "app");
    assert_eq!(map.nodes[0].version, "2.0.0");
    assert_eq!(
        map.nodes[0].edges,
        vec![(text("^1.0.0"), text("lib")), (text("~4.17.0"), text("lodash"))]
    );
    assert_eq!(map.nodes[1].name, "lib");
    assert_eq!(map.nodes[1].version, "1.1.0");
    assert!(map.nodes[1].edges.is_empty());
}

#[test]
fn direct_graph_keeps_the_later_of_two_declarations() {
    let map = DepGraph::build_direct_dep_graph(&vec![
        workspace("lib", "1.0.0", &[("x", "^1.0.0")]),
        workspace("other", "1.0.0", &[]),
        workspace("lib", "2.0.0", &[]),
    ]);
    assert_eq!(map.nodes.len(), 2);
    assert_eq!(map.nodes[0].name, "lib");
    assert_eq!(map.nodes[0].version, "2.0.0");
    assert!(map.nodes[0].edges.is_empty());
    assert_eq!(map.nodes[1].name, "other");
}

#[test]
fn inverse_graph_lists_the_dependents_of_each_dependency() {
    let map = DepGraph::build_inversed_dep_graph(&vec![
        workspace("app", "2.0.0", &[("lib", "^1.0.0")]),
        workspace("tool", "3.0.0", &[("lib", "^1.1.0")]),
        workspace("lib", "1.1.0", &[]),
    ]);
    assert_eq!(map.nodes.len(), 1);
    assert_eq!(map.nodes[0].name, "lib");
    assert_eq!(map.nodes[0].version, "^1.1.0");
    assert_eq!(
        map.nodes[0].edges,
        vec![(text("2.0.0"), text("app")), (text("3.0.0"), text("tool"))]
    );
}

#[test]
fn dep_map_finds_reaches_and_orders() {
    let map: DepMap = DepGraph::build_direct_dep_graph(&vec![
        workspace("a", "1.0.0", &[("b", "^1.0.0")]),
        workspace("b", "1.0.0", &[("c", "^1.0.0")]),
    ]);
    assert_eq!(map.find(&text("b")), Some(1));
    assert_eq!(map.find(&text("c")), None);
    assert_eq!(map.reach(&names(&["a"])), names(&["a", "b", "c"]));
    assert_eq!(map.reach(&names(&["c"])), names(&["c"]));
    assert_eq!(
        map.topological_order(&names(&["a", "b", "c"])).ok().unwrap(),
        names(&["c", "b", "a"])
    );
    assert_eq!(map.check_versions(), Some(true));
}

#[test]
fn the_refused_range_is_reported_with_the_settled_version() {
    let graph = DepGraph::new(vec![
        workspace("pkg-a", "^1.2.0", &[]),
        workspace("pkg-b", "0.1.0", &[("pkg-a", "^1.0.0")]),
        workspace("pkg-c", "0.1.0", &[("lodash", "~4.1.0"), ("pkg-a", "^2.0.0")]),
        workspace("pkg-d", "0.1.0", &[("pkg-a", "^3.0.0")]),
    ]);
    let conflict = graph.version_conflict().unwrap();
    assert_eq!(conflict.workspace, "pkg-c");
    assert_eq!(conflict.dependency, "pkg-a");
    assert_eq!(conflict.range, "^2.0.0");
    assert_eq!(conflict.version, "1.2.0");
    let outside = DepGraph::new(vec![
        workspace("one", "1.0.0", &[("lodash", "~4.1.0")]),
        workspace("two", "1.0.0", &[("lodash", "^5.0.0")]),
    ]);
    let conflict = outside.version_conflict().unwrap();
    assert_eq!(conflict.workspace, "two");
    assert_eq!(conflict.dependency, "lodash");
    assert_eq!(conflict.range, "^5.0.0");
    assert_eq!(conflict.version, "4.1.0");
}

#[test]
fn no_conflict_is_reported_where_versions_agree_or_cannot_be_read() {
    let agree = DepGraph::new(vec![
        workspace("pkg-a", "1.2.0", &[]),
        workspace("pkg-b", "0.1.0", &[("pkg-a", "^1.0.0")]),
    ]);
    assert!(agree.version_conflict().is_none());
    let unreadable = DepGraph::new(vec![
        workspace("pkg-a", "1.2.0", &[]),
        workspace("pkg-b", "0.1.0", &[("pkg-a", "one point two")]),
    ]);
    assert!(unreadable.version_conflict().is_none());
}
