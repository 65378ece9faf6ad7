//! The dependency graph between workspaces: who depends on whom and, the
//! other way round, who is depended on by whom.

use crate::affected::lemma_seed_reached;
use crate::affected::reach_of;
use crate::affected::reached;
use crate::affected::reached_from;
use crate::dep_map::has_node;
use crate::dep_map::lemma_first_node;
use crate::dep_map::lemma_with_dependent_distinct;
use crate::dep_map::lemma_with_node_distinct;
use crate::dep_map::linked;
use crate::dep_map::names_distinct;
use crate::dep_map::node_place;
use crate::dep_map::with_dependent;
use crate::dep_map::with_node;
use crate::dep_map::DepMap;
use crate::dep_map::DepNode;
use crate::dep_map::NodeModel;
use crate::order::cyclic;
use crate::order::dependency_order;
use crate::order::is_cycle_in;
use crate::order::is_order_of;
use crate::order::is_walk;
use crate::order::is_simple;
use crate::order::CycleError;
use crate::text::lemma_texts_push;
use crate::text::texts;
use crate::text::Text;
use crate::version_check::is_conflict_at;
use crate::version_check::version_verdict;
use crate::version_check::VersionConflict;
use crate::workspace::Workspace;
use vstd::pervasive::unreached;
use vstd::prelude::*;

verus! {

/// `g` with, for each of the first `upto` edges of `node`, the edge back from
/// its far end to `node`.
pub open spec fn with_dependents(g: Seq<NodeModel>, node: NodeModel, upto: int) -> Seq<NodeModel>
    decreases upto,
{
    if upto <= 0 {
        g
    } else {
        with_dependent(
            with_dependents(g, node, upto - 1),
            node.edges[upto - 1].1,
            node.edges[upto - 1].0,
            (node.version, node.name),
        )
    }
}

/// The direct graph of the first `upto` declared nodes: each name with its
/// version and the dependencies it declares. A name declared twice keeps its
/// later declaration.
pub open spec fn direct_of(declared: Seq<NodeModel>, upto: int) -> Seq<NodeModel>
    decreases upto,
{
    if upto <= 0 {
        Seq::empty()
    } else {
        with_node(direct_of(declared, upto - 1), declared[upto - 1])
    }
}

/// The inverse graph of the first `upto` declared nodes: each dependency
/// with those that declare it.
pub open spec fn inversed_of(declared: Seq<NodeModel>, upto: int) -> Seq<NodeModel>
    decreases upto,
{
    if upto <= 0 {
        Seq::empty()
    } else {
        with_dependents(
            inversed_of(declared, upto - 1),
            declared[upto - 1],
            declared[upto - 1].edges.len() as int,
        )
    }
}

/// What a workspace declares: its name, its version and, for each of its
/// dependencies, the range and the name.
pub open spec fn declared_node(workspace: Workspace) -> NodeModel {
    NodeModel {
        name: workspace.name@,
        version: workspace.package_json.version@,
        edges: Seq::new(
            workspace.package_json.dependencies.entries@.len(),
            |k: int|
                (
                    workspace.package_json.dependencies.entries@[k].1@,
                    workspace.package_json.dependencies.entries@[k].0@,
                ),
        ),
    }
}

/// What a list of workspaces declares.
pub open spec fn declared_nodes(workspaces: Seq<Workspace>) -> Seq<NodeModel> {
    Seq::new(workspaces.len(), |i: int| declared_node(workspaces[i]))
}

/// The names of the nodes of `g`, in order.
pub open spec fn node_names(g: Seq<NodeModel>) -> Seq<Text> {
    Seq::new(g.len(), |i: int| g[i].name)
}

/// The direct graph holds no name twice.
pub proof fn lemma_direct_distinct(declared: Seq<NodeModel>, upto: int)
    ensures
        names_distinct(direct_of(declared, upto)),
    decreases upto,
{
    if upto > 0 {
        lemma_direct_distinct(declared, upto - 1);
        lemma_with_node_distinct(direct_of(declared, upto - 1), declared[upto - 1]);
    }
}

/// Back edges keep the names distinct.
pub proof fn lemma_with_dependents_distinct(g: Seq<NodeModel>, node: NodeModel, upto: int)
    requires
        names_distinct(g),
    ensures
        names_distinct(with_dependents(g, node, upto)),
    decreases upto,
{
    if upto > 0 {
        lemma_with_dependents_distinct(g, node, upto - 1);
        lemma_with_dependent_distinct(
            with_dependents(g, node, upto - 1),
            node.edges[upto - 1].1,
            node.edges[upto - 1].0,
            (node.version, node.name),
        );
    }
}

/// The inverse graph holds no name twice.
pub proof fn lemma_inversed_distinct(declared: Seq<NodeModel>, upto: int)
    ensures
        names_distinct(inversed_of(declared, upto)),
    decreases upto,
{
    if upto > 0 {
        lemma_inversed_distinct(declared, upto - 1);
        lemma_with_dependents_distinct(
            inversed_of(declared, upto - 1),
            declared[upto - 1],
            declared[upto - 1].edges.len() as int,
        );
    }
}

/// Whether one of the first `upto` declared nodes is called `from` and
/// declares `to`.
pub open spec fn declares(declared: Seq<NodeModel>, upto: int, from: Text, to: Text) -> bool {
    exists|i: int, k: int|
        0 <= i < upto && 0 <= k < declared[i].edges.len() && declared[i].name == from && (
        #[trigger] declared[i].edges[k]).1 == to
}

/// One more back edge is one more link, and nothing else changes.
proof fn lemma_with_dependent_links(
    g: Seq<NodeModel>,
    name: Text,
    range: Text,
    dependent: (Text, Text),
    a: Text,
    b: Text,
)
    ensures
        linked(with_dependent(g, name, range, dependent), a, b) <==> linked(g, a, b) || (a == name
            && b == dependent.1),
{
    let after = with_dependent(g, name, range, dependent);
    if has_node(g, name) {
        let at = node_place(g, name);
        lemma_first_node(g, name);
        if linked(g, a, b) {
            let (i, k) = choose|i: int, k: int|
                0 <= i < g.len() && 0 <= k < g[i].edges.len() && g[i].name == a && (
                #[trigger] g[i].edges[k]).1 == b;
            assert(after[i].edges[k].1 == b);
        }
        if a == name && b == dependent.1 {
            assert(after[at].edges[g[at].edges.len() as int].1 == b);
        }
        if linked(after, a, b) {
            let (i, k) = choose|i: int, k: int|
                0 <= i < after.len() && 0 <= k < after[i].edges.len() && after[i].name == a && (
                #[trigger] after[i].edges[k]).1 == b;
            if i != at || k < g[at].edges.len() {
                assert(g[i].edges[k].1 == b);
            }
        }
    } else {
        if linked(g, a, b) {
            let (i, k) = choose|i: int, k: int|
                0 <= i < g.len() && 0 <= k < g[i].edges.len() && g[i].name == a && (
                #[trigger] g[i].edges[k]).1 == b;
            assert(after[i].edges[k].1 == b);
        }
        if a == name && b == dependent.1 {
            assert(after[g.len() as int].edges[0].1 == b);
        }
        if linked(after, a, b) {
            let (i, k) = choose|i: int, k: int|
                0 <= i < after.len() && 0 <= k < after[i].edges.len() && after[i].name == a && (
                #[trigger] after[i].edges[k]).1 == b;
            if i < g.len() {
                assert(g[i].edges[k].1 == b);
            }
        }
    }
}

/// The back edges of the first `upto` edges of `node` are links from their
/// far ends to `node`, and nothing else changes.
proof fn lemma_with_dependents_links(g: Seq<NodeModel>, node: NodeModel, upto: int, a: Text, b: Text)
    requires
        0 <= upto <= node.edges.len(),
    ensures
        linked(with_dependents(g, node, upto), a, b) <==> linked(g, a, b) || (b == node.name
            && exists|k: int| 0 <= k < upto && (#[trigger] node.edges[k]).1 == a),
    decreases upto,
{
    if upto > 0 {
        lemma_with_dependents_links(g, node, upto - 1, a, b);
        lemma_with_dependent_links(
            with_dependents(g, node, upto - 1),
            node.edges[upto - 1].1,
            node.edges[upto - 1].0,
            (node.version, node.name),
            a,
            b,
        );
        if b == node.name && exists|k: int| 0 <= k < upto - 1 && (#[trigger] node.edges[k]).1 == a {
            let k = choose|k: int| 0 <= k < upto - 1 && (#[trigger] node.edges[k]).1 == a;
            assert(0 <= k < upto && node.edges[k].1 == a);
        }
        if b == node.name && a == node.edges[upto - 1].1 {
            assert(0 <= upto - 1 < upto && node.edges[upto - 1].1 == a);
        }
    }
}

/// In the inverse graph `a` links to `b` exactly where a workspace called
/// `b` declares `a` as a dependency.
pub proof fn lemma_inversed_links(declared: Seq<NodeModel>, upto: int, a: Text, b: Text)
    requires
        0 <= upto <= declared.len(),
    ensures
        linked(inversed_of(declared, upto), a, b) <==> declares(declared, upto, b, a),
    decreases upto,
{
    if upto > 0 {
        lemma_inversed_links(declared, upto - 1, a, b);
        let node = declared[upto - 1];
        lemma_with_dependents_links(
            inversed_of(declared, upto - 1),
            node,
            node.edges.len() as int,
            a,
            b,
        );
        if declares(declared, upto - 1, b, a) {
            let (i, k) = choose|i: int, k: int|
                0 <= i < upto - 1 && 0 <= k < declared[i].edges.len() && declared[i].name == b && (
                #[trigger] declared[i].edges[k]).1 == a;
            assert(0 <= i < upto && declared[i].edges[k].1 == a);
        }
        if b == node.name && exists|k: int|
            0 <= k < node.edges.len() && (#[trigger] node.edges[k]).1 == a {
            let k = choose|k: int| 0 <= k < node.edges.len() && (#[trigger] node.edges[k]).1 == a;
            assert(0 <= upto - 1 < upto && declared[upto - 1].edges[k].1 == a);
        }
        if declares(declared, upto, b, a) {
            let (i, k) = choose|i: int, k: int|
                0 <= i < upto && 0 <= k < declared[i].edges.len() && declared[i].name == b && (
                #[trigger] declared[i].edges[k]).1 == a;
            if i < upto - 1 {
                assert(declares(declared, upto - 1, b, a));
            } else {
                assert(node.edges[k].1 == a);
            }
        }
    } else {
        assert(inversed_of(declared, upto) =~= Seq::<NodeModel>::empty());
    }
}

/// Where no two workspaces share a name, the direct graph is the list of
/// what they declare.
pub proof fn lemma_direct_of_distinct(declared: Seq<NodeModel>, upto: int)
    requires
        0 <= upto <= declared.len(),
        names_distinct(declared),
    ensures
        direct_of(declared, upto) == declared.subrange(0, upto),
    decreases upto,
{
    if upto > 0 {
        lemma_direct_of_distinct(declared, upto - 1);
        let before = declared.subrange(0, upto - 1);
        let node = declared[upto - 1];
        if has_node(before, node.name) {
            let i = choose|i: int| 0 <= i < before.len() && (#[trigger] before[i]).name == node.name;
            assert(declared[i].name == declared[upto - 1].name);
        }
        assert(before.push(node) =~= declared.subrange(0, upto));
    } else {
        assert(direct_of(declared, upto) =~= declared.subrange(0, upto));
    }
}

/// Where no two workspaces share a name, the inverse graph is the direct
/// graph with every edge turned round: `a` links to `b` in the one exactly
/// where `b` links to `a` in the other.
pub proof fn lemma_inversed_turns_direct(declared: Seq<NodeModel>, a: Text, b: Text)
    requires
        names_distinct(declared),
    ensures
        linked(inversed_of(declared, declared.len() as int), a, b) <==> linked(
            direct_of(declared, declared.len() as int),
            b,
            a,
        ),
{
    let n = declared.len() as int;
    lemma_inversed_links(declared, n, a, b);
    lemma_direct_of_distinct(declared, n);
    assert(declared.subrange(0, n) =~= declared);
}

/// Whether a walk along the edges of `g` leads from `name` to one of
/// `targets`: whether `name` is one of them or depends on one, directly or
/// through others.
pub open spec fn leads_to(g: Seq<NodeModel>, name: Text, targets: Seq<Text>) -> bool {
    exists|walk: Seq<Text>|
        walk.len() >= 1 && walk.first() == name && targets.contains(walk.last())
            && #[trigger] is_walk(g, walk)
}

/// A walk in a graph is, read backwards, a walk in the graph with every edge
/// turned round.
proof fn lemma_walk_backwards(g: Seq<NodeModel>, turned: Seq<NodeModel>, walk: Seq<Text>)
    requires
        forall|a: Text, b: Text| #[trigger] linked(g, a, b) <==> linked(turned, b, a),
        is_walk(g, walk),
    ensures
        is_walk(turned, walk.reverse()),
{
    let back = walk.reverse();
    assert forall|i: int| 0 <= i < back.len() - 1 implies linked(
        turned,
        #[trigger] back[i],
        back[i + 1],
    ) by {
        let j = walk.len() - 2 - i;
        assert(back[i] == walk[j + 1]);
        assert(back[i + 1] == walk[j]);
        assert(linked(g, walk[j], walk[j + 1]));
    }
}

/// Where no two workspaces share a name, what a change reaches in the
/// inverse graph is what depends on it in the direct graph: a name is
/// reached from the changed names exactly where it is one of them or depends
/// on one, directly or through others.
pub proof fn lemma_reached_is_dependent(declared: Seq<NodeModel>, seeds: Seq<Text>, name: Text)
    requires
        names_distinct(declared),
    ensures
        reached_from(inversed_of(declared, declared.len() as int), seeds, name) <==> leads_to(
            direct_of(declared, declared.len() as int),
            name,
            seeds,
        ),
{
    let n = declared.len() as int;
    let inversed = inversed_of(declared, n);
    let direct = direct_of(declared, n);
    assert forall|a: Text, b: Text| #[trigger] linked(inversed, a, b) <==> linked(direct, b, a) by {
        lemma_inversed_turns_direct(declared, a, b);
    }
    assert forall|a: Text, b: Text| #[trigger] linked(direct, a, b) <==> linked(inversed, b, a) by {
        lemma_inversed_turns_direct(declared, b, a);
    }
    if reached_from(inversed, seeds, name) {
        let walk = choose|walk: Seq<Text>|
            walk.len() >= 1 && seeds.contains(walk.first()) && walk.last() == name
                && #[trigger] is_walk(inversed, walk);
        lemma_walk_backwards(inversed, direct, walk);
        let back = walk.reverse();
        assert(back.first() == walk.last());
        assert(back.last() == walk.first());
        assert(back.len() >= 1 && back.first() == name && seeds.contains(back.last()) && is_walk(
            direct,
            back,
        ));
    }
    if leads_to(direct, name, seeds) {
        let walk = choose|walk: Seq<Text>|
            walk.len() >= 1 && walk.first() == name && seeds.contains(walk.last())
                && #[trigger] is_walk(direct, walk);
        lemma_walk_backwards(direct, inversed, walk);
        let back = walk.reverse();
        assert(back.first() == walk.last());
        assert(back.last() == walk.first());
        assert(back.len() >= 1 && seeds.contains(back.first()) && back.last() == name && is_walk(
            inversed,
            back,
        ));
    }
}

/// The dependency graph of a set of workspaces, in both directions.
#[derive(Debug)]
pub struct DepGraph {
    direct: DepMap,
    inversed: DepMap,
}

impl DepGraph {
    #[verifier::type_invariant]
    spec fn names_once(&self) -> bool {
        names_distinct(self.direct@) && names_distinct(self.inversed@)
    }

    /// The direct graph: each workspace with its version and with an edge to
    /// each dependency it declares.
    pub closed spec fn direct(&self) -> Seq<NodeModel> {
        self.direct@
    }

    /// The inverse graph: each dependency with an edge to each workspace that
    /// declares it.
    pub closed spec fn inversed(&self) -> Seq<NodeModel> {
        self.inversed@
    }

    /// The graph of `workspaces`.
    pub fn new(workspaces: Vec<Workspace>) -> (graph: DepGraph)
        ensures
            graph.direct() == direct_of(
                declared_nodes(workspaces@),
                workspaces@.len() as int,
            ),
            graph.inversed() == inversed_of(
                declared_nodes(workspaces@),
                workspaces@.len() as int,
            ),
            names_distinct(graph.direct()),
            names_distinct(graph.inversed()),
    {
        let direct = Self::build_direct_dep_graph(&workspaces);
        let inversed = Self::build_inversed_dep_graph(&workspaces);
        DepGraph { direct, inversed }
    }

    /// The direct graph of `workspaces`.
    pub fn build_direct_dep_graph(workspaces: &Vec<Workspace>) -> (map: DepMap)
        ensures
            map@ == direct_of(declared_nodes(workspaces@), workspaces@.len() as int),
            names_distinct(map@),
    {
        let ghost declared = declared_nodes(workspaces@);
        let mut map = DepMap::new();
        let mut i: usize = 0;
        while i < workspaces.len()
            invariant
                i <= workspaces.len(),
                declared == declared_nodes(workspaces@),
                map@ == direct_of(declared, i as int),
            decreases workspaces.len() - i,
        {
            let workspace = &workspaces[i];
            let mut edges: Vec<(String, String)> = Vec::new();
            let mut k: usize = 0;
            while k < workspace.package_json.dependencies.entries.len()
                invariant
                    k <= workspace.package_json.dependencies.entries.len(),
                    edges@.len() == k,
                    forall|m: int|
                        0 <= m < k ==> edges@[m].0@
                            == workspace.package_json.dependencies.entries@[m].1@ && edges@[m].1@
                            == workspace.package_json.dependencies.entries@[m].0@,
                decreases workspace.package_json.dependencies.entries.len() - k,
            {
                let entry = &workspace.package_json.dependencies.entries[k];
                edges.push((entry.1.clone(), entry.0.clone()));
                k += 1;
            }
            let node = DepNode {
                name: workspace.name.clone(),
                version: workspace.package_json.version.clone(),
                edges,
            };
            assert(node@.edges =~= declared[i as int].edges);
            assert(node@ == declared[i as int]);
            map.put(node);
            i += 1;
        }
        proof {
            lemma_direct_distinct(declared, workspaces@.len() as int);
        }
        map
    }

    /// The inverse graph of `workspaces`.
    pub fn build_inversed_dep_graph(workspaces: &Vec<Workspace>) -> (map: DepMap)
        ensures
            map@ == inversed_of(declared_nodes(workspaces@), workspaces@.len() as int),
            names_distinct(map@),
    {
        let ghost declared = declared_nodes(workspaces@);
        let mut map = DepMap::new();
        let mut i: usize = 0;
        while i < workspaces.len()
            invariant
                i <= workspaces.len(),
                declared == declared_nodes(workspaces@),
                map@ == inversed_of(declared, i as int),
            decreases workspaces.len() - i,
        {
            let workspace = &workspaces[i];
            let ghost entry = map@;
            let mut k: usize = 0;
            while k < workspace.package_json.dependencies.entries.len()
                invariant
                    i < workspaces.len(),
                    workspace == &workspaces[i as int],
                    declared == declared_nodes(workspaces@),
                    k <= workspace.package_json.dependencies.entries.len(),
                    map@ == with_dependents(entry, declared[i as int], k as int),
                decreases workspace.package_json.dependencies.entries.len() - k,
            {
                let pair = &workspace.package_json.dependencies.entries[k];
                assert(declared[i as int].edges[k as int] == (pair.1@, pair.0@));
                map.add_dependent(
                    &pair.0,
                    &pair.1,
                    &workspace.package_json.version,
                    &workspace.name,
                );
                k += 1;
            }
            assert(declared[i as int].edges.len() == k);
            i += 1;
        }
        proof {
            lemma_inversed_distinct(declared, workspaces@.len() as int);
        }
        map
    }

    /// The members of `workspaces` in dependency order, or the cycle among
    /// them that the search meets first.
    pub fn top_sort(&self, workspaces: &Vec<String>) -> (result: Result<Vec<String>, CycleError>)
        ensures
            match result {
                Ok(order) => {
                    &&& dependency_order(self.direct(), texts(workspaces@)) == Ok::<
                        Seq<Text>,
                        Seq<Text>,
                    >(texts(order@))
                    &&& is_order_of(self.direct(), texts(workspaces@).to_set(), texts(order@))
                },
                Err(e) => {
                    &&& dependency_order(self.direct(), texts(workspaces@)) == Err::<
                        Seq<Text>,
                        Seq<Text>,
                    >(texts(e.path@))
                    &&& is_cycle_in(self.direct(), texts(workspaces@).to_set(), texts(e.path@))
                    &&& is_simple(texts(e.path@))
                },
            },
            result is Err <==> cyclic(self.direct(), texts(workspaces@).to_set()),
    {
        proof {
            use_type_invariant(self);
        }
        self.direct.topological_order(workspaces)
    }

    /// Everything that has to be rebuilt when `updated_workspaces` changed:
    /// the changed names and whatever depends on them, directly or through
    /// others, in dependency order.
    pub fn get_affected(&self, updated_workspaces: Vec<String>) -> (result: Result<
        Vec<String>,
        CycleError,
    >)
        ensures
            ({
                let affected = reached(self.inversed(), texts(updated_workspaces@));
                let within = reach_of(self.inversed(), texts(updated_workspaces@));
                &&& affected.to_set() == within
                &&& match result {
                    Ok(order) => {
                        &&& dependency_order(self.direct(), affected) == Ok::<Seq<Text>, Seq<Text>>(
                            texts(order@),
                        )
                        &&& is_order_of(self.direct(), within, texts(order@))
                        &&& forall|i: int|
                            0 <= i < updated_workspaces@.len() ==> texts(order@).contains(
                                #[trigger] texts(updated_workspaces@)[i],
                            )
                    },
                    Err(e) => {
                        &&& dependency_order(self.direct(), affected) == Err::<
                            Seq<Text>,
                            Seq<Text>,
                        >(texts(e.path@))
                        &&& is_cycle_in(self.direct(), within, texts(e.path@))
                        &&& is_simple(texts(e.path@))
                    },
                }
                &&& result is Err <==> cyclic(self.direct(), within)
            }),
    {
        proof {
            use_type_invariant(self);
        }
        let affected = self.inversed.reach(&updated_workspaces);
        let result = self.direct.topological_order(&affected);
        proof {
            let seeds = texts(updated_workspaces@);
            assert forall|i: int| 0 <= i < seeds.len() implies reach_of(
                self.inversed@,
                seeds,
            ).contains(#[trigger] seeds[i]) by {
                lemma_seed_reached(self.inversed@, seeds, seeds[i]);
            }
        }
        result
    }

    /// Whether no cycle runs through the workspaces.
    pub fn validate_cycles(&self) -> (ok: bool)
        ensures
            ok == !cyclic(self.direct(), node_names(self.direct()).to_set()),
    {
        let mut names: Vec<String> = Vec::new();
        let mut i: usize = 0;
        while i < self.direct.nodes.len()
            invariant
                i <= self.direct.nodes.len(),
                texts(names@) == node_names(self.direct@).subrange(0, i as int),
            decreases self.direct.nodes.len() - i,
        {
            proof {
                lemma_texts_push(names@, self.direct.nodes[i as int].name);
                assert(node_names(self.direct@).subrange(0, i as int).push(
                    self.direct.nodes[i as int].name@,
                ) =~= node_names(self.direct@).subrange(0, i + 1));
            }
            names.push(self.direct.nodes[i].name.clone());
            i += 1;
        }
        assert(texts(names@) =~= node_names(self.direct@));
        self.top_sort(&names).is_ok()
    }

    /// Whether every declared range admits the version settled on for its
    /// target.
    pub fn validate_versions(&self) -> (ok: bool)
        requires
            version_verdict(self.direct()) is Some,
        ensures
            Some(ok) == version_verdict(self.direct()),
    {
        match self.direct.check_versions() {
            Some(ok) => ok,
            None => unreached(),
        }
    }

    /// The first range that refuses the version settled on for its target,
    /// if the versions do not agree.
    pub fn version_conflict(&self) -> (found: Option<VersionConflict>)
        ensures
            found is Some <==> version_verdict(self.direct()) == Some(false),
            found matches Some(conflict) ==> exists|i: int, k: int|
                #[trigger] is_conflict_at(self.direct(), i, k, conflict@),
    {
        self.direct.scan_versions().1
    }

    /// Whether the versions agree and no cycle runs through the workspaces.
    pub fn validate(&self) -> (ok: bool)
        requires
            version_verdict(self.direct()) is Some,
        ensures
            ok == (version_verdict(self.direct()) == Some(true) && !cyclic(
                self.direct(),
                node_names(self.direct()).to_set(),
            )),
    {
        self.validate_versions() && self.validate_cycles()
    }

    /// `validate_versions`, or `None` where a range or a version that has to
    /// be read cannot be.
    pub fn try_validate_versions(&self) -> (verdict: Option<bool>)
        ensures
            verdict == version_verdict(self.direct()),
    {
        if self.direct.check_versions().is_some() {
            Some(self.validate_versions())
        } else {
            None
        }
    }

    /// `validate`, or `None` where a range or a version that has to be read
    /// cannot be.
    pub fn try_validate(&self) -> (verdict: Option<bool>)
        ensures
            verdict == match version_verdict(self.direct()) {
                Some(agree) => Some(
                    agree && !cyclic(self.direct(), node_names(self.direct()).to_set()),
                ),
                None => None,
            },
    {
        if self.direct.check_versions().is_some() {
            Some(self.validate())
        } else {
            None
        }
    }
}

} // verus!
