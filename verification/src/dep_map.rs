//! A map from names to nodes: for each name its version and the edges that
//! leave it.

use crate::text::same_text;
use crate::text::Text;
use vstd::prelude::*;

verus! {

/// One name of a dependency map: its version and the edges that leave it,
/// each a version range and the name at the other end.
#[derive(Debug)]
pub struct DepNode {
    pub name: String,
    pub version: String,
    pub edges: Vec<(String, String)>,
}

/// Mathematical model of a `DepNode`.
pub struct NodeModel {
    pub name: Text,
    pub version: Text,
    pub edges: Seq<(Text, Text)>,
}

/// The model of a list of edges.
pub open spec fn edge_models(edges: Seq<(String, String)>) -> Seq<(Text, Text)> {
    Seq::new(edges.len(), |k: int| (edges[k].0@, edges[k].1@))
}

impl View for DepNode {
    type V = NodeModel;

    open spec fn view(&self) -> NodeModel {
        NodeModel { name: self.name@, version: self.version@, edges: edge_models(self.edges@) }
    }
}

/// A map from names to nodes that remembers the order in which the names
/// came. No name stands in it twice.
#[derive(Debug)]
pub struct DepMap {
    pub nodes: Vec<DepNode>,
}

impl View for DepMap {
    type V = Seq<NodeModel>;

    open spec fn view(&self) -> Seq<NodeModel> {
        Seq::new(self.nodes@.len(), |i: int| self.nodes@[i]@)
    }
}

/// No two nodes carry the same name.
pub open spec fn names_distinct(g: Seq<NodeModel>) -> bool {
    forall|i: int, j: int| 0 <= i < j < g.len() ==> g[i].name != g[j].name
}

/// Whether `g` has a node called `name`.
pub open spec fn has_node(g: Seq<NodeModel>, name: Text) -> bool {
    exists|i: int| 0 <= i < g.len() && (#[trigger] g[i]).name == name
}

/// Whether an edge of `g` leads from `from` to `to`.
pub open spec fn linked(g: Seq<NodeModel>, from: Text, to: Text) -> bool {
    exists|i: int, k: int|
        0 <= i < g.len() && 0 <= k < g[i].edges.len() && g[i].name == from && (
        #[trigger] g[i].edges[k]).1 == to
}

/// The first place at which a node called `name` stands.
pub open spec fn node_place(g: Seq<NodeModel>, name: Text) -> int {
    choose|i: int|
        0 <= i < g.len() && g[i].name == name && forall|j: int| 0 <= j < i ==> g[j].name != name
}

/// A node stands at the first place that holds its name.
pub proof fn lemma_node_place(g: Seq<NodeModel>, at: int)
    requires
        0 <= at < g.len(),
        forall|j: int| 0 <= j < at ==> g[j].name != g[at].name,
    ensures
        has_node(g, g[at].name),
        node_place(g, g[at].name) == at,
{
    let name = g[at].name;
    let found = node_place(g, name);
    assert(0 <= found < g.len() && g[found].name == name && forall|j: int|
        0 <= j < found ==> g[j].name != name);
}

/// Below a node called `name` lies the first node of that name.
proof fn lemma_first_node_below(g: Seq<NodeModel>, name: Text, at: int)
    requires
        0 <= at < g.len(),
        g[at].name == name,
    ensures
        exists|i: int|
            0 <= i <= at && g[i].name == name && forall|j: int| 0 <= j < i ==> g[j].name != name,
    decreases at,
{
    if exists|j: int| 0 <= j < at && g[j].name == name {
        let j = choose|j: int| 0 <= j < at && g[j].name == name;
        lemma_first_node_below(g, name, j);
        let i = choose|i: int|
            0 <= i <= j && g[i].name == name && forall|m: int| 0 <= m < i ==> g[m].name != name;
        assert(0 <= i <= at && g[i].name == name && forall|m: int| 0 <= m < i ==> g[m].name != name);
    } else {
        assert(0 <= at <= at && g[at].name == name && forall|m: int|
            0 <= m < at ==> g[m].name != name);
    }
}

/// A name that `g` has stands at its first place.
pub proof fn lemma_first_node(g: Seq<NodeModel>, name: Text)
    requires
        has_node(g, name),
    ensures
        0 <= node_place(g, name) < g.len(),
        g[node_place(g, name)].name == name,
        forall|j: int| 0 <= j < node_place(g, name) ==> g[j].name != name,
{
    let at = choose|at: int| 0 <= at < g.len() && (#[trigger] g[at]).name == name;
    lemma_first_node_below(g, name, at);
    let i = choose|i: int|
        0 <= i <= at && g[i].name == name && forall|j: int| 0 <= j < i ==> g[j].name != name;
    assert(0 <= i < g.len() && g[i].name == name && forall|j: int|
        0 <= j < i ==> g[j].name != name);
}

/// `g` with `node` under its name: in the place of the node that had the
/// name, or at the end.
pub open spec fn with_node(g: Seq<NodeModel>, node: NodeModel) -> Seq<NodeModel> {
    if has_node(g, node.name) {
        g.update(node_place(g, node.name), node)
    } else {
        g.push(node)
    }
}

/// `g` with one more edge from `name` to `dependent`, and `range` as the
/// version of `name`.
pub open spec fn with_dependent(
    g: Seq<NodeModel>,
    name: Text,
    range: Text,
    dependent: (Text, Text),
) -> Seq<NodeModel> {
    if has_node(g, name) {
        let at = node_place(g, name);
        g.update(at, NodeModel { name, version: range, edges: g[at].edges.push(dependent) })
    } else {
        g.push(NodeModel { name, version: range, edges: seq![dependent] })
    }
}

/// Putting a node keeps the names distinct.
pub proof fn lemma_with_node_distinct(g: Seq<NodeModel>, node: NodeModel)
    requires
        names_distinct(g),
    ensures
        names_distinct(with_node(g, node)),
{
    if has_node(g, node.name) {
        let at = node_place(g, node.name);
        assert(0 <= at < g.len() && g[at].name == node.name && forall|j: int|
            0 <= j < at ==> g[j].name != node.name);
    } else {
        let after = g.push(node);
        assert forall|i: int, j: int| 0 <= i < j < after.len() implies after[i].name
            != after[j].name by {
            if j == g.len() {
                assert(g[i].name != node.name);
            }
        }
    }
}

/// Adding a back edge keeps the names distinct.
pub proof fn lemma_with_dependent_distinct(
    g: Seq<NodeModel>,
    name: Text,
    range: Text,
    dependent: (Text, Text),
)
    requires
        names_distinct(g),
    ensures
        names_distinct(with_dependent(g, name, range, dependent)),
{
    if has_node(g, name) {
        let at = node_place(g, name);
        assert(0 <= at < g.len() && g[at].name == name && forall|j: int|
            0 <= j < at ==> g[j].name != name);
    } else {
        let after = with_dependent(g, name, range, dependent);
        assert forall|i: int, j: int| 0 <= i < j < after.len() implies after[i].name
            != after[j].name by {
            if j == g.len() {
                assert(g[i].name != name);
            }
        }
    }
}

/// A copy of a list of edges.
fn copy_edges(edges: &Vec<(String, String)>) -> (copy: Vec<(String, String)>)
    ensures
        edge_models(copy@) == edge_models(edges@),
{
    let mut copy: Vec<(String, String)> = Vec::new();
    let mut k: usize = 0;
    while k < edges.len()
        invariant
            k <= edges.len(),
            copy@.len() == k,
            forall|m: int| 0 <= m < k ==> copy@[m].0@ == edges@[m].0@ && copy@[m].1@ == edges@[m].1@,
        decreases edges.len() - k,
    {
        copy.push((edges[k].0.clone(), edges[k].1.clone()));
        k += 1;
    }
    assert(edge_models(copy@) =~= edge_models(edges@));
    copy
}

impl DepMap {
    /// The place of the node called `name`.
    pub fn find(&self, name: &String) -> (found: Option<usize>)
        ensures
            match found {
                Some(i) => {
                    &&& i < self@.len()
                    &&& self@[i as int].name == name@
                    &&& forall|j: int| 0 <= j < i ==> self@[j].name != name@
                },
                None => !has_node(self@, name@),
            },
    {
        let mut i: usize = 0;
        while i < self.nodes.len()
            invariant
                i <= self.nodes.len(),
                forall|j: int| 0 <= j < i ==> self@[j].name != name@,
            decreases self.nodes.len() - i,
        {
            if same_text(&self.nodes[i].name, name) {
                return Some(i);
            }
            i += 1;
        }
        None
    }
}

impl DepMap {
    /// The empty map.
    pub fn new() -> (map: DepMap)
        ensures
            map@ == Seq::<NodeModel>::empty(),
    {
        let map = DepMap { nodes: Vec::new() };
        assert(map@ =~= Seq::<NodeModel>::empty());
        map
    }

    /// Puts `node` under its name.
    pub fn put(&mut self, node: DepNode)
        ensures
            final(self)@ == with_node(old(self)@, node@),
    {
        let ghost before = self@;
        match self.find(&node.name) {
            Some(at) => {
                proof {
                    lemma_node_place(before, at as int);
                }
                self.nodes.set(at, node);
                assert(self@ =~= before.update(at as int, node@));
            },
            None => {
                self.nodes.push(node);
                assert(self@ =~= before.push(node@));
            },
        }
    }

    /// Adds the edge from `name` back to `dependent`, and makes `range` the
    /// version of `name`.
    pub fn add_dependent(
        &mut self,
        name: &String,
        range: &String,
        dependent_version: &String,
        dependent_name: &String,
    )
        ensures
            final(self)@ == with_dependent(
                old(self)@,
                name@,
                range@,
                (dependent_version@, dependent_name@),
            ),
    {
        let ghost before = self@;
        let ghost dependent = (dependent_version@, dependent_name@);
        match self.find(name) {
            Some(at) => {
                proof {
                    lemma_node_place(before, at as int);
                }
                let mut edges = copy_edges(&self.nodes[at].edges);
                let ghost copied = edges@;
                edges.push((dependent_version.clone(), dependent_name.clone()));
                assert(edge_models(edges@) =~= edge_models(copied).push(dependent));
                let node = DepNode { name: name.clone(), version: range.clone(), edges };
                self.nodes.set(at, node);
                assert(self@ =~= before.update(at as int, node@));
            },
            None => {
                let mut edges: Vec<(String, String)> = Vec::new();
                edges.push((dependent_version.clone(), dependent_name.clone()));
                assert(edge_models(edges@) =~= seq![dependent]);
                let node = DepNode { name: name.clone(), version: range.clone(), edges };
                self.nodes.push(node);
                assert(self@ =~= before.push(node@));
            },
        }
    }
}

} // verus!
