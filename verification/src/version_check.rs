//! One version for each name: every declared range must admit the version
//! that the set of workspaces has settled on for its target.

use crate::dep_map::has_node;
use crate::dep_map::lemma_node_place;
use crate::dep_map::names_distinct;
use crate::dep_map::node_place;
use crate::dep_map::DepMap;
use crate::dep_map::NodeModel;
use crate::name_map::NameMap;
use crate::text::Text;
use crate::version::check_range;
use crate::version::clean_version;
use crate::version::cleaned;
use crate::version::satisfies;
use vstd::prelude::*;

verus! {

/// The state of a scan in progress: the verdict so far, and the version
/// settled on for each name met so far. The verdict is `Some(true)` while all
/// ranges were admitted, `Some(false)` from the first range that was not, and
/// `None` from the first range or version that could not be read.
pub struct Scan {
    pub verdict: Option<bool>,
    pub recorded: Map<Text, Text>,
}

/// The versions that the first `upto` nodes of `g` bring themselves: each
/// name with its own cleaned version.
pub open spec fn own_versions(g: Seq<NodeModel>, upto: int) -> Map<Text, Text>
    decreases upto,
{
    if upto <= 0 {
        Map::empty()
    } else {
        own_versions(g, upto - 1).insert(g[upto - 1].name, cleaned(g[upto - 1].version))
    }
}

/// The state after one more edge. A scan that has failed stays as it is. An
/// edge to a name with a settled version asks whether its range admits that
/// version; an edge to a name without one settles the cleaned range as its
/// version.
pub open spec fn scan_edge(scan: Scan, edge: (Text, Text)) -> Scan {
    if scan.verdict != Some(true) {
        scan
    } else if scan.recorded.contains_key(edge.1) {
        Scan { verdict: satisfies(edge.0, scan.recorded[edge.1]), recorded: scan.recorded }
    } else {
        Scan { verdict: Some(true), recorded: scan.recorded.insert(edge.1, cleaned(edge.0)) }
    }
}

/// The state after the first `upto` of `edges`.
pub open spec fn scan_edges(scan: Scan, edges: Seq<(Text, Text)>, upto: int) -> Scan
    decreases upto,
{
    if upto <= 0 {
        scan
    } else {
        scan_edge(scan_edges(scan, edges, upto - 1), edges[upto - 1])
    }
}

/// The state after all edges of the first `upto` nodes of `g`.
pub open spec fn scan_nodes(scan: Scan, g: Seq<NodeModel>, upto: int) -> Scan
    decreases upto,
{
    if upto <= 0 {
        scan
    } else {
        scan_edges(scan_nodes(scan, g, upto - 1), g[upto - 1].edges, g[upto - 1].edges.len() as int)
    }
}

/// The state in which the scan of `g` begins.
pub open spec fn scan_start(g: Seq<NodeModel>) -> Scan {
    Scan { verdict: Some(true), recorded: own_versions(g, g.len() as int) }
}

/// The verdict on `g`: whether every range admits the version settled on for
/// its target, or `None` where a range or a version that had to be read
/// cannot be.
pub open spec fn version_verdict(g: Seq<NodeModel>) -> Option<bool> {
    scan_nodes(scan_start(g), g, g.len() as int).verdict
}

/// A range that refuses the version settled on for its target.
#[derive(Debug)]
pub struct VersionConflict {
    /// The workspace that declares the range.
    pub workspace: String,
    /// The name that the range is asked of.
    pub dependency: String,
    /// The range.
    pub range: String,
    /// The version settled on for the dependency.
    pub version: String,
}

/// Mathematical model of a `VersionConflict`.
pub struct ConflictModel {
    pub workspace: Text,
    pub dependency: Text,
    pub range: Text,
    pub version: Text,
}

impl View for VersionConflict {
    type V = ConflictModel;

    open spec fn view(&self) -> ConflictModel {
        ConflictModel {
            workspace: self.workspace@,
            dependency: self.dependency@,
            range: self.range@,
            version: self.version@,
        }
    }
}

/// Whether the scan of `g` reaches edge `k` of node `i` with all ranges
/// before it admitted and finds there the conflict `conflict`: the range of
/// the edge refuses the version settled on for its target.
pub open spec fn is_conflict_at(g: Seq<NodeModel>, i: int, k: int, conflict: ConflictModel) -> bool {
    let before = scan_edges(scan_nodes(scan_start(g), g, i), g[i].edges, k);
    &&& 0 <= i < g.len()
    &&& 0 <= k < g[i].edges.len()
    &&& before.verdict == Some(true)
    &&& before.recorded.contains_key(g[i].edges[k].1)
    &&& satisfies(g[i].edges[k].0, before.recorded[g[i].edges[k].1]) == Some(false)
    &&& conflict == (ConflictModel {
        workspace: g[i].name,
        dependency: g[i].edges[k].1,
        range: g[i].edges[k].0,
        version: before.recorded[g[i].edges[k].1],
    })
}

/// A scan that has failed after `lo` edges is the same after `hi`.
proof fn lemma_edges_stay(scan: Scan, edges: Seq<(Text, Text)>, lo: int, hi: int)
    requires
        0 <= lo <= hi,
        scan_edges(scan, edges, lo).verdict != Some(true),
    ensures
        scan_edges(scan, edges, hi) == scan_edges(scan, edges, lo),
    decreases hi - lo,
{
    if hi > lo {
        lemma_edges_stay(scan, edges, lo, hi - 1);
    }
}

/// A scan that has failed after `lo` nodes is the same after `hi`.
proof fn lemma_nodes_stay(scan: Scan, g: Seq<NodeModel>, lo: int, hi: int)
    requires
        0 <= lo <= hi,
        scan_nodes(scan, g, lo).verdict != Some(true),
    ensures
        scan_nodes(scan, g, hi) == scan_nodes(scan, g, lo),
    decreases hi - lo,
{
    if hi > lo {
        lemma_nodes_stay(scan, g, lo, hi - 1);
        lemma_edges_stay(
            scan_nodes(scan, g, hi - 1),
            g[hi - 1].edges,
            0,
            g[hi - 1].edges.len() as int,
        );
    }
}

/// Whether every dependency that `g` declares is a node of `g`.
pub open spec fn all_internal(g: Seq<NodeModel>) -> bool {
    forall|i: int, k: int|
        0 <= i < g.len() && 0 <= k < g[i].edges.len() ==> has_node(g, (#[trigger] g[i].edges[k]).1)
}

/// Whether the range of edge `k` of node `i` admits the own version of the
/// node that the edge leads to.
pub open spec fn edge_verdict(g: Seq<NodeModel>, i: int, k: int) -> Option<bool> {
    satisfies(g[i].edges[k].0, cleaned(g[node_place(g, g[i].edges[k].1)].version))
}

/// What the first `upto` nodes bring themselves: for each of their names, the
/// cleaned version of the last node that carries it.
proof fn lemma_own_versions(g: Seq<NodeModel>, upto: int)
    requires
        names_distinct(g),
        0 <= upto <= g.len(),
    ensures
        forall|name: Text|
            own_versions(g, upto).contains_key(name) <==> exists|i: int|
                0 <= i < upto && (#[trigger] g[i]).name == name,
        forall|i: int|
            0 <= i < upto ==> own_versions(g, upto)[(#[trigger] g[i]).name] == cleaned(
                g[i].version,
            ),
    decreases upto,
{
    if upto > 0 {
        lemma_own_versions(g, upto - 1);
        let before = own_versions(g, upto - 1);
        let after = own_versions(g, upto);
        assert forall|name: Text| after.contains_key(name) <==> exists|i: int|
            0 <= i < upto && (#[trigger] g[i]).name == name by {
            if before.contains_key(name) {
                let i = choose|i: int| 0 <= i < upto - 1 && (#[trigger] g[i]).name == name;
                assert(0 <= i < upto && g[i].name == name);
            }
            if name == g[upto - 1].name {
                assert(0 <= upto - 1 < upto && g[upto - 1].name == name);
            }
        }
    }
}

/// In a graph all of whose dependencies are nodes the settled versions stay
/// the own versions, and the scan goes on exactly as long as each range
/// admits the own version of its target.
proof fn lemma_scan_internal_edges(g: Seq<NodeModel>, entry: Scan, at: int, upto: int)
    requires
        names_distinct(g),
        all_internal(g),
        0 <= at < g.len(),
        0 <= upto <= g[at].edges.len(),
        entry.recorded == own_versions(g, g.len() as int),
    ensures
        scan_edges(entry, g[at].edges, upto).recorded == entry.recorded,
        entry.verdict == Some(true) && (forall|k: int|
            0 <= k < upto ==> #[trigger] edge_verdict(g, at, k) == Some(true)) ==> scan_edges(
            entry,
            g[at].edges,
            upto,
        ).verdict == Some(true),
        entry.verdict == Some(true) && (exists|k: int|
            0 <= k < upto && #[trigger] edge_verdict(g, at, k) != Some(true)) ==> scan_edges(
            entry,
            g[at].edges,
            upto,
        ).verdict == edge_verdict(
            g,
            at,
            first_failing_edge(g, at, upto),
        ),
        entry.verdict != Some(true) ==> scan_edges(entry, g[at].edges, upto) == entry,
    decreases upto,
{
    if upto > 0 {
        lemma_scan_internal_edges(g, entry, at, upto - 1);
        lemma_own_versions(g, g.len() as int);
        let edge = g[at].edges[upto - 1];
        assert(has_node(g, edge.1));
        let target = choose|i: int| 0 <= i < g.len() && (#[trigger] g[i]).name == edge.1;
        lemma_node_place(g, target);
        assert(entry.recorded[edge.1] == cleaned(g[target].version));
        assert(edge_verdict(g, at, upto - 1) == satisfies(edge.0, entry.recorded[edge.1]));
        if exists|k: int| 0 <= k < upto - 1 && #[trigger] edge_verdict(g, at, k) != Some(true) {
            lemma_first_failing_edge(g, at, upto - 1);
            let k = choose|k: int| 0 <= k < upto - 1 && #[trigger] edge_verdict(g, at, k) != Some(true);
            assert(0 <= k < upto && edge_verdict(g, at, k) != Some(true));
        } else if edge_verdict(g, at, upto - 1) != Some(true) {
            assert(0 <= upto - 1 < upto && edge_verdict(g, at, upto - 1) != Some(true));
        } else {
            assert forall|k: int| 0 <= k < upto implies #[trigger] edge_verdict(g, at, k) == Some(
                true,
            ) by {}
        }
    }
}

/// The first of the first `upto` edges of node `at` whose range does not
/// admit the own version of its target.
pub open spec fn first_failing_edge(g: Seq<NodeModel>, at: int, upto: int) -> int
    decreases upto,
{
    if upto <= 0 {
        0
    } else if exists|k: int| 0 <= k < upto - 1 && #[trigger] edge_verdict(g, at, k) != Some(true) {
        first_failing_edge(g, at, upto - 1)
    } else {
        upto - 1
    }
}

/// `first_failing_edge` is a failing edge, and the first.
proof fn lemma_first_failing_edge(g: Seq<NodeModel>, at: int, upto: int)
    requires
        exists|k: int| 0 <= k < upto && #[trigger] edge_verdict(g, at, k) != Some(true),
    ensures
        0 <= first_failing_edge(g, at, upto) < upto,
        edge_verdict(g, at, first_failing_edge(g, at, upto)) != Some(true),
        forall|k: int|
            0 <= k < first_failing_edge(g, at, upto) ==> #[trigger] edge_verdict(g, at, k) == Some(
                true,
            ),
    decreases upto,
{
    if upto > 0 {
        if exists|k: int| 0 <= k < upto - 1 && #[trigger] edge_verdict(g, at, k) != Some(true) {
            lemma_first_failing_edge(g, at, upto - 1);
        }
    }
}

/// Whether each range declared by the first `upto` nodes admits the own
/// version of its target.
pub open spec fn all_admitted(g: Seq<NodeModel>, upto: int) -> bool {
    forall|i: int, k: int|
        0 <= i < upto && 0 <= k < g[i].edges.len() ==> #[trigger] edge_verdict(g, i, k) == Some(
            true,
        )
}

/// In a graph all of whose dependencies are nodes, the scan of the first
/// `upto` nodes holds while all their ranges are admitted.
proof fn lemma_scan_internal_nodes(g: Seq<NodeModel>, upto: int)
    requires
        names_distinct(g),
        all_internal(g),
        0 <= upto <= g.len(),
    ensures
        scan_nodes(scan_start(g), g, upto).recorded == own_versions(g, g.len() as int),
        all_admitted(g, upto) ==> scan_nodes(scan_start(g), g, upto).verdict == Some(true),
    decreases upto,
{
    if upto > 0 {
        lemma_scan_internal_nodes(g, upto - 1);
        let entry = scan_nodes(scan_start(g), g, upto - 1);
        lemma_scan_internal_edges(g, entry, upto - 1, g[upto - 1].edges.len() as int);
        if all_admitted(g, upto) {
            assert(all_admitted(g, upto - 1));
            assert forall|k: int| 0 <= k < g[upto - 1].edges.len() implies #[trigger] edge_verdict(
                g,
                upto - 1,
                k,
            ) == Some(true) by {}
        }
    }
}

/// Where every dependency is a workspace of the set and every declared range
/// admits the version of the workspace it names, the versions agree.
pub proof fn lemma_admitted_ranges_agree(g: Seq<NodeModel>)
    requires
        names_distinct(g),
        all_internal(g),
        all_admitted(g, g.len() as int),
    ensures
        version_verdict(g) == Some(true),
{
    lemma_scan_internal_nodes(g, g.len() as int);
}

/// Where every dependency is a workspace of the set and every range before
/// edge `k` of node `i` is admitted, the verdict is that of this edge where
/// it is not: a range that refuses the version of its workspace makes the
/// check fail.
pub proof fn lemma_refused_range_fails(g: Seq<NodeModel>, i: int, k: int)
    requires
        names_distinct(g),
        all_internal(g),
        0 <= i < g.len(),
        0 <= k < g[i].edges.len(),
        all_admitted(g, i),
        forall|m: int| 0 <= m < k ==> #[trigger] edge_verdict(g, i, m) == Some(true),
        edge_verdict(g, i, k) != Some(true),
    ensures
        version_verdict(g) == edge_verdict(g, i, k),
{
    lemma_scan_internal_nodes(g, i);
    let entry = scan_nodes(scan_start(g), g, i);
    let edges = g[i].edges;
    lemma_scan_internal_edges(g, entry, i, edges.len() as int);
    assert(0 <= k < edges.len() && edge_verdict(g, i, k) != Some(true));
    lemma_first_failing_edge(g, i, edges.len() as int);
    let first = first_failing_edge(g, i, edges.len() as int);
    assert(first == k) by {
        if first < k {
            assert(edge_verdict(g, i, first) == Some(true));
        }
        if k < first {
            assert(edge_verdict(g, i, k) == Some(true));
        }
    }
    assert(scan_nodes(scan_start(g), g, i + 1).verdict == edge_verdict(g, i, k));
    lemma_nodes_stay(scan_start(g), g, i + 1, g.len() as int);
}

/// The versions settled after one more edge, whatever the verdicts: a name
/// that has a version keeps it, a name without one takes the cleaned range.
pub open spec fn settle_edge(settled: Map<Text, Text>, edge: (Text, Text)) -> Map<Text, Text> {
    if settled.contains_key(edge.1) {
        settled
    } else {
        settled.insert(edge.1, cleaned(edge.0))
    }
}

/// The versions settled after the first `upto` of `edges`.
pub open spec fn settle_edges(settled: Map<Text, Text>, edges: Seq<(Text, Text)>, upto: int) -> Map<
    Text,
    Text,
>
    decreases upto,
{
    if upto <= 0 {
        settled
    } else {
        settle_edge(settle_edges(settled, edges, upto - 1), edges[upto - 1])
    }
}

/// The versions settled after all edges of the first `upto` nodes of `g`.
pub open spec fn settle_nodes(settled: Map<Text, Text>, g: Seq<NodeModel>, upto: int) -> Map<
    Text,
    Text,
>
    decreases upto,
{
    if upto <= 0 {
        settled
    } else {
        settle_edges(
            settle_nodes(settled, g, upto - 1),
            g[upto - 1].edges,
            g[upto - 1].edges.len() as int,
        )
    }
}

/// The version that the set of workspaces settles on for each name: for a
/// workspace its own cleaned version, for any other name the cleaned range
/// of the first edge that leads to it.
pub open spec fn settled_versions(g: Seq<NodeModel>) -> Map<Text, Text> {
    settle_nodes(own_versions(g, g.len() as int), g, g.len() as int)
}

/// Whether `later` holds every name of `earlier` with the same version.
pub open spec fn keeps(earlier: Map<Text, Text>, later: Map<Text, Text>) -> bool {
    forall|name: Text| #[trigger]
        earlier.contains_key(name) ==> later.contains_key(name) && later[name] == earlier[name]
}

/// More edges keep what was settled.
proof fn lemma_settle_edges_keeps(settled: Map<Text, Text>, edges: Seq<(Text, Text)>, lo: int, hi: int)
    requires
        0 <= lo <= hi,
    ensures
        keeps(settle_edges(settled, edges, lo), settle_edges(settled, edges, hi)),
    decreases hi - lo,
{
    if hi > lo {
        lemma_settle_edges_keeps(settled, edges, lo, hi - 1);
    }
}

/// More nodes keep what was settled.
proof fn lemma_settle_nodes_keeps(settled: Map<Text, Text>, g: Seq<NodeModel>, lo: int, hi: int)
    requires
        0 <= lo <= hi,
    ensures
        keeps(settle_nodes(settled, g, lo), settle_nodes(settled, g, hi)),
    decreases hi - lo,
{
    if hi > lo {
        lemma_settle_nodes_keeps(settled, g, lo, hi - 1);
        lemma_settle_edges_keeps(
            settle_nodes(settled, g, hi - 1),
            g[hi - 1].edges,
            0,
            g[hi - 1].edges.len() as int,
        );
    }
}

/// Whether each range declared by the first `upto` nodes admits the version
/// settled on for its target.
pub open spec fn all_satisfied(g: Seq<NodeModel>, upto: int) -> bool {
    forall|i: int, k: int|
        0 <= i < upto && 0 <= k < g[i].edges.len() ==> satisfies(
            (#[trigger] g[i].edges[k]).0,
            settled_versions(g)[g[i].edges[k].1],
        ) == Some(true)
}

/// While every range admits the settled version of its target, the scan
/// of the edges of node `at` holds and settles what `settle_edges` settles.
proof fn lemma_scan_satisfied_edges(g: Seq<NodeModel>, at: int, upto: int)
    requires
        0 <= at < g.len(),
        0 <= upto <= g[at].edges.len(),
        all_satisfied(g, g.len() as int),
        scan_nodes(scan_start(g), g, at) == (Scan {
            verdict: Some(true),
            recorded: settle_nodes(own_versions(g, g.len() as int), g, at),
        }),
    ensures
        scan_edges(scan_nodes(scan_start(g), g, at), g[at].edges, upto) == (Scan {
            verdict: Some(true),
            recorded: settle_edges(
                settle_nodes(own_versions(g, g.len() as int), g, at),
                g[at].edges,
                upto,
            ),
        }),
    decreases upto,
{
    if upto > 0 {
        lemma_scan_satisfied_edges(g, at, upto - 1);
        let own = own_versions(g, g.len() as int);
        let entry = settle_nodes(own, g, at);
        let before = settle_edges(entry, g[at].edges, upto - 1);
        let edge = g[at].edges[upto - 1];
        if before.contains_key(edge.1) {
            lemma_settle_edges_keeps(entry, g[at].edges, upto - 1, g[at].edges.len() as int);
            lemma_settle_nodes_keeps(own, g, at + 1, g.len() as int);
            assert(settle_nodes(own, g, at + 1).contains_key(edge.1));
            assert(settled_versions(g)[edge.1] == before[edge.1]);
        }
    }
}

/// While every range admits the settled version of its target, the scan
/// of the first `upto` nodes holds.
proof fn lemma_scan_satisfied_nodes(g: Seq<NodeModel>, upto: int)
    requires
        0 <= upto <= g.len(),
        all_satisfied(g, g.len() as int),
    ensures
        scan_nodes(scan_start(g), g, upto) == (Scan {
            verdict: Some(true),
            recorded: settle_nodes(own_versions(g, g.len() as int), g, upto),
        }),
    decreases upto,
{
    if upto > 0 {
        lemma_scan_satisfied_nodes(g, upto - 1);
        lemma_scan_satisfied_edges(g, upto - 1, g[upto - 1].edges.len() as int);
    }
}

/// Where every declared range admits the version settled on for its target,
/// the versions agree.
pub proof fn lemma_satisfied_ranges_agree(g: Seq<NodeModel>)
    requires
        all_satisfied(g, g.len() as int),
    ensures
        version_verdict(g) == Some(true),
{
    lemma_scan_satisfied_nodes(g, g.len() as int);
}

/// Whether a verdict is asked of edge `k` of node `i`: whether the
/// target of the edge has a settled version when the scan comes to the
/// edge, as a workspace or through an earlier edge.
pub open spec fn is_asked(g: Seq<NodeModel>, i: int, k: int) -> bool {
    settle_edges(
        settle_nodes(own_versions(g, g.len() as int), g, i),
        g[i].edges,
        k,
    ).contains_key(g[i].edges[k].1)
}

/// Whether the range of edge `k` of node `i` admits the version settled on
/// for its target.
pub open spec fn answer(g: Seq<NodeModel>, i: int, k: int) -> Option<bool> {
    satisfies(g[i].edges[k].0, settled_versions(g)[g[i].edges[k].1])
}

/// Whether every edge of which a verdict is asked has one.
pub open spec fn all_answered(g: Seq<NodeModel>) -> bool {
    forall|i: int, k: int|
        0 <= i < g.len() && 0 <= k < g[i].edges.len() && #[trigger] is_asked(g, i, k) ==> answer(
            g,
            i,
            k,
        ) is Some
}

/// Whether none of the asked edges among the first `upto` edges of node `at`
/// refuses.
pub open spec fn none_refused_in(g: Seq<NodeModel>, at: int, upto: int) -> bool {
    forall|k: int| 0 <= k < upto && #[trigger] is_asked(g, at, k) ==> answer(g, at, k) == Some(true)
}

/// Whether none of the asked edges of the first `upto` nodes refuses.
pub open spec fn none_refused(g: Seq<NodeModel>, upto: int) -> bool {
    forall|i: int| 0 <= i < upto ==> #[trigger] none_refused_in(g, i, g[i].edges.len() as int)
}

/// Where every asked edge has a verdict, the scan of the edges of node
/// `at` either holds, with no refusal so far, or has failed on a refusal.
proof fn lemma_scan_answered_edges(g: Seq<NodeModel>, at: int, upto: int)
    requires
        0 <= at < g.len(),
        0 <= upto <= g[at].edges.len(),
        all_answered(g),
        scan_nodes(scan_start(g), g, at) == (Scan {
            verdict: Some(true),
            recorded: settle_nodes(own_versions(g, g.len() as int), g, at),
        }),
    ensures
        ({
            let scan = scan_edges(scan_nodes(scan_start(g), g, at), g[at].edges, upto);
            if none_refused_in(g, at, upto) {
                scan == (Scan {
                    verdict: Some(true),
                    recorded: settle_edges(
                        settle_nodes(own_versions(g, g.len() as int), g, at),
                        g[at].edges,
                        upto,
                    ),
                })
            } else {
                scan.verdict == Some(false)
            }
        }),
    decreases upto,
{
    if upto > 0 {
        lemma_scan_answered_edges(g, at, upto - 1);
        let own = own_versions(g, g.len() as int);
        let entry = settle_nodes(own, g, at);
        let before = settle_edges(entry, g[at].edges, upto - 1);
        let edge = g[at].edges[upto - 1];
        if none_refused_in(g, at, upto - 1) {
            if before.contains_key(edge.1) {
                lemma_settle_edges_keeps(entry, g[at].edges, upto - 1, g[at].edges.len() as int);
                lemma_settle_nodes_keeps(own, g, at + 1, g.len() as int);
                assert(settle_nodes(own, g, at + 1).contains_key(edge.1));
                assert(settled_versions(g)[edge.1] == before[edge.1]);
                assert(is_asked(g, at, upto - 1));
                assert(answer(g, at, upto - 1) is Some);
                if answer(g, at, upto - 1) == Some(true) {
                    assert(none_refused_in(g, at, upto));
                } else {
                    assert(!none_refused_in(g, at, upto));
                }
            } else {
                assert(!is_asked(g, at, upto - 1));
                assert(none_refused_in(g, at, upto));
            }
        } else {
            let k = choose|k: int|
                0 <= k < upto - 1 && #[trigger] is_asked(g, at, k) && answer(g, at, k) != Some(
                    true,
                );
            assert(0 <= k < upto && is_asked(g, at, k) && answer(g, at, k) != Some(true));
        }
    }
}

/// Where every asked edge has a verdict, the scan of the first `upto`
/// nodes either holds, with no refusal so far, or has failed on a refusal.
proof fn lemma_scan_answered_nodes(g: Seq<NodeModel>, upto: int)
    requires
        0 <= upto <= g.len(),
        all_answered(g),
    ensures
        ({
            let scan = scan_nodes(scan_start(g), g, upto);
            if none_refused(g, upto) {
                scan == (Scan {
                    verdict: Some(true),
                    recorded: settle_nodes(own_versions(g, g.len() as int), g, upto),
                })
            } else {
                scan.verdict == Some(false)
            }
        }),
    decreases upto,
{
    if upto > 0 {
        lemma_scan_answered_nodes(g, upto - 1);
        let entry = scan_nodes(scan_start(g), g, upto - 1);
        let edges = g[upto - 1].edges;
        if none_refused(g, upto - 1) {
            lemma_scan_answered_edges(g, upto - 1, edges.len() as int);
            if none_refused_in(g, upto - 1, edges.len() as int) {
                assert(none_refused(g, upto));
            } else {
                assert(!none_refused(g, upto));
            }
        } else {
            let i = choose|i: int|
                0 <= i < upto - 1 && !#[trigger] none_refused_in(g, i, g[i].edges.len() as int);
            assert(0 <= i < upto && !none_refused_in(g, i, g[i].edges.len() as int));
            lemma_edges_stay(entry, edges, 0, edges.len() as int);
        }
    }
}

/// Where every edge of which a verdict is asked has one, the versions agree
/// exactly where no asked edge refuses: one range that refuses the version
/// settled on for its target, by the workspace of that name or by an earlier
/// range, makes the scan fail.
pub proof fn lemma_refusal_decides(g: Seq<NodeModel>)
    requires
        all_answered(g),
    ensures
        version_verdict(g) == Some(none_refused(g, g.len() as int)),
{
    lemma_scan_answered_nodes(g, g.len() as int);
}

impl DepMap {
    /// Each name with its own cleaned version.
    fn record_own_versions(&self) -> (recorded: NameMap<String>)
        ensures
            recorded.wf(),
            recorded.texts_by_key() == own_versions(self@, self@.len() as int),
    {
        let mut recorded: NameMap<String> = NameMap::new();
        assert(recorded.texts_by_key() =~= own_versions(self@, 0));
        let mut i: usize = 0;
        while i < self.nodes.len()
            invariant
                i <= self.nodes.len(),
                recorded.wf(),
                recorded.texts_by_key() == own_versions(self@, i as int),
            decreases self.nodes.len() - i,
        {
            let ghost before = recorded;
            let name = self.nodes[i].name.clone();
            let version = clean_version(&self.nodes[i].version);
            recorded.insert(name, version);
            proof {
                NameMap::lemma_insert_text(before, recorded, name@, version);
                assert(self@[i as int].name == name@);
            }
            i += 1;
        }
        recorded
    }

    /// Checks every declared range against the version settled on for its
    /// target, in the order of the nodes and of their edges, and stops at
    /// the first that fails. With the verdict comes the conflict, where a
    /// range was refused.
    pub fn scan_versions(&self) -> (found: (Option<bool>, Option<VersionConflict>))
        ensures
            found.0 == version_verdict(self@),
            match found.1 {
                Some(conflict) => found.0 == Some(false) && exists|i: int, k: int|
                    #[trigger] is_conflict_at(self@, i, k, conflict@),
                None => found.0 != Some(false),
            },
    {
        let ghost g = self@;
        let ghost start = scan_start(g);
        let mut recorded = self.record_own_versions();
        let mut i: usize = 0;
        while i < self.nodes.len()
            invariant
                i <= self.nodes.len(),
                g == self@,
                start == scan_start(g),
                recorded.wf(),
                scan_nodes(start, g, i as int).verdict == Some(true),
                recorded.texts_by_key() == scan_nodes(start, g, i as int).recorded,
            decreases self.nodes.len() - i,
        {
            let ghost entry = scan_nodes(start, g, i as int);
            let ghost edges = g[i as int].edges;
            let mut k: usize = 0;
            while k < self.nodes[i].edges.len()
                invariant
                    i < self.nodes.len(),
                    k <= self.nodes[i as int].edges.len(),
                    g == self@,
                    start == scan_start(g),
                    entry == scan_nodes(start, g, i as int),
                    edges == g[i as int].edges,
                    recorded.wf(),
                    scan_edges(entry, edges, k as int).verdict == Some(true),
                    recorded.texts_by_key() == scan_edges(entry, edges, k as int).recorded,
                decreases self.nodes[i as int].edges.len() - k,
            {
                let range = &self.nodes[i].edges[k].0;
                let name = &self.nodes[i].edges[k].1;
                assert(edges[k as int] == (range@, name@));
                let ghost now = scan_edges(entry, edges, k as int);
                assert(recorded.has(name@) == now.recorded.contains_key(name@));
                match recorded.get(name) {
                    Some(version) => {
                        assert(version@ == now.recorded[name@]);
                        let verdict = check_range(range, version);
                        match verdict {
                            Some(true) => {},
                            _ => {
                                proof {
                                    lemma_edges_stay(entry, edges, k + 1, edges.len() as int);
                                    lemma_nodes_stay(start, g, i + 1, g.len() as int);
                                }
                                let conflict = match verdict {
                                    Some(false) => Some(
                                        VersionConflict {
                                            workspace: self.nodes[i].name.clone(),
                                            dependency: name.clone(),
                                            range: range.clone(),
                                            version: version.clone(),
                                        },
                                    ),
                                    _ => None,
                                };
                                proof {
                                    if verdict == Some(false) {
                                        assert(is_conflict_at(g, i as int, k as int, conflict->0@));
                                    }
                                }
                                return (verdict, conflict);
                            },
                        }
                    },
                    None => {
                        let ghost before = recorded;
                        let anchor = clean_version(range);
                        recorded.insert(name.clone(), anchor);
                        proof {
                            NameMap::lemma_insert_text(before, recorded, name@, anchor);
                        }
                    },
                }
                k += 1;
            }
            i += 1;
        }
        (Some(true), None)
    }

    /// Whether every declared range admits the version settled on for its
    /// target; `None` where a range or a version that has to be read cannot
    /// be.
    pub fn check_versions(&self) -> (verdict: Option<bool>)
        ensures
            verdict == version_verdict(self@),
    {
        self.scan_versions().0
    }
}

} // verus!
