//! Dependency order: a depth-first search that finishes each name after
//! whatever it depends on, and reports a cycle where there is no such order.

use crate::dep_map::has_node;
use crate::dep_map::lemma_node_place;
use crate::dep_map::linked;
use crate::dep_map::names_distinct;
use crate::dep_map::node_place;
use crate::dep_map::DepMap;
use crate::dep_map::NodeModel;
use crate::text::contains_text;
use crate::text::lemma_distinct_members_bounded;
use crate::text::lemma_texts_push;
use crate::text::position;
use crate::text::texts;
use crate::text::Text;
use vstd::prelude::*;

verus! {

/// Each step of `walk` follows an edge of `g`.
pub open spec fn is_walk(g: Seq<NodeModel>, walk: Seq<Text>) -> bool {
    forall|i: int| 0 <= i < walk.len() - 1 ==> linked(g, #[trigger] walk[i], walk[i + 1])
}

/// `walk` follows edges of `g` through members of `within` and ends where it
/// began.
pub open spec fn is_cycle_in(g: Seq<NodeModel>, within: Set<Text>, walk: Seq<Text>) -> bool {
    &&& walk.len() >= 2
    &&& walk.first() == walk.last()
    &&& is_walk(g, walk)
    &&& forall|i: int| 0 <= i < walk.len() ==> within.contains(#[trigger] walk[i])
}

/// Whether `walk` meets no name twice but the one it begins and ends with.
pub open spec fn is_simple(walk: Seq<Text>) -> bool {
    walk.drop_last().no_duplicates()
}

/// Whether the part of `g` that lies in `within` holds a cycle.
pub open spec fn cyclic(g: Seq<NodeModel>, within: Set<Text>) -> bool {
    exists|walk: Seq<Text>| is_cycle_in(g, within, walk)
}

/// `order` lists each member of `within` once, and whatever a member is linked
/// to in `g` comes before it.
pub open spec fn is_order_of(g: Seq<NodeModel>, within: Set<Text>, order: Seq<Text>) -> bool {
    &&& order.no_duplicates()
    &&& forall|name: Text| order.contains(name) <==> within.contains(name)
    &&& forall|i: int, j: int|
        0 <= i < order.len() && 0 <= j < order.len() && #[trigger] linked(g, order[j], order[i])
            ==> i < j
}

/// A cycle found in the graph: the names along it, from the name that was met
/// twice back to itself.
#[derive(Debug)]
pub struct CycleError {
    pub path: Vec<String>,
}

/// Whether `name` stands in `sorted` before place `before`.
pub open spec fn placed_before(sorted: Seq<Text>, before: int, name: Text) -> bool {
    exists|i: int| 0 <= i < before && sorted[i] == name
}

/// What holds between two steps of the depth-first search: `sorted` is a
/// valid order of the names finished so far, and `path` is the chain of names
/// that are being visited, none of them finished.
pub open spec fn search_inv(
    g: Seq<NodeModel>,
    pool: Seq<Text>,
    sorted: Seq<Text>,
    path: Seq<Text>,
) -> bool {
    &&& names_distinct(g)
    &&& sorted.no_duplicates()
    &&& forall|i: int| 0 <= i < sorted.len() ==> pool.contains(#[trigger] sorted[i])
    &&& forall|j: int, to: Text|
        0 <= j < sorted.len() && pool.contains(to) && #[trigger] linked(g, sorted[j], to)
            ==> placed_before(sorted, j, to)
    &&& path.no_duplicates()
    &&& forall|i: int| 0 <= i < path.len() ==> pool.contains(#[trigger] path[i])
    &&& forall|i: int| 0 <= i < path.len() ==> !sorted.contains(#[trigger] path[i])
    &&& is_walk(g, path)
}

/// The state of a depth-first search: the names finished so far, in the
/// order in which they were finished; the chain of names that are being
/// visited; and the cycle, once one was met.
pub struct Search {
    pub sorted: Seq<Text>,
    pub path: Seq<Text>,
    pub cycle: Option<Seq<Text>>,
}

/// A place at which `name` stands in `list`.
pub open spec fn place_in(list: Seq<Text>, name: Text) -> int {
    choose|i: int| 0 <= i < list.len() && list[i] == name
}

/// The search after a visit to `cur`. A name that is being visited already
/// closes a cycle: the chain from that name on, and the name again. Any
/// other name is visited after the names its edges lead to, in the order of
/// the edges, and then finished. After a cycle nothing changes. `fuel`
/// bounds the depth of the search.
pub open spec fn visit_model(
    g: Seq<NodeModel>,
    pool: Seq<Text>,
    cur: Text,
    search: Search,
    fuel: nat,
) -> Search
    decreases fuel, 0int,
{
    if search.cycle is Some {
        search
    } else if search.path.contains(cur) {
        Search {
            sorted: search.sorted,
            path: search.path,
            cycle: Some(
                search.path.subrange(place_in(search.path, cur), search.path.len() as int).push(
                    cur,
                ),
            ),
        }
    } else if fuel == 0 {
        search
    } else {
        let entered = Search { sorted: search.sorted, path: search.path.push(cur), cycle: None };
        let after = if has_node(g, cur) {
            visit_edges_model(g, pool, node_place(g, cur), 0, entered, (fuel - 1) as nat)
        } else {
            entered
        };
        if after.cycle is Some {
            after
        } else {
            Search { sorted: after.sorted.push(cur), path: after.path.drop_last(), cycle: None }
        }
    }
}

/// The search after the visits that the edges of node `at` from edge `k` on
/// ask for: to each name that is a member of `pool` and not yet finished.
pub open spec fn visit_edges_model(
    g: Seq<NodeModel>,
    pool: Seq<Text>,
    at: int,
    k: int,
    search: Search,
    fuel: nat,
) -> Search
    decreases fuel, g[at].edges.len() - k + 1,
{
    if k < 0 || k >= g[at].edges.len() || search.cycle is Some {
        search
    } else {
        let next = g[at].edges[k].1;
        let after = if pool.contains(next) && !search.sorted.contains(next) {
            visit_model(g, pool, next, search, fuel)
        } else {
            search
        };
        visit_edges_model(g, pool, at, k + 1, after, fuel)
    }
}

/// The search after the visits that the first `upto` members of `pool` ask
/// for: to each that is not yet finished.
pub open spec fn search_upto(g: Seq<NodeModel>, pool: Seq<Text>, upto: int) -> Search
    decreases upto,
{
    if upto <= 0 {
        Search { sorted: Seq::empty(), path: Seq::empty(), cycle: None }
    } else {
        let before = search_upto(g, pool, upto - 1);
        if before.cycle is Some || before.sorted.contains(pool[upto - 1]) {
            before
        } else {
            visit_model(g, pool, pool[upto - 1], before, pool.len())
        }
    }
}

/// What the depth-first search through the members of `pool` finds, taking
/// the members in their order and the edges of each node in theirs: the
/// members in the order in which they are finished, or the first cycle met.
pub open spec fn dependency_order(g: Seq<NodeModel>, pool: Seq<Text>) -> Result<
    Seq<Text>,
    Seq<Text>,
> {
    let end = search_upto(g, pool, pool.len() as int);
    match end.cycle {
        Some(cycle) => Err(cycle),
        None => Ok(end.sorted),
    }
}

/// A search that has met a cycle stays as it is.
proof fn lemma_search_stays(g: Seq<NodeModel>, pool: Seq<Text>, lo: int, hi: int)
    requires
        0 <= lo <= hi,
        search_upto(g, pool, lo).cycle is Some,
    ensures
        search_upto(g, pool, hi) == search_upto(g, pool, lo),
    decreases hi - lo,
{
    if hi > lo {
        lemma_search_stays(g, pool, lo, hi - 1);
    }
}

/// The names from place `from` of `path` on, then `last`.
fn cycle_from(path: &Vec<String>, from: usize, last: &String) -> (cycle: Vec<String>)
    requires
        from < path.len(),
    ensures
        texts(cycle@) == texts(path@).subrange(from as int, path.len() as int).push(last@),
{
    let mut cycle: Vec<String> = Vec::new();
    let mut i: usize = from;
    while i < path.len()
        invariant
            from <= i <= path.len(),
            texts(cycle@) == texts(path@).subrange(from as int, i as int),
        decreases path.len() - i,
    {
        proof {
            lemma_texts_push(cycle@, path[i as int]);
            assert(texts(path@).subrange(from as int, i as int).push(path[i as int]@)
                =~= texts(path@).subrange(from as int, i + 1));
        }
        cycle.push(path[i].clone());
        i += 1;
    }
    proof {
        lemma_texts_push(cycle@, *last);
    }
    cycle.push(last.clone());
    cycle
}

/// Visits `cur` and, before it, whatever it is linked to inside `subset` and
/// not yet finished; then `cur` is finished. Meeting a name of `path` again
/// is a cycle.
fn visit(
    graph: &DepMap,
    subset: &Vec<String>,
    cur: &String,
    sorted: &mut Vec<String>,
    path: &mut Vec<String>,
    Ghost(fuel): Ghost<nat>,
) -> (result: Result<(), CycleError>)
    requires
        search_inv(graph@, texts(subset@), texts(old(sorted)@), texts(old(path)@)),
        texts(subset@).contains(cur@),
        !texts(old(sorted)@).contains(cur@),
        old(path)@.len() > 0 ==> linked(graph@, texts(old(path)@).last(), cur@),
        fuel + old(path)@.len() >= texts(subset@).to_set().len(),
    ensures
        ({
            let before = Search {
                sorted: texts(old(sorted)@),
                path: texts(old(path)@),
                cycle: None,
            };
            let model = visit_model(graph@, texts(subset@), cur@, before, fuel);
            match result {
                Ok(()) => model == (Search {
                    sorted: texts(final(sorted)@),
                    path: texts(final(path)@),
                    cycle: None,
                }),
                Err(e) => model.cycle == Some(texts(e.path@)),
            }
        }),
        match result {
            Ok(()) => {
                &&& final(path)@ == old(path)@
                &&& search_inv(
                    graph@,
                    texts(subset@),
                    texts(final(sorted)@),
                    texts(final(path)@),
                )
                &&& forall|name: Text|
                    texts(old(sorted)@).contains(name) ==> texts(final(sorted)@).contains(name)
                &&& texts(final(sorted)@).contains(cur@)
            },
            Err(e) => is_cycle_in(graph@, texts(subset@).to_set(), texts(e.path@)) && is_simple(
                texts(e.path@),
            ),
        },
    decreases texts(subset@).to_set().len() - old(path)@.len(),
{
    let ghost g = graph@;
    let ghost pool = texts(subset@);
    let ghost sorted0 = texts(sorted@);
    let ghost path0 = texts(path@);
    let ghost before = Search { sorted: sorted0, path: path0, cycle: None };
    match position(path, cur) {
        Some(at) => {
            let cycle = cycle_from(path, at, cur);
            proof {
                assert(path0[at as int] == cur@);
                let place = place_in(path0, cur@);
                assert(0 <= place < path0.len() && path0[place] == cur@);
                assert(place == at);
                let walk = texts(cycle@);
                assert(walk.first() == path0[at as int]);
                assert(walk.drop_last() =~= path0.subrange(at as int, path0.len() as int));
                assert forall|i: int| 0 <= i < walk.len() - 1 implies linked(
                    g,
                    #[trigger] walk[i],
                    walk[i + 1],
                ) by {
                    if i < walk.len() - 2 {
                        assert(walk[i] == path0[at + i]);
                        assert(walk[i + 1] == path0[at + i + 1]);
                    } else {
                        assert(walk[i] == path0.last());
                    }
                }
                assert forall|i: int| 0 <= i < walk.len() implies pool.to_set().contains(
                    #[trigger] walk[i],
                ) by {
                    if i < walk.len() - 1 {
                        assert(walk[i] == path0[at + i]);
                    }
                }
            }
            return Err(CycleError { path: cycle });
        },
        None => {},
    }
    proof {
        lemma_texts_push(path@, *cur);
    }
    path.push(cur.clone());
    let ghost pushed = path@;
    let ghost path1 = texts(path@);
    proof {
        assert(path1 == path0.push(cur@));
        assert(path1.no_duplicates());
        assert(is_walk(g, path1)) by {
            assert forall|i: int| 0 <= i < path1.len() - 1 implies linked(
                g,
                #[trigger] path1[i],
                path1[i + 1],
            ) by {
                if i < path0.len() - 1 {
                    assert(path1[i] == path0[i]);
                    assert(path1[i + 1] == path0[i + 1]);
                }
            }
        }
        assert(search_inv(g, pool, sorted0, path1));
        lemma_distinct_members_bounded(path1, pool);
        assert(path1.len() == path0.len() + 1);
        assert(fuel >= 1);
    }
    let ghost entered = Search { sorted: sorted0, path: path1, cycle: None };
    match graph.find(cur) {
        Some(at) => {
            proof {
                lemma_node_place(g, at as int);
            }
            let mut k: usize = 0;
            while k < graph.nodes[at].edges.len()
                invariant
                    at < graph.nodes.len(),
                    fuel >= 1,
                    fuel + old(path)@.len() >= pool.to_set().len(),
                    sorted0 == texts(old(sorted)@),
                    path0 == texts(old(path)@),
                    before == (Search { sorted: sorted0, path: path0, cycle: None }),
                    entered == (Search { sorted: sorted0, path: path1, cycle: None }),
                    !path0.contains(cur@),
                    has_node(g, cur@),
                    node_place(g, cur@) == at,
                    visit_edges_model(
                        g,
                        pool,
                        at as int,
                        k as int,
                        Search { sorted: texts(sorted@), path: path1, cycle: None },
                        (fuel - 1) as nat,
                    ) == visit_edges_model(g, pool, at as int, 0, entered, (fuel - 1) as nat),
                    g == graph@,
                    pool == texts(subset@),
                    path@ == pushed,
                    pushed.len() == old(path)@.len() + 1,
                    path1 == texts(pushed),
                    path1 == path0.push(cur@),
                    g[at as int].name == cur@,
                    k <= graph.nodes[at as int].edges.len(),
                    search_inv(g, pool, texts(sorted@), path1),
                    path1.len() <= pool.to_set().len(),
                    forall|name: Text|
                        sorted0.contains(name) ==> texts(sorted@).contains(name),
                    forall|m: int|
                        0 <= m < k && pool.contains(g[at as int].edges[m].1) ==> texts(
                            sorted@,
                        ).contains(#[trigger] g[at as int].edges[m].1),
                decreases graph.nodes[at as int].edges.len() - k,
            {
                let next = &graph.nodes[at].edges[k].1;
                let ghost now = Search { sorted: texts(sorted@), path: path1, cycle: None };
                let ghost rest = (fuel - 1) as nat;
                assert(next@ == g[at as int].edges[k as int].1);
                if contains_text(subset, next) && !contains_text(sorted, next) {
                    proof {
                        assert(linked(g, cur@, next@));
                        assert(path1.last() == cur@);
                        assert(path1.len() == pushed.len());
                    }
                    match visit(graph, subset, next, sorted, path, Ghost(rest)) {
                        Ok(()) => {
                            proof {
                                let after = Search {
                                    sorted: texts(sorted@),
                                    path: path1,
                                    cycle: None,
                                };
                                assert(visit_model(g, pool, next@, now, rest) == after);
                                assert(visit_edges_model(g, pool, at as int, k as int, now, rest)
                                    == visit_edges_model(g, pool, at as int, k + 1, after, rest));
                            }
                        },
                        Err(e) => {
                            proof {
                                let after = visit_model(g, pool, next@, now, rest);
                                assert(after.cycle == Some(texts(e.path@)));
                                assert(visit_edges_model(g, pool, at as int, k as int, now, rest)
                                    == visit_edges_model(g, pool, at as int, k + 1, after, rest));
                                assert(visit_edges_model(g, pool, at as int, k + 1, after, rest)
                                    == after);
                                assert(visit_model(g, pool, cur@, before, fuel) == after);
                            }
                            return Err(e);
                        },
                    }
                } else {
                    proof {
                        assert(visit_edges_model(g, pool, at as int, k as int, now, rest)
                            == visit_edges_model(g, pool, at as int, k + 1, now, rest));
                    }
                }
                k += 1;
            }
            proof {
                let now = Search { sorted: texts(sorted@), path: path1, cycle: None };
                assert(visit_edges_model(g, pool, at as int, k as int, now, (fuel - 1) as nat)
                    == now);
            }
        },
        None => {},
    }
    let ghost sorted1 = texts(sorted@);
    proof {
        assert(path@ == pushed);
        assert(pushed.subrange(0, pushed.len() - 1) =~= old(path)@);
        lemma_texts_push(sorted@, *cur);
        assert(path1.last() == cur@);
        assert(!sorted1.contains(cur@));
    }
    path.pop();
    sorted.push(cur.clone());
    proof {
        let sorted2 = texts(sorted@);
        assert(sorted2 == sorted1.push(cur@));
        assert(path@ == old(path)@);
        assert(path1.drop_last() =~= path0);
        assert(visit_model(g, pool, cur@, before, fuel) == (Search {
            sorted: sorted2,
            path: path0,
            cycle: None,
        }));
        assert(sorted2[sorted1.len() as int] == cur@);
        assert forall|name: Text| sorted1.contains(name) implies sorted2.contains(name) by {
            let i = choose|i: int| 0 <= i < sorted1.len() && sorted1[i] == name;
            assert(sorted2[i] == name);
        }
        assert forall|j: int, to: Text|
            0 <= j < sorted2.len() && pool.contains(to) && #[trigger] linked(
                g,
                sorted2[j],
                to,
            ) implies placed_before(sorted2, j, to) by {
            if j < sorted1.len() {
                assert(sorted2[j] == sorted1[j]);
                assert(placed_before(sorted1, j, to));
                let i = choose|i: int| 0 <= i < j && sorted1[i] == to;
                assert(sorted2[i] == to);
            } else {
                let (n, e) = choose|n: int, e: int|
                    0 <= n < g.len() && 0 <= e < g[n].edges.len() && g[n].name == cur@ && (
                    #[trigger] g[n].edges[e]).1 == to;
                assert(has_node(g, cur@));
                assert(sorted1.contains(to));
                let i = choose|i: int| 0 <= i < sorted1.len() && sorted1[i] == to;
                assert(sorted2[i] == to);
            }
        }
        assert forall|i: int| 0 <= i < path0.len() implies !sorted2.contains(
            #[trigger] path0[i],
        ) by {
            assert(path1[i] == path0[i]);
            assert(!sorted1.contains(path1[i]));
            if sorted2.contains(path0[i]) {
                let m = choose|m: int| 0 <= m < sorted2.len() && sorted2[m] == path0[i];
                if m < sorted1.len() {
                    assert(sorted1[m] == path0[i]);
                }
            }
        }
        assert(is_walk(g, path0));
        assert(search_inv(g, pool, sorted2, path0));
    }
    Ok(())
}

/// Along a walk through an ordered set each name stands before the one
/// the walk began with.
proof fn lemma_walk_descends(
    g: Seq<NodeModel>,
    within: Set<Text>,
    order: Seq<Text>,
    walk: Seq<Text>,
    upto: int,
)
    requires
        is_order_of(g, within, order),
        is_walk(g, walk),
        forall|i: int| 0 <= i < walk.len() ==> within.contains(#[trigger] walk[i]),
        1 <= upto < walk.len(),
    ensures
        exists|i: int, j: int|
            0 <= i < j < order.len() && order[i] == walk[upto] && order[j] == walk[0],
    decreases upto,
{
    assert(order.contains(walk[upto]));
    assert(order.contains(walk[upto - 1]));
    let i = choose|i: int| 0 <= i < order.len() && order[i] == walk[upto];
    let m = choose|m: int| 0 <= m < order.len() && order[m] == walk[upto - 1];
    assert(linked(g, walk[upto - 1], walk[upto - 1 + 1]));
    assert(linked(g, order[m], order[i]));
    if upto == 1 {
        assert(0 <= i < m < order.len() && order[i] == walk[upto] && order[m] == walk[0]);
    } else {
        lemma_walk_descends(g, within, order, walk, upto - 1);
        let (a, b) = choose|a: int, b: int|
            0 <= a < b < order.len() && order[a] == walk[upto - 1] && order[b] == walk[0];
        assert(a == m);
        assert(0 <= i < b < order.len() && order[i] == walk[upto] && order[b] == walk[0]);
    }
}

/// A set of names that can be put in dependency order holds no cycle.
pub proof fn lemma_ordered_is_acyclic(g: Seq<NodeModel>, within: Set<Text>, order: Seq<Text>)
    requires
        is_order_of(g, within, order),
    ensures
        !cyclic(g, within),
{
    if cyclic(g, within) {
        let walk = choose|walk: Seq<Text>| is_cycle_in(g, within, walk);
        lemma_walk_descends(g, within, order, walk, walk.len() - 1);
        let (i, j) = choose|i: int, j: int|
            0 <= i < j < order.len() && order[i] == walk[walk.len() - 1] && order[j] == walk[0];
        assert(order[i] == order[j]);
    }
}

/// Two names that depend on each other form a cycle, so the set that holds
/// both has no dependency order.
pub proof fn lemma_mutual_dependency_is_cyclic(
    g: Seq<NodeModel>,
    within: Set<Text>,
    a: Text,
    b: Text,
)
    requires
        within.contains(a),
        within.contains(b),
        linked(g, a, b),
        linked(g, b, a),
    ensures
        cyclic(g, within),
{
    let walk = seq![a, b, a];
    assert forall|i: int| 0 <= i < walk.len() - 1 implies linked(g, #[trigger] walk[i], walk[i + 1]) by {
        if i == 0 {
            assert(walk[0] == a && walk[1] == b);
        } else {
            assert(walk[1] == b && walk[2] == a);
        }
    }
    assert(is_cycle_in(g, within, walk));
}

/// Where the mutual dependency of `a` and `b` is the only simple cycle inside
/// `within`, a reported cycle holds `a` and `b` side by side: it runs from
/// the one over the other back to the first.
pub proof fn lemma_only_cycle_is_reported(
    g: Seq<NodeModel>,
    within: Set<Text>,
    a: Text,
    b: Text,
    path: Seq<Text>,
)
    requires
        is_cycle_in(g, within, path),
        is_simple(path),
        forall|other: Seq<Text>|
            #[trigger] is_cycle_in(g, within, other) && is_simple(other) ==> other == seq![a, b, a]
                || other == seq![b, a, b],
    ensures
        path == seq![a, b, a] || path == seq![b, a, b],
        exists|i: int|
            0 <= i < path.len() - 1 && ((#[trigger] path[i] == a && path[i + 1] == b) || (path[i]
                == b && path[i + 1] == a)),
{
    assert(0 <= 0 < path.len() - 1 && ((path[0] == a && path[1] == b) || (path[0] == b && path[1]
        == a)));
}

impl DepMap {
    /// The members of `subset` in dependency order: each once, and whatever
    /// a member depends on inside `subset` before it. Where the part of the
    /// graph inside `subset` holds a cycle there is no such order, and the
    /// cycle that the search meets first is reported. The search takes the
    /// members of `subset` in their order and the edges of each node in
    /// theirs.
    pub fn topological_order(&self, subset: &Vec<String>) -> (result: Result<
        Vec<String>,
        CycleError,
    >)
        requires
            names_distinct(self@),
        ensures
            match result {
                Ok(order) => {
                    &&& dependency_order(self@, texts(subset@)) == Ok::<Seq<Text>, Seq<Text>>(
                        texts(order@),
                    )
                    &&& is_order_of(self@, texts(subset@).to_set(), texts(order@))
                },
                Err(e) => {
                    &&& dependency_order(self@, texts(subset@)) == Err::<Seq<Text>, Seq<Text>>(
                        texts(e.path@),
                    )
                    &&& is_cycle_in(self@, texts(subset@).to_set(), texts(e.path@))
                    &&& is_simple(texts(e.path@))
                },
            },
            result is Err <==> cyclic(self@, texts(subset@).to_set()),
    {
        let ghost g = self@;
        let ghost pool = texts(subset@);
        let mut sorted: Vec<String> = Vec::new();
        let mut path: Vec<String> = Vec::new();
        let mut i: usize = 0;
        proof {
            lemma_distinct_members_bounded(Seq::<Text>::empty(), pool);
            assert(texts(sorted@) =~= Seq::<Text>::empty());
            assert(texts(path@) =~= Seq::<Text>::empty());
        }
        while i < subset.len()
            invariant
                i <= subset.len(),
                g == self@,
                pool == texts(subset@),
                path@.len() == 0,
                pool.to_set().len() <= pool.len(),
                search_inv(g, pool, texts(sorted@), texts(path@)),
                forall|m: int| 0 <= m < i ==> texts(sorted@).contains(#[trigger] pool[m]),
                search_upto(g, pool, i as int) == (Search {
                    sorted: texts(sorted@),
                    path: Seq::empty(),
                    cycle: None,
                }),
            decreases subset.len() - i,
        {
            assert(pool[i as int] == subset[i as int]@);
            assert(texts(path@) =~= Seq::<Text>::empty());
            if !contains_text(&sorted, &subset[i]) {
                match visit(self, subset, &subset[i], &mut sorted, &mut path, Ghost(pool.len())) {
                    Ok(()) => {
                        assert(texts(path@) =~= Seq::<Text>::empty());
                    },
                    Err(e) => {
                        proof {
                            assert(cyclic(g, pool.to_set()));
                            lemma_search_stays(g, pool, i + 1, pool.len() as int);
                        }
                        return Err(e);
                    },
                }
            }
            i += 1;
        }
        proof {
            let order = texts(sorted@);
            assert forall|name: Text| order.contains(name) <==> pool.to_set().contains(
                name,
            ) by {
                if order.contains(name) {
                    let m = choose|m: int| 0 <= m < order.len() && order[m] == name;
                    assert(pool.contains(order[m]));
                }
                if pool.contains(name) {
                    let m = choose|m: int| 0 <= m < pool.len() && pool[m] == name;
                    assert(order.contains(pool[m]));
                }
            }
            assert forall|a: int, b: int|
                0 <= a < order.len() && 0 <= b < order.len() && #[trigger] linked(
                    g,
                    order[b],
                    order[a],
                ) implies a < b by {
                assert(pool.contains(order[a]));
                assert(placed_before(order, b, order[a]));
            }
            lemma_ordered_is_acyclic(g, pool.to_set(), order);
        }
        Ok(sorted)
    }
}

} // verus!
