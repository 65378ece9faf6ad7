//! What a change reaches: the names that a set of changed names leads to
//! along the edges of a graph.

use crate::dep_map::DepMap;
use crate::dep_map::NodeModel;
use crate::dep_map::has_node;
use crate::dep_map::lemma_node_place;
use crate::dep_map::linked;
use crate::dep_map::names_distinct;
use crate::dep_map::node_place;
use crate::order::is_walk;
use crate::text::Text;
use crate::text::contains_text;
use crate::text::first_occurrences;
use crate::text::lemma_distinct_members_bounded;
use crate::text::lemma_texts_push;
use crate::text::texts;
use vstd::prelude::*;

verus! {

/// Whether a walk along the edges of `g` leads from one of `seeds` to
/// `name`. Each seed is reached from itself.
pub open spec fn reached_from(g: Seq<NodeModel>, seeds: Seq<Text>, name: Text) -> bool {
    exists|walk: Seq<Text>|
        walk.len() >= 1 && seeds.contains(walk.first()) && walk.last() == name && #[trigger] is_walk(
            g,
            walk,
        )
}

/// The names that `seeds` reach in `g`.
pub open spec fn reach_of(g: Seq<NodeModel>, seeds: Seq<Text>) -> Set<Text> {
    Set::new(|name: Text| reached_from(g, seeds, name))
}

/// The far ends of all edges of the first `upto` nodes.
pub open spec fn far_ends(g: Seq<NodeModel>, upto: int) -> Seq<Text>
    decreases upto,
{
    if upto <= 0 {
        Seq::empty()
    } else {
        far_ends(g, upto - 1) + Seq::new(
            g[upto - 1].edges.len(),
            |k: int| g[upto - 1].edges[k].1,
        )
    }
}

/// `found` with the far ends of the first `upto` of `edges` that it does not
/// hold yet, in the order of the edges.
pub open spec fn with_far_ends(found: Seq<Text>, edges: Seq<(Text, Text)>, upto: int) -> Seq<Text>
    decreases upto,
{
    if upto <= 0 {
        found
    } else {
        let before = with_far_ends(found, edges, upto - 1);
        if before.contains(edges[upto - 1].1) {
            before
        } else {
            before.push(edges[upto - 1].1)
        }
    }
}

/// The names found when the search goes on from place `head` of `found`:
/// each name in turn brings in the far ends of its edges that are new.
/// `fuel` bounds the number of names that are looked at.
pub open spec fn reach_model(g: Seq<NodeModel>, found: Seq<Text>, head: int, fuel: nat) -> Seq<Text>
    decreases fuel,
{
    if fuel == 0 || head < 0 || head >= found.len() {
        found
    } else {
        let grown = if has_node(g, found[head]) {
            let edges = g[node_place(g, found[head])].edges;
            with_far_ends(found, edges, edges.len() as int)
        } else {
            found
        };
        reach_model(g, grown, head + 1, (fuel - 1) as nat)
    }
}

/// The names that `seeds` reach in `g`, in the order in which a search
/// finds them that begins with the seeds and takes the names as they come,
/// and the edges of each in their order.
pub open spec fn reached(g: Seq<NodeModel>, seeds: Seq<Text>) -> Seq<Text> {
    reach_model(
        g,
        first_occurrences(seeds, seeds.len() as int),
        0,
        (seeds.len() + far_ends(g, g.len() as int).len()) as nat,
    )
}

/// Whatever `g` links to is among its far ends.
proof fn lemma_far_ends(g: Seq<NodeModel>, upto: int, at: int, k: int)
    requires
        0 <= at < upto <= g.len(),
        0 <= k < g[at].edges.len(),
    ensures
        far_ends(g, upto).contains(g[at].edges[k].1),
    decreases upto,
{
    let last = Seq::new(g[upto - 1].edges.len(), |k: int| g[upto - 1].edges[k].1);
    let rest = far_ends(g, upto - 1);
    if at == upto - 1 {
        assert(last[k] == g[at].edges[k].1);
        assert((rest + last)[rest.len() + k] == g[at].edges[k].1);
    } else {
        lemma_far_ends(g, upto - 1, at, k);
        let m = choose|m: int| 0 <= m < rest.len() && rest[m] == g[at].edges[k].1;
        assert((rest + last)[m] == g[at].edges[k].1);
    }
}

/// A seed is reached.
pub proof fn lemma_seed_reached(g: Seq<NodeModel>, seeds: Seq<Text>, seed: Text)
    requires
        seeds.contains(seed),
    ensures
        reached_from(g, seeds, seed),
{
    let walk = seq![seed];
    assert(is_walk(g, walk));
    assert(walk.len() >= 1 && seeds.contains(walk.first()) && walk.last() == seed);
}

/// What a reached name links to is reached.
proof fn lemma_reach_step(g: Seq<NodeModel>, seeds: Seq<Text>, from: Text, to: Text)
    requires
        reached_from(g, seeds, from),
        linked(g, from, to),
    ensures
        reached_from(g, seeds, to),
{
    let walk = choose|walk: Seq<Text>|
        walk.len() >= 1 && seeds.contains(walk.first()) && walk.last() == from && #[trigger] is_walk(
            g,
            walk,
        );
    let longer = walk.push(to);
    assert forall|i: int| 0 <= i < longer.len() - 1 implies linked(
        g,
        #[trigger] longer[i],
        longer[i + 1],
    ) by {
        if i < walk.len() - 1 {
            assert(longer[i] == walk[i]);
            assert(longer[i + 1] == walk[i + 1]);
        }
    }
    assert(is_walk(g, longer));
    assert(longer.first() == walk.first());
    assert(longer.len() >= 1 && seeds.contains(longer.first()) && longer.last() == to);
}

/// A set that holds the start of a walk and, with each name, what the name
/// links to, holds the whole walk.
proof fn lemma_closed_holds_walk(g: Seq<NodeModel>, found: Seq<Text>, walk: Seq<Text>, upto: int)
    requires
        is_walk(g, walk),
        0 <= upto < walk.len(),
        found.contains(walk[0]),
        forall|i: int, to: Text|
            0 <= i < found.len() && #[trigger] linked(g, found[i], to) ==> found.contains(to),
    ensures
        found.contains(walk[upto]),
    decreases upto,
{
    if upto > 0 {
        lemma_closed_holds_walk(g, found, walk, upto - 1);
        let i = choose|i: int| 0 <= i < found.len() && found[i] == walk[upto - 1];
        assert(linked(g, walk[upto - 1], walk[upto - 1 + 1]));
        assert(linked(g, found[i], walk[upto]));
    }
}

/// The seeds, each once, in the order of their first occurrence.
fn distinct_seeds(seeds: &Vec<String>) -> (found: Vec<String>)
    ensures
        texts(found@) == first_occurrences(texts(seeds@), seeds@.len() as int),
        texts(found@).no_duplicates(),
        forall|i: int| 0 <= i < found@.len() ==> texts(seeds@).contains(#[trigger] texts(found@)[i]),
        forall|i: int| 0 <= i < seeds@.len() ==> texts(found@).contains(#[trigger] texts(seeds@)[i]),
{
    let mut found: Vec<String> = Vec::new();
    let mut i: usize = 0;
    assert(texts(found@) =~= first_occurrences(texts(seeds@), 0));
    while i < seeds.len()
        invariant
            i <= seeds.len(),
            texts(found@) == first_occurrences(texts(seeds@), i as int),
            texts(found@).no_duplicates(),
            forall|m: int|
                0 <= m < found@.len() ==> texts(seeds@).contains(#[trigger] texts(found@)[m]),
            forall|m: int| 0 <= m < i ==> texts(found@).contains(#[trigger] texts(seeds@)[m]),
        decreases seeds.len() - i,
    {
        let ghost before = texts(found@);
        assert(texts(seeds@)[i as int] == seeds[i as int]@);
        if !contains_text(&found, &seeds[i]) {
            proof {
                lemma_texts_push(found@, seeds[i as int]);
            }
            found.push(seeds[i].clone());
        }
        proof {
            let after = texts(found@);
            assert forall|m: int| 0 <= m < i + 1 implies after.contains(
                #[trigger] texts(seeds@)[m],
            ) by {
                if m < i {
                    let at = choose|at: int| 0 <= at < before.len() && before[at] == texts(seeds@)[m];
                    assert(after[at] == texts(seeds@)[m]);
                } else if after.len() > before.len() {
                    assert(after[before.len() as int] == texts(seeds@)[m]);
                }
            }
        }
        i += 1;
    }
    found
}

impl DepMap {
    /// The names that `seeds` reach along the edges of this map, the seeds
    /// among them, each once, in the order in which the search finds them.
    pub fn reach(&self, seeds: &Vec<String>) -> (found: Vec<String>)
        requires
            names_distinct(self@),
        ensures
            texts(found@) == reached(self@, texts(seeds@)),
            texts(found@).no_duplicates(),
            texts(found@).to_set() == reach_of(self@, texts(seeds@)),
    {
        let ghost g = self@;
        let ghost from = texts(seeds@);
        let ghost pool = from + far_ends(g, g.len() as int);
        let mut found = distinct_seeds(seeds);
        proof {
            assert forall|i: int| 0 <= i < found@.len() implies reached_from(
                g,
                from,
                #[trigger] texts(found@)[i],
            ) by {
                lemma_seed_reached(g, from, texts(found@)[i]);
            }
            assert forall|i: int| 0 <= i < found@.len() implies pool.contains(
                #[trigger] texts(found@)[i],
            ) by {
                let m = choose|m: int| 0 <= m < from.len() && from[m] == texts(found@)[i];
                assert(pool[m] == from[m]);
            }
        }
        proof {
            lemma_distinct_members_bounded(texts(found@), pool);
            assert(texts(found@).len() == found@.len());
            assert(pool.len() == from.len() + far_ends(g, g.len() as int).len());
        }
        let mut head: usize = 0;
        while head < found.len()
            invariant
                g == self@,
                names_distinct(g),
                from == texts(seeds@),
                pool == from + far_ends(g, g.len() as int),
                head <= found@.len(),
                found@.len() <= pool.len(),
                reach_model(g, texts(found@), head as int, (pool.len() - head) as nat) == reached(
                    g,
                    from,
                ),
                texts(found@).no_duplicates(),
                forall|i: int|
                    0 <= i < found@.len() ==> reached_from(g, from, #[trigger] texts(found@)[i]),
                forall|i: int| 0 <= i < found@.len() ==> pool.contains(#[trigger] texts(found@)[i]),
                forall|i: int| 0 <= i < from.len() ==> texts(found@).contains(#[trigger] from[i]),
                forall|i: int, to: Text|
                    0 <= i < head && #[trigger] linked(g, texts(found@)[i], to) ==> texts(
                        found@,
                    ).contains(to),
            decreases pool.to_set().len() - head,
        {
            proof {
                lemma_distinct_members_bounded(texts(found@), pool);
            }
            let cur = found[head].clone();
            let ghost entry = texts(found@);
            let ghost fuel = (pool.len() - head) as nat;
            assert(cur@ == texts(found@)[head as int]);
            match self.find(&cur) {
                Some(at) => {
                    proof {
                        lemma_node_place(g, at as int);
                    }
                    let mut k: usize = 0;
                    while k < self.nodes[at].edges.len()
                        invariant
                            g == self@,
                            names_distinct(g),
                            from == texts(seeds@),
                            pool == from + far_ends(g, g.len() as int),
                            at < self.nodes.len(),
                            g[at as int].name == cur@,
                            k <= self.nodes[at as int].edges.len(),
                            head < found@.len(),
                            cur@ == texts(found@)[head as int],
                            texts(found@) == with_far_ends(entry, g[at as int].edges, k as int),
                            texts(found@).no_duplicates(),
                            forall|i: int|
                                0 <= i < found@.len() ==> reached_from(
                                    g,
                                    from,
                                    #[trigger] texts(found@)[i],
                                ),
                            forall|i: int|
                                0 <= i < found@.len() ==> pool.contains(
                                    #[trigger] texts(found@)[i],
                                ),
                            forall|i: int|
                                0 <= i < from.len() ==> texts(found@).contains(#[trigger] from[i]),
                            forall|i: int, to: Text|
                                0 <= i < head && #[trigger] linked(g, texts(found@)[i], to)
                                    ==> texts(found@).contains(to),
                            forall|m: int|
                                0 <= m < k ==> texts(found@).contains(
                                    #[trigger] g[at as int].edges[m].1,
                                ),
                        decreases self.nodes[at as int].edges.len() - k,
                    {
                        let next = &self.nodes[at].edges[k].1;
                        let ghost before = texts(found@);
                        assert(next@ == g[at as int].edges[k as int].1);
                        if !contains_text(&found, next) {
                            proof {
                                lemma_texts_push(found@, *next);
                                assert(linked(g, cur@, next@));
                                lemma_reach_step(g, from, cur@, next@);
                                lemma_far_ends(g, g.len() as int, at as int, k as int);
                                let ends = far_ends(g, g.len() as int);
                                let m = choose|m: int| 0 <= m < ends.len() && ends[m] == next@;
                                assert(pool[from.len() + m] == next@);
                            }
                            found.push(next.clone());
                            proof {
                                let after = texts(found@);
                                assert(after == before.push(next@));
                                assert(after[before.len() as int] == next@);
                                assert forall|name: Text| before.contains(name) implies after.contains(
                                    name,
                                ) by {
                                    let i = choose|i: int| 0 <= i < before.len() && before[i] == name;
                                    assert(after[i] == name);
                                }
                                assert forall|i: int, to: Text|
                                    0 <= i < head && #[trigger] linked(
                                        g,
                                        after[i],
                                        to,
                                    ) implies after.contains(to) by {
                                    assert(after[i] == before[i]);
                                    assert(before.contains(to));
                                }
                                assert forall|i: int| 0 <= i < from.len() implies after.contains(
                                    #[trigger] from[i],
                                ) by {
                                    assert(before.contains(from[i]));
                                }
                                assert forall|m: int| 0 <= m < k + 1 implies after.contains(
                                    #[trigger] g[at as int].edges[m].1,
                                ) by {
                                    if m < k {
                                        assert(before.contains(g[at as int].edges[m].1));
                                    }
                                }
                            }
                        }
                        k += 1;
                    }
                    proof {
                        assert forall|to: Text| linked(g, cur@, to) implies texts(found@).contains(
                            to,
                        ) by {
                            let (n, e) = choose|n: int, e: int|
                                0 <= n < g.len() && 0 <= e < g[n].edges.len() && g[n].name == cur@
                                    && (#[trigger] g[n].edges[e]).1 == to;
                            assert(n == at);
                        }
                        assert(reach_model(g, entry, head as int, fuel) == reach_model(
                            g,
                            texts(found@),
                            head + 1,
                            (fuel - 1) as nat,
                        ));
                    }
                },
                None => {
                    proof {
                        assert forall|to: Text| linked(g, cur@, to) implies texts(found@).contains(
                            to,
                        ) by {
                            let (n, e) = choose|n: int, e: int|
                                0 <= n < g.len() && 0 <= e < g[n].edges.len() && g[n].name == cur@
                                    && (#[trigger] g[n].edges[e]).1 == to;
                            assert(has_node(g, cur@));
                        }
                        assert(reach_model(g, entry, head as int, fuel) == reach_model(
                            g,
                            entry,
                            head + 1,
                            (fuel - 1) as nat,
                        ));
                    }
                },
            }
            proof {
                lemma_distinct_members_bounded(texts(found@), pool);
                assert(texts(found@).len() == found@.len());
            }
            head += 1;
        }
        proof {
            let all = texts(found@);
            assert forall|name: Text| all.to_set().contains(name) <==> reach_of(g, from).contains(
                name,
            ) by {
                if all.contains(name) {
                    let i = choose|i: int| 0 <= i < all.len() && all[i] == name;
                    assert(reached_from(g, from, all[i]));
                }
                if reached_from(g, from, name) {
                    let walk = choose|walk: Seq<Text>|
                        walk.len() >= 1 && from.contains(walk.first()) && walk.last() == name
                            && #[trigger] is_walk(g, walk);
                    let s = choose|s: int| 0 <= s < from.len() && from[s] == walk.first();
                    assert(all.contains(from[s]));
                    lemma_closed_holds_walk(g, all, walk, walk.len() - 1);
                }
            }
            assert(all.to_set() =~= reach_of(g, from));
        }
        found
    }
}

} // verus!
