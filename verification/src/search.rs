//! Breadth-first search: provably shortest hop distances from a source node.

use crate::graph::{
    find_in, lemma_dests_seq_membership, lemma_index_of_unique,
    lemma_push_preserves_no_duplicates, Graph,
};
use vstd::prelude::*;
use vstd::set_lib::lemma_len_subset;

verus! {

broadcast use
    vstd::seq_lib::seq_to_set_is_finite,
    vstd::seq_lib::lemma_seq_contains_after_push,
    vstd::seq::Seq::lemma_to_set_insert_commutes,
;

/// There is a directed path of exactly `k` hops from `s` to `t`.
pub open spec fn has_path(g: Graph, s: i32, t: i32, k: int) -> bool
    decreases k,
{
    if k < 0 {
        false
    } else if k == 0 {
        s == t
    } else {
        exists|m: i32| has_path(g, s, m, k - 1) && g.edge(m, t)
    }
}

/// `t` can be reached from `s` along directed edges.
pub open spec fn reachable(g: Graph, s: i32, t: i32) -> bool {
    exists|k: int| has_path(g, s, t, k)
}

/// `d` is the length of a shortest directed path from `s` to `t`.
pub open spec fn is_shortest_dist(g: Graph, s: i32, t: i32, d: int) -> bool {
    &&& has_path(g, s, t, d)
    &&& forall|k: int| 0 <= k < d ==> !has_path(g, s, t, k)
}

/// Everything `bfs` promises of its result: the source is present at
/// distance zero, every entry is a shortest directed distance, and every
/// reachable node has an entry.
pub open spec fn bfs_post(g: Graph, s: i32, m: Map<i32, usize>) -> bool {
    &&& m.contains_key(s)
    &&& m[s] == 0
    &&& forall|t: i32| #[trigger] m.contains_key(t) ==> is_shortest_dist(g, s, t, m[t] as int)
    &&& forall|t: i32| reachable(g, s, t) ==> m.contains_key(t)
}

/// The one map that satisfies `bfs_post`; `bfs` returns exactly this map.
pub open spec fn bfs_map(g: Graph, s: i32) -> Map<i32, usize> {
    choose|m: Map<i32, usize>| bfs_post(g, s, m)
}

/// Shortest-path distances from one source node, as parallel vectors of node
/// identifier and hop count in breadth-first discovery order.
pub struct DistanceMap {
    pub ids: Vec<i32>,
    pub dists: Vec<usize>,
}

impl DistanceMap {
    /// Structural invariant: identifiers are distinct, vectors line up, and
    /// the distance recorded at discovery position `i` is at most `i`.
    pub open spec fn wf(self) -> bool {
        &&& self.dists@.len() == self.ids@.len()
        &&& self.ids@.no_duplicates()
        &&& forall|i: int| 0 <= i < self.dists@.len() ==> (#[trigger] self.dists@[i]) <= i
    }

    /// Looks up the recorded distance of `node`, `None` if it was not
    /// reached.
    pub fn get(&self, node: i32) -> (r: Option<usize>)
        requires
            self.wf(),
        ensures
            r == if self@.contains_key(node) {
                Some(self@[node])
            } else {
                None::<usize>
            },
    {
        match find_in(&self.ids, node) {
            Some(i) => {
                proof {
                    lemma_index_of_unique(self.ids@, i as int);
                }
                Some(self.dists[i])
            },
            None => None,
        }
    }

    /// The number of nodes reached, the source included.
    pub fn len(&self) -> (n: usize)
        requires
            self.wf(),
        ensures
            n == self@.dom().len(),
            n == self.ids@.len(),
    {
        proof {
            self.ids@.unique_seq_to_set();
            assert(self@.dom() =~= self.ids@.to_set());
        }
        self.ids.len()
    }
}

impl View for DistanceMap {
    type V = Map<i32, usize>;

    open spec fn view(&self) -> Map<i32, usize> {
        Map::new(|k: i32| self.ids@.contains(k), |k: i32| self.dists@[self.ids@.index_of(k)])
    }
}

/// Every node breadth-first search can ever discover from `s`.
pub open spec fn search_space(g: Graph, s: i32) -> Set<i32> {
    g.node_set().insert(s)
}

/// Some already discovered node equals `v` and carries a distance of at most
/// `b`.
pub open spec fn discovered_le(ids: Seq<i32>, ds: Seq<usize>, v: i32, b: int) -> bool {
    exists|j: int| 0 <= j < ids.len() && ids[j] == v && #[trigger] ds[j] <= b
}

/// The node discovered at position `i` has every neighbor discovered, with a
/// distance of at most one more hop.
pub open spec fn closed_at(g: Graph, ids: Seq<i32>, ds: Seq<usize>, i: int) -> bool {
    forall|v: i32| g.edge(ids[i], v) ==> discovered_le(ids, ds, v, ds[i] + 1)
}

/// In a fully processed discovery list, every node with a path of `k` hops
/// from the source has been discovered with a distance of at most `k`.
proof fn lemma_bfs_complete(g: Graph, s: i32, ids: Seq<i32>, ds: Seq<usize>, t: i32, k: int)
    requires
        ds.len() == ids.len(),
        ids.len() >= 1,
        ids[0] == s,
        ds[0] == 0,
        forall|i: int| 0 <= i < ids.len() ==> closed_at(g, ids, ds, i),
        has_path(g, s, t, k),
    ensures
        discovered_le(ids, ds, t, k),
    decreases k,
{
    assert(k >= 0);
    if k == 0 {
        assert(t == s);
        assert(ids[0] == t && ds[0] <= k);
        assert(discovered_le(ids, ds, t, k));
    } else {
        let m = choose|m: i32| has_path(g, s, m, k - 1) && g.edge(m, t);
        lemma_bfs_complete(g, s, ids, ds, m, k - 1);
        let j = choose|j: int| 0 <= j < ids.len() && ids[j] == m && #[trigger] ds[j] <= k - 1;
        assert(closed_at(g, ids, ds, j));
        assert(g.edge(ids[j], t));
        assert(discovered_le(ids, ds, t, ds[j] + 1));
        let j2 = choose|j2: int|
            0 <= j2 < ids.len() && ids[j2] == t && #[trigger] ds[j2] <= ds[j] + 1;
        assert(ids[j2] == t && ds[j2] <= k);
        assert(discovered_le(ids, ds, t, k));
    }
}

/// Breadth-first distances are a function of graph and source alone: any two
/// maps that satisfy `bfs_post` are equal. Repeated traversals of an
/// unmodified graph therefore return identical distance maps.
pub proof fn lemma_bfs_deterministic(g: Graph, s: i32, m1: Map<i32, usize>, m2: Map<i32, usize>)
    requires
        bfs_post(g, s, m1),
        bfs_post(g, s, m2),
    ensures
        m1 == m2,
{
    assert forall|t: i32| m1.contains_key(t) implies m2.contains_key(t) && m1[t] == m2[t] by {
        assert(is_shortest_dist(g, s, t, m1[t] as int));
        assert(reachable(g, s, t));
        assert(m2.contains_key(t));
        assert(is_shortest_dist(g, s, t, m2[t] as int));
        if m1[t] < m2[t] {
            assert(has_path(g, s, t, m1[t] as int));
            assert(false);
        }
        if m2[t] < m1[t] {
            assert(has_path(g, s, t, m2[t] as int));
            assert(false);
        }
    }
    assert forall|t: i32| m2.contains_key(t) implies m1.contains_key(t) by {
        assert(is_shortest_dist(g, s, t, m2[t] as int));
        assert(reachable(g, s, t));
    }
    assert(m1 =~= m2);
}

/// Computes shortest directed hop distances from `start_node` by a
/// first-in-first-out frontier. Nodes unreachable from `start_node` get no
/// entry; the source itself is always present at distance zero.
pub fn bfs(graph: &Graph, start_node: i32) -> (r: DistanceMap)
    requires
        graph.wf(),
    ensures
        r.wf(),
        bfs_post(*graph, start_node, r@),
        r@ == bfs_map(*graph, start_node),
        r@.contains_key(start_node),
        r@[start_node] == 0,
{
    let ghost g = *graph;
    let ghost uni = search_space(g, start_node);
    let mut ids: Vec<i32> = Vec::new();
    let mut dists: Vec<usize> = Vec::new();
    ids.push(start_node);
    dists.push(0);
    let mut head: usize = 0;
    proof {
        assert(uni.finite());
        assert(ids@.to_set().subset_of(uni)) by {
            assert forall|x: i32| ids@.to_set().contains(x) implies uni.contains(x) by {
                assert(ids@[0] == start_node);
            }
        }
        ids@.unique_seq_to_set();
        lemma_len_subset(ids@.to_set(), uni);
        assert(has_path(g, start_node, start_node, 0));
    }
    while head < ids.len()
        invariant
            graph.wf(),
            g == *graph,
            uni == search_space(g, start_node),
            uni.finite(),
            dists@.len() == ids@.len(),
            1 <= ids@.len(),
            ids@[0] == start_node,
            dists@[0] == 0,
            ids@.no_duplicates(),
            head <= ids@.len(),
            forall|i: int| 0 <= i < ids@.len() ==> (#[trigger] dists@[i]) <= i,
            forall|i: int|
                0 <= i < ids@.len() ==> has_path(g, start_node, #[trigger] ids@[i], dists@[i] as int),
            forall|i: int, j: int| 0 <= i <= j < ids@.len() ==> dists@[i] <= dists@[j],
            head < ids@.len() ==> forall|j: int|
                0 <= j < ids@.len() ==> (#[trigger] dists@[j]) <= dists@[head as int] + 1,
            forall|i: int| 0 <= i < head ==> closed_at(g, ids@, dists@, i),
            ids@.to_set().subset_of(uni),
            ids@.len() <= uni.len(),
        decreases uni.len() - head,
    {
        let current: i32 = ids[head];
        let d: usize = dists[head];
        if let Some(ki) = find_in(&graph.keys, current) {
            proof {
                lemma_index_of_unique(graph.keys@, ki as int);
                assert(g.neighbors_of(current) == g.adj@[ki as int]@);
            }
            let nbrs: &Vec<i32> = &graph.adj[ki];
            let mut j: usize = 0;
            while j < nbrs.len()
                invariant
                    graph.wf(),
                    g == *graph,
                    uni == search_space(g, start_node),
                    uni.finite(),
                    ki < graph.keys@.len(),
                    nbrs == &graph.adj[ki as int],
                    g.neighbors_of(current) == nbrs@,
                    j <= nbrs@.len(),
                    dists@.len() == ids@.len(),
                    1 <= ids@.len(),
                    ids@[0] == start_node,
                    dists@[0] == 0,
                    ids@.no_duplicates(),
                    head < ids@.len(),
                    ids@[head as int] == current,
                    dists@[head as int] == d,
                    forall|i: int| 0 <= i < ids@.len() ==> (#[trigger] dists@[i]) <= i,
                    forall|i: int|
                        0 <= i < ids@.len() ==> has_path(
                            g,
                            start_node,
                            #[trigger] ids@[i],
                            dists@[i] as int,
                        ),
                    forall|i: int, j2: int| 0 <= i <= j2 < ids@.len() ==> dists@[i] <= dists@[j2],
                    forall|j2: int|
                        0 <= j2 < ids@.len() ==> (#[trigger] dists@[j2]) <= d + 1,
                    forall|i: int| 0 <= i < head ==> closed_at(g, ids@, dists@, i),
                    forall|jj: int|
                        0 <= jj < j ==> discovered_le(ids@, dists@, #[trigger] nbrs@[jj], d + 1),
                    ids@.to_set().subset_of(uni),
                    ids@.len() <= uni.len(),
                decreases nbrs@.len() - j,
            {
                let v = nbrs[j];
                let ghost ids0 = ids@;
                let ghost ds0 = dists@;
                if find_in(&ids, v).is_none() {
                    let n = ids.len();
                    proof {
                        assert(d <= head < n);
                    }
                    ids.push(v);
                    dists.push(d + 1);
                    proof {
                        lemma_push_preserves_no_duplicates(ids0, v);
                        // the fresh entry carries an achievable distance
                        assert(has_path(g, start_node, current, d as int));
                        assert(g.edge(current, v));
                        assert(has_path(g, start_node, v, d + 1));
                        // the fresh entry lies inside the search space
                        assert(g.adj@[ki as int]@.contains(v));
                        lemma_dests_seq_membership(g.adj@, v);
                        assert(crate::graph::dests_seq(g.adj@).contains(v));
                        assert(uni.contains(v));
                        assert(ids@.to_set() =~= ids0.to_set().insert(v));
                        assert(ids@.to_set().subset_of(uni));
                        ids@.unique_seq_to_set();
                        lemma_len_subset(ids@.to_set(), uni);
                        // previously discovered entries keep their witnesses
                        assert forall|i: int| 0 <= i < head implies closed_at(
                            g,
                            ids@,
                            dists@,
                            i,
                        ) by {
                            assert(closed_at(g, ids0, ds0, i));
                            assert(ids@[i] == ids0[i] && dists@[i] == ds0[i]);
                            assert forall|w: i32| g.edge(ids@[i], w) implies discovered_le(
                                ids@,
                                dists@,
                                w,
                                dists@[i] + 1,
                            ) by {
                                assert(discovered_le(ids0, ds0, w, ds0[i] + 1));
                                let jj = choose|jj: int|
                                    0 <= jj < ids0.len() && ids0[jj] == w && #[trigger] ds0[jj]
                                        <= ds0[i] + 1;
                                assert(ids@[jj] == w && dists@[jj] <= dists@[i] + 1);
                            }
                        }
                        assert forall|jj: int| 0 <= jj < j + 1 implies discovered_le(
                            ids@,
                            dists@,
                            #[trigger] nbrs@[jj],
                            d + 1,
                        ) by {
                            if jj < j {
                                assert(discovered_le(ids0, ds0, nbrs@[jj], d + 1));
                                let w = choose|w: int|
                                    0 <= w < ids0.len() && ids0[w] == nbrs@[jj]
                                        && #[trigger] ds0[w] <= d + 1;
                                assert(ids@[w] == nbrs@[jj] && dists@[w] <= d + 1);
                            } else {
                                let n = ids0.len() as int;
                                assert(ids@[n] == v && dists@[n] <= d + 1);
                            }
                        }
                    }
                } else {
                    proof {
                        // the neighbor is already discovered; its recorded
                        // distance sits within one hop of the frontier
                        assert(ids@.contains(v));
                        let w = choose|w: int| 0 <= w < ids@.len() && ids@[w] == v;
                        assert(dists@[w] <= d + 1);
                        assert(discovered_le(ids@, dists@, v, d + 1));
                        assert forall|jj: int| 0 <= jj < j + 1 implies discovered_le(
                            ids@,
                            dists@,
                            #[trigger] nbrs@[jj],
                            d + 1,
                        ) by {}
                    }
                }
                j += 1;
            }
            proof {
                // all neighbors of `current` are now discovered
                assert forall|w: i32| g.edge(current, w) implies discovered_le(
                    ids@,
                    dists@,
                    w,
                    d + 1,
                ) by {
                    assert(nbrs@.contains(w));
                    let jj = choose|jj: int| 0 <= jj < nbrs@.len() && nbrs@[jj] == w;
                    assert(discovered_le(ids@, dists@, nbrs@[jj], d + 1));
                }
            }
        } else {
            proof {
                // a node without an adjacency entry has no outgoing edges
                assert forall|w: i32| g.edge(current, w) implies discovered_le(
                    ids@,
                    dists@,
                    w,
                    d + 1,
                ) by {
                    assert(g.neighbors_of(current) == Seq::<i32>::empty());
                }
            }
        }
        proof {
            assert(closed_at(g, ids@, dists@, head as int)) by {
                assert(ids@[head as int] == current && dists@[head as int] == d);
            }
            assert forall|i: int| 0 <= i < head + 1 implies closed_at(g, ids@, dists@, i) by {}
            assert(head + 1 < ids@.len() ==> forall|j2: int|
                0 <= j2 < ids@.len() ==> (#[trigger] dists@[j2]) <= dists@[head + 1] + 1) by {
                if head + 1 < ids@.len() {
                    assert(dists@[head as int] <= dists@[head + 1]);
                }
            }
        }
        head += 1;
    }
    let r = DistanceMap { ids, dists };
    proof {
        let m = r@;
        let idseq = r.ids@;
        let dseq = r.dists@;
        assert(idseq.contains(start_node)) by {
            assert(idseq[0] == start_node);
        }
        lemma_index_of_unique(idseq, 0);
        assert(m.contains_key(start_node) && m[start_node] == 0);
        // every entry is a shortest distance
        assert forall|t: i32| #[trigger] m.contains_key(t) implies is_shortest_dist(
            g,
            start_node,
            t,
            m[t] as int,
        ) by {
            let i = idseq.index_of(t);
            assert(0 <= i < idseq.len() && idseq[i] == t);
            lemma_index_of_unique(idseq, i);
            assert(m[t] == dseq[i]);
            assert(has_path(g, start_node, t, dseq[i] as int));
            assert forall|k: int| 0 <= k < m[t] implies !has_path(g, start_node, t, k) by {
                if has_path(g, start_node, t, k) {
                    lemma_bfs_complete(g, start_node, idseq, dseq, t, k);
                    let j2 = choose|j2: int|
                        0 <= j2 < idseq.len() && idseq[j2] == t && #[trigger] dseq[j2] <= k;
                    assert(j2 == i) by {
                        if j2 != i {
                            assert(idseq[j2] != idseq[i]);
                        }
                    }
                    assert(false);
                }
            }
        }
        // every reachable node has an entry
        assert forall|t: i32| reachable(g, start_node, t) implies m.contains_key(t) by {
            let k = choose|k: int| has_path(g, start_node, t, k);
            lemma_bfs_complete(g, start_node, idseq, dseq, t, k);
            let j2 = choose|j2: int|
                0 <= j2 < idseq.len() && idseq[j2] == t && #[trigger] dseq[j2] <= k;
            assert(idseq.contains(t));
        }
        assert(bfs_post(g, start_node, m));
        // `bfs_post` pins the map down, so the result is `bfs_map`
        lemma_bfs_deterministic(g, start_node, m, bfs_map(g, start_node));
    }
    r
}

/// Whether `end` lies within `max_degrees` directed hops of `start`.
pub fn are_nodes_within_degrees_of_separation(
    graph: &Graph,
    start: i32,
    end: i32,
    max_degrees: i32,
) -> (r: bool)
    requires
        graph.wf(),
    ensures
        r <==> exists|k: int| 0 <= k <= max_degrees && has_path(*graph, start, end, k),
{
    let distances = bfs(graph, start);
    match distances.get(end) {
        Some(d) => {
            proof {
                assert(is_shortest_dist(*graph, start, end, d as int));
            }
            if max_degrees >= 0 && d <= max_degrees as usize {
                proof {
                    assert(has_path(*graph, start, end, d as int));
                }
                true
            } else {
                proof {
                    assert forall|k: int| 0 <= k <= max_degrees implies !has_path(
                        *graph,
                        start,
                        end,
                        k,
                    ) by {
                        assert(k < d as int);
                    }
                }
                false
            }
        },
        None => {
            proof {
                assert forall|k: int| 0 <= k <= max_degrees implies !has_path(
                    *graph,
                    start,
                    end,
                    k,
                ) by {
                    if has_path(*graph, start, end, k) {
                        assert(reachable(*graph, start, end));
                    }
                }
            }
            false
        },
    }
}

} // verus!
