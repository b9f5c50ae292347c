//! The directed graph: adjacency lists, in-degree counts, structural queries.

use vstd::prelude::*;
use vstd::seq_lib::lemma_seq_contains_after_push;
use vstd::set_lib::{lemma_int_range, lemma_len_subset, set_int_range};

verus! {

broadcast use
    vstd::seq_lib::seq_to_set_is_finite,
    vstd::seq_lib::lemma_seq_contains_after_push,
    vstd::seq::Seq::lemma_to_set_insert_commutes,
;

/// A directed graph over signed-integer node identifiers.
///
/// The adjacency relation is stored as two parallel vectors: `keys` holds the
/// distinct source identifiers and `adj[i]` holds the distinct destinations
/// reachable by one directed edge from `keys[i]`. In-degree counts are kept
/// the same way in `indeg_keys`/`indeg_counts`; they count raw insertions, so
/// re-adding an existing edge still raises the in-degree of its destination.
/// `edge_total` caches the number of distinct directed edges.
pub struct Graph {
    pub keys: Vec<i32>,
    pub adj: Vec<Vec<i32>>,
    pub edge_total: usize,
    pub indeg_keys: Vec<i32>,
    pub indeg_counts: Vec<usize>,
}

/// Sum of the adjacency-list lengths: the number of distinct directed edges
/// once every list is free of duplicates.
pub open spec fn adj_len_sum(adj: Seq<Vec<i32>>) -> int
    decreases adj.len(),
{
    if adj.len() == 0 {
        0
    } else {
        adj_len_sum(adj.drop_last()) + adj.last()@.len()
    }
}

/// Every destination identifier stored in any adjacency list, in storage order.
pub open spec fn dests_seq(adj: Seq<Vec<i32>>) -> Seq<i32>
    decreases adj.len(),
{
    if adj.len() == 0 {
        Seq::empty()
    } else {
        dests_seq(adj.drop_last()) + adj.last()@
    }
}

impl Graph {
    /// Structural invariant: parallel vectors line up, identifiers are stored
    /// without duplicates, and the cached edge total matches the lists.
    pub open spec fn wf(self) -> bool {
        &&& self.adj@.len() == self.keys@.len()
        &&& self.keys@.no_duplicates()
        &&& forall|i: int| 0 <= i < self.adj@.len() ==> (#[trigger] self.adj@[i])@.no_duplicates()
        &&& self.indeg_counts@.len() == self.indeg_keys@.len()
        &&& self.indeg_keys@.no_duplicates()
        &&& self.edge_total == adj_len_sum(self.adj@)
    }

    /// Whether `u` has an adjacency entry, i.e. appears as the source of some
    /// inserted edge.
    pub open spec fn is_key(self, u: i32) -> bool {
        self.keys@.contains(u)
    }

    /// The stored destinations of `u`, or the empty sequence if `u` has no
    /// adjacency entry.
    pub open spec fn neighbors_of(self, u: i32) -> Seq<i32> {
        if self.keys@.contains(u) {
            self.adj@[self.keys@.index_of(u)]@
        } else {
            Seq::empty()
        }
    }

    /// The directed edge relation.
    pub open spec fn edge(self, u: i32, v: i32) -> bool {
        self.neighbors_of(u).contains(v)
    }

    /// The number of distinct directed edges.
    pub open spec fn edge_count(self) -> int {
        adj_len_sum(self.adj@)
    }

    /// The raw in-degree counter of `v`: one per `add_edge` call with
    /// destination `v`, duplicates included.
    pub open spec fn in_degree_of(self, v: i32) -> int {
        if self.indeg_keys@.contains(v) {
            self.indeg_counts@[self.indeg_keys@.index_of(v)] as int
        } else {
            0
        }
    }

    /// Every identifier mentioned as a source or destination of some edge.
    pub open spec fn node_set(self) -> Set<i32> {
        self.keys@.to_set().union(dests_seq(self.adj@).to_set())
    }

    /// Creates an empty graph.
    pub fn new() -> (g: Graph)
        ensures
            g.wf(),
            g.keys@.len() == 0,
            forall|u: i32| !g.is_key(u),
            forall|u: i32, v: i32| !g.edge(u, v),
            forall|v: i32| g.in_degree_of(v) == 0,
            g.edge_count() == 0,
            g.node_set() == Set::<i32>::empty(),
    {
        let g = Graph {
            keys: Vec::new(),
            adj: Vec::new(),
            edge_total: 0,
            indeg_keys: Vec::new(),
            indeg_counts: Vec::new(),
        };
        proof {
            assert(g.node_set() =~= Set::<i32>::empty());
        }
        g
    }

    /// Inserts the directed edge `src -> dest`.
    ///
    /// Re-adding an existing edge leaves the adjacency relation and the edge
    /// count unchanged, but the in-degree counter of `dest` grows by one on
    /// every call. The bounds in `requires` only keep the stored counters
    /// within `usize`.
    pub fn add_edge(&mut self, src: i32, dest: i32)
        requires
            old(self).wf(),
            old(self).edge(src, dest) || old(self).edge_count() < usize::MAX,
            old(self).in_degree_of(dest) < usize::MAX,
        ensures
            final(self).wf(),
            forall|u: i32, v: i32|
                final(self).edge(u, v) <==> (old(self).edge(u, v) || (u == src && v == dest)),
            forall|u: i32| final(self).is_key(u) <==> (old(self).is_key(u) || u == src),
            final(self).edge_count() == old(self).edge_count() + (if old(self).edge(src, dest) {
                0int
            } else {
                1int
            }),
            forall|v: i32|
                final(self).in_degree_of(v) == old(self).in_degree_of(v) + (if v == dest {
                    1int
                } else {
                    0int
                }),
            final(self).node_set() == old(self).node_set().insert(src).insert(dest),
    {
        let ghost g0 = *self;
        // Make sure `src` has an adjacency entry.
        let ki: usize = match find_in(&self.keys, src) {
            Some(i) => i,
            None => {
                self.keys.push(src);
                self.adj.push(Vec::new());
                proof {
                    lemma_push_preserves_no_duplicates(g0.keys@, src);
                    assert(self.adj@.drop_last() =~= g0.adj@);
                    assert(adj_len_sum(self.adj@) == adj_len_sum(g0.adj@));
                    assert(dests_seq(self.adj@) =~= dests_seq(g0.adj@));
                    lemma_index_of_unique(self.keys@, g0.keys@.len() as int);
                }
                self.keys.len() - 1
            },
        };
        let ghost g1 = *self;
        proof {
            // After this step the graph differs from `g0` at most by a fresh
            // key with an empty adjacency list.
            assert(g1.wf());
            assert(g1.keys@[ki as int] == src);
            lemma_index_of_unique(g1.keys@, ki as int);
            assert(g1.keys@.index_of(src) == ki as int);
            lemma_same_neighbors(g0, g1, ki as int, src);
            assert(forall|u: i32, v: i32| g1.edge(u, v) <==> g0.edge(u, v));
            assert(g1.keys@.to_set() =~= g0.keys@.to_set().insert(src));
            assert(g1.node_set() =~= g0.node_set().insert(src));
        }
        // Insert `dest` into the adjacency list of `src` unless present.
        if find_in(&self.adj[ki], dest).is_none() {
            proof {
                assert(!g1.edge(src, dest));
                assert(!g0.edge(src, dest));
                lemma_adj_len_sum_update_grows(g1.adj@, ki as int, dest);
            }
            self.adj[ki].push(dest);
            self.edge_total = self.edge_total + 1;
            proof {
                let g2 = *self;
                assert(g2.adj@ =~= g1.adj@.update(ki as int, g2.adj@[ki as int]));
                assert(g2.adj@[ki as int]@ =~= g1.adj@[ki as int]@.push(dest));
                lemma_push_preserves_no_duplicates(g1.adj@[ki as int]@, dest);
                assert(g2.wf());
                lemma_update_push_neighbors(g1, g2, ki as int, src, dest);
            }
        } else {
            proof {
                assert(g1.adj@[ki as int]@.contains(dest));
                assert(g1.neighbors_of(src) == g1.adj@[ki as int]@);
                assert(g1.edge(src, dest));
                assert(g0.edge(src, dest));
                lemma_dests_seq_membership(g1.adj@, dest);
                assert(dests_seq(g1.adj@).contains(dest));
                assert(g1.node_set().contains(dest));
                assert(g1.keys@[ki as int] == src);
                assert(g1.keys@.contains(src));
                assert(g1.node_set().contains(src));
                assert(self.node_set() =~= g0.node_set().insert(src).insert(dest));
            }
        }
        let ghost g3 = *self;
        proof {
            assert(forall|u: i32, v: i32|
                g3.edge(u, v) <==> (g0.edge(u, v) || (u == src && v == dest)));
            assert(g3.node_set() =~= g0.node_set().insert(src).insert(dest));
        }
        // Raise the raw in-degree counter of `dest`.
        match find_in(&self.indeg_keys, dest) {
            Some(i) => {
                proof {
                    lemma_index_of_unique(self.indeg_keys@, i as int);
                }
                let c = self.indeg_counts[i];
                self.indeg_counts.set(i, c + 1);
                proof {
                    lemma_indeg_update(g3, *self, i as int, dest);
                }
            },
            None => {
                self.indeg_keys.push(dest);
                self.indeg_counts.push(1);
                proof {
                    lemma_push_preserves_no_duplicates(g3.indeg_keys@, dest);
                    lemma_indeg_push(g3, *self, dest);
                }
            },
        }
        proof {
            assert(self.adj@ == g3.adj@ && self.keys@ == g3.keys@);
            assert(forall|u: i32, v: i32| self.edge(u, v) <==> g3.edge(u, v));
            assert(self.node_set() =~= g3.node_set());
        }
    }

    /// Gives `node` an adjacency entry (with no destinations) if it lacks
    /// one, so that isolated or destination-only identifiers can stand as
    /// keys of their own; the edge relation and the in-degrees are untouched.
    pub fn ensure_node(&mut self, node: i32)
        requires
            old(self).wf(),
        ensures
            final(self).wf(),
            forall|u: i32, v: i32| final(self).edge(u, v) <==> old(self).edge(u, v),
            forall|u: i32| final(self).is_key(u) <==> (old(self).is_key(u) || u == node),
            final(self).edge_count() == old(self).edge_count(),
            forall|v: i32| final(self).in_degree_of(v) == old(self).in_degree_of(v),
            final(self).node_set() == old(self).node_set().insert(node),
    {
        let ghost g0 = *self;
        if find_in(&self.keys, node).is_none() {
            self.keys.push(node);
            self.adj.push(Vec::new());
            proof {
                lemma_push_preserves_no_duplicates(g0.keys@, node);
                assert(self.adj@.drop_last() =~= g0.adj@);
                assert(adj_len_sum(self.adj@) == adj_len_sum(g0.adj@));
                assert(dests_seq(self.adj@) =~= dests_seq(g0.adj@));
                let ki = g0.keys@.len() as int;
                lemma_index_of_unique(self.keys@, ki);
                lemma_same_neighbors(g0, *self, ki, node);
                assert(self.keys@.to_set() =~= g0.keys@.to_set().insert(node));
                assert(self.node_set() =~= g0.node_set().insert(node));
            }
        } else {
            proof {
                assert(g0.keys@.contains(node));
                assert(self.node_set() =~= g0.node_set().insert(node));
            }
        }
    }

    /// The stored in-degree counter of `node`: the number of `add_edge`
    /// calls that used it as the destination.
    pub fn in_degree(&self, node: i32) -> (n: usize)
        requires
            self.wf(),
        ensures
            n == self.in_degree_of(node),
    {
        match find_in(&self.indeg_keys, node) {
            Some(i) => {
                proof {
                    lemma_index_of_unique(self.indeg_keys@, i as int);
                }
                self.indeg_counts[i]
            },
            None => 0,
        }
    }

    /// The number of distinct directed edges.
    pub fn number_of_edges(&self) -> (n: usize)
        requires
            self.wf(),
        ensures
            n == self.edge_count(),
    {
        self.edge_total
    }

    /// The number of distinct identifiers appearing as a source or a
    /// destination of some edge.
    pub fn number_of_nodes(&self) -> (n: usize)
        requires
            self.wf(),
        ensures
            n == self.node_set().len(),
    {
        let mut seen: Vec<i32> = Vec::new();
        let mut i: usize = 0;
        while i < self.keys.len()
            invariant
                self.wf(),
                i <= self.keys@.len(),
                seen@ == self.keys@.take(i as int),
            decreases self.keys@.len() - i,
        {
            proof {
                assert(self.keys@.take(i as int + 1).drop_last() =~= self.keys@.take(i as int));
                assert(self.keys@.take(i as int + 1) =~= seen@.push(self.keys@[i as int]));
            }
            seen.push(self.keys[i]);
            i += 1;
        }
        proof {
            assert(seen@ =~= self.keys@);
            assert(seen@.to_set() =~= self.keys@.to_set().union(
                dests_seq(self.adj@.take(0)).to_set(),
            ));
        }
        let mut r: usize = 0;
        while r < self.adj.len()
            invariant
                self.wf(),
                r <= self.adj@.len(),
                seen@.no_duplicates(),
                seen@.to_set() == self.keys@.to_set().union(
                    dests_seq(self.adj@.take(r as int)).to_set(),
                ),
            decreases self.adj@.len() - r,
        {
            let row = &self.adj[r];
            let mut j: usize = 0;
            while j < row.len()
                invariant
                    self.wf(),
                    r < self.adj@.len(),
                    row == &self.adj[r as int],
                    j <= row@.len(),
                    seen@.no_duplicates(),
                    seen@.to_set() == self.keys@.to_set().union(
                        dests_seq(self.adj@.take(r as int)).to_set(),
                    ).union(row@.take(j as int).to_set()),
                decreases row@.len() - j,
            {
                let x = row[j];
                let ghost seen0 = seen@;
                if find_in(&seen, x).is_none() {
                    seen.push(x);
                    proof {
                        lemma_push_preserves_no_duplicates(seen0, x);
                        assert(seen@.to_set() =~= seen0.to_set().insert(x));
                    }
                } else {
                    proof {
                        assert(seen0.contains(x));
                        assert(seen0.to_set().contains(x));
                        assert(seen@.to_set() =~= seen0.to_set().insert(x));
                    }
                }
                proof {
                    assert(row@.take(j as int + 1).drop_last() =~= row@.take(j as int));
                    assert(row@.take(j as int + 1) =~= row@.take(j as int).push(x));
                    assert(row@.take(j as int + 1).to_set() =~= row@.take(j as int).to_set().insert(
                        x,
                    ));
                    assert(seen@.to_set() =~= self.keys@.to_set().union(
                        dests_seq(self.adj@.take(r as int)).to_set(),
                    ).union(row@.take(j as int + 1).to_set()));
                }
                j += 1;
            }
            proof {
                assert(row@.take(row@.len() as int) =~= row@);
                assert(self.adj@.take(r as int + 1).drop_last() =~= self.adj@.take(r as int));
                assert(self.adj@.take(r as int + 1).last() == self.adj@[r as int]);
                assert(dests_seq(self.adj@.take(r as int + 1)) =~= dests_seq(
                    self.adj@.take(r as int),
                ) + row@);
                vstd::seq_lib::seq_to_set_distributes_over_add(
                    dests_seq(self.adj@.take(r as int)),
                    row@,
                );
                assert(dests_seq(self.adj@.take(r as int + 1)).to_set() =~= dests_seq(
                    self.adj@.take(r as int),
                ).to_set().union(row@.to_set()));
                assert(seen@.to_set() =~= self.keys@.to_set().union(
                    dests_seq(self.adj@.take(r as int + 1)).to_set(),
                ));
            }
            r += 1;
        }
        proof {
            assert(self.adj@.take(self.adj@.len() as int) =~= self.adj@);
            assert(seen@.to_set() =~= self.node_set());
            seen@.unique_seq_to_set();
        }
        seen.len()
    }
}

/// Linear scan for `x` in `v`; the index returned is a witness, and `None`
/// refutes membership.
pub(crate) fn find_in(v: &Vec<i32>, x: i32) -> (r: Option<usize>)
    ensures
        match r {
            Some(i) => i < v@.len() && v@[i as int] == x,
            None => !v@.contains(x),
        },
{
    let mut j: usize = 0;
    while j < v.len()
        invariant
            j <= v@.len(),
            forall|k: int| 0 <= k < j ==> v@[k] != x,
        decreases v@.len() - j,
    {
        if v[j] == x {
            return Some(j);
        }
        j += 1;
    }
    None
}

/// In a duplicate-free sequence the index of any element is unique, so
/// `index_of` returns exactly the position it occurs at.
pub proof fn lemma_index_of_unique(s: Seq<i32>, i: int)
    requires
        s.no_duplicates(),
        0 <= i < s.len(),
    ensures
        s.contains(s[i]),
        s.index_of(s[i]) == i,
{
    assert(s.contains(s[i]));
    let j = s.index_of(s[i]);
    assert(0 <= j < s.len() && s[j] == s[i]);
}

/// Appending a fresh element keeps a sequence duplicate-free.
pub proof fn lemma_push_preserves_no_duplicates(s: Seq<i32>, x: i32)
    requires
        s.no_duplicates(),
        !s.contains(x),
    ensures
        s.push(x).no_duplicates(),
{
    let t = s.push(x);
    assert forall|i: int, j: int|
        0 <= i < t.len() && 0 <= j < t.len() && i != j implies t[i] != t[j] by {
        if i < s.len() && j < s.len() {
            assert(t[i] == s[i] && t[j] == s[j]);
        } else if i < s.len() {
            assert(t[j] == x && t[i] == s[i]);
            assert(s[i] != x) by {
                if s[i] == x {
                    assert(s.contains(x));
                }
            }
        } else {
            assert(t[i] == x && t[j] == s[j]);
            assert(s[j] != x) by {
                if s[j] == x {
                    assert(s.contains(x));
                }
            }
        }
    }
}

/// A duplicate-free sequence of 32-bit identifiers is never longer than the
/// number of distinct 32-bit values.
pub proof fn lemma_nodup_i32_len(s: Seq<i32>)
    requires
        s.no_duplicates(),
    ensures
        s.len() <= 0x1_0000_0000,
{
    let t = s.map_values(|x: i32| x as int);
    assert(t.len() == s.len());
    assert forall|i: int, j: int|
        0 <= i < t.len() && 0 <= j < t.len() && i != j implies t[i] != t[j] by {
        assert(t[i] == s[i] as int && t[j] == s[j] as int);
        assert(s[i] != s[j]);
    }
    t.unique_seq_to_set();
    let range = set_int_range(-0x8000_0000, 0x8000_0000);
    lemma_int_range(-0x8000_0000, 0x8000_0000);
    assert forall|x: int| t.to_set().contains(x) implies range.contains(x) by {
        let i = choose|i: int| 0 <= i < t.len() && t[i] == x;
        assert(t[i] == s[i] as int);
    }
    lemma_len_subset(t.to_set(), range);
}

/// Membership in the flattened destination sequence is membership in some
/// adjacency list.
pub proof fn lemma_dests_seq_membership(adj: Seq<Vec<i32>>, x: i32)
    ensures
        dests_seq(adj).contains(x) <==> exists|i: int|
            0 <= i < adj.len() && (#[trigger] adj[i])@.contains(x),
    decreases adj.len(),
{
    if adj.len() == 0 {
    } else {
        lemma_dests_seq_membership(adj.drop_last(), x);
        let d = dests_seq(adj);
        let prev = dests_seq(adj.drop_last());
        assert(d == prev + adj.last()@);
        if d.contains(x) {
            let k = choose|k: int| 0 <= k < d.len() && d[k] == x;
            if k < prev.len() {
                assert(prev[k] == x);
                assert(prev.contains(x));
                let i = choose|i: int|
                    0 <= i < adj.drop_last().len() && (#[trigger] adj.drop_last()[i])@.contains(x);
                assert(adj[i]@.contains(x));
            } else {
                assert(adj.last()@[k - prev.len()] == x);
                assert(adj[adj.len() - 1]@.contains(x));
            }
        }
        if exists|i: int| 0 <= i < adj.len() && (#[trigger] adj[i])@.contains(x) {
            let i = choose|i: int| 0 <= i < adj.len() && (#[trigger] adj[i])@.contains(x);
            if i < adj.len() - 1 {
                assert(adj.drop_last()[i]@.contains(x));
                assert(prev.contains(x));
                let k = choose|k: int| 0 <= k < prev.len() && prev[k] == x;
                assert(d[k] == x);
            } else {
                let k = choose|k: int| 0 <= k < adj.last()@.len() && adj.last()@[k] == x;
                assert(d[prev.len() + k] == x);
            }
        }
    }
}

/// Updating one adjacency list by appending an element raises the length sum
/// by one.
proof fn lemma_adj_len_sum_update_grows(adj: Seq<Vec<i32>>, i: int, dest: i32)
    requires
        0 <= i < adj.len(),
    ensures
        forall|row: Vec<i32>|
            (#[trigger] row@) =~= adj[i]@.push(dest) ==> adj_len_sum(adj.update(i, row))
                == adj_len_sum(adj) + 1,
{
    assert forall|row: Vec<i32>|
        (#[trigger] row@) =~= adj[i]@.push(dest) implies adj_len_sum(adj.update(i, row))
        == adj_len_sum(adj) + 1 by {
        lemma_adj_len_sum_update(adj, i, row);
    }
}

/// Replacing one adjacency list changes the length sum by the difference of
/// the list lengths.
proof fn lemma_adj_len_sum_update(adj: Seq<Vec<i32>>, i: int, row: Vec<i32>)
    requires
        0 <= i < adj.len(),
    ensures
        adj_len_sum(adj.update(i, row)) == adj_len_sum(adj) - adj[i]@.len() + row@.len(),
    decreases adj.len(),
{
    let upd = adj.update(i, row);
    if i == adj.len() - 1 {
        assert(upd.drop_last() =~= adj.drop_last());
        assert(upd.last() == row);
    } else {
        assert(upd.drop_last() =~= adj.drop_last().update(i, row));
        assert(upd.last() == adj.last());
        lemma_adj_len_sum_update(adj.drop_last(), i, row);
    }
}

/// A fresh key with an empty adjacency list leaves every neighborhood
/// unchanged.
proof fn lemma_same_neighbors(g0: Graph, g1: Graph, ki: int, src: i32)
    requires
        g0.wf(),
        g1.wf(),
        0 <= ki < g1.keys@.len(),
        g1.keys@[ki] == src,
        g0.keys@.contains(src) ==> g1 == g0,
        !g0.keys@.contains(src) ==> g1.keys@ == g0.keys@.push(src) && g1.adj@.len() == g0.adj@.len()
            + 1 && g1.adj@.drop_last() =~= g0.adj@ && g1.adj@.last()@.len() == 0,
    ensures
        forall|u: i32| g1.neighbors_of(u) =~= g0.neighbors_of(u),
        g1.neighbors_of(src) == g1.adj@[ki]@,
{
    lemma_index_of_unique(g1.keys@, ki);
    assert forall|u: i32| g1.neighbors_of(u) =~= g0.neighbors_of(u) by {
        if g0.keys@.contains(u) {
            let j = g0.keys@.index_of(u);
            assert(0 <= j < g0.keys@.len() && g0.keys@[j] == u);
            if !g0.keys@.contains(src) {
                assert(g1.keys@[j] == u);
                lemma_index_of_unique(g1.keys@, j);
                assert(g1.adj@[j] == g0.adj@[j]);
            }
        } else if g1.keys@.contains(u) {
            // only the fresh key can be newly present, and its list is empty
            let j = g1.keys@.index_of(u);
            assert(0 <= j < g1.keys@.len() && g1.keys@[j] == u);
            if !g0.keys@.contains(src) {
                assert(j == g0.keys@.len()) by {
                    if j < g0.keys@.len() {
                        assert(g0.keys@[j] == u);
                        assert(g0.keys@.contains(u));
                    }
                }
                assert(g1.adj@[j]@.len() == 0);
            }
        }
    }
}

/// Appending `dest` to the list of `src` adds exactly the edge `src -> dest`
/// and mentions `dest` in the destination set.
proof fn lemma_update_push_neighbors(g1: Graph, g2: Graph, ki: int, src: i32, dest: i32)
    requires
        g1.wf(),
        g2.wf(),
        0 <= ki < g1.keys@.len(),
        g1.keys@[ki] == src,
        g2.keys@ == g1.keys@,
        g2.adj@.len() == g1.adj@.len(),
        g2.adj@ =~= g1.adj@.update(ki, g2.adj@[ki]),
        g2.adj@[ki]@ =~= g1.adj@[ki]@.push(dest),
    ensures
        forall|u: i32, v: i32| g2.edge(u, v) <==> (g1.edge(u, v) || (u == src && v == dest)),
        dests_seq(g2.adj@).to_set() =~= dests_seq(g1.adj@).to_set().insert(dest),
{
    lemma_index_of_unique(g1.keys@, ki);
    assert forall|u: i32, v: i32|
        g2.edge(u, v) <==> (g1.edge(u, v) || (u == src && v == dest)) by {
        if g1.keys@.contains(u) {
            let j = g1.keys@.index_of(u);
            assert(0 <= j < g1.keys@.len() && g1.keys@[j] == u);
            if j == ki {
                assert(u == src);
                lemma_seq_contains_after_push(g1.adj@[ki]@, dest, v);
                assert(g2.neighbors_of(u) == g2.adj@[ki]@);
                assert(g1.neighbors_of(u) == g1.adj@[ki]@);
            } else {
                assert(g2.adj@[j] == g1.adj@[j]);
                assert(u != src) by {
                    if u == src {
                        assert(g1.keys@[j] == g1.keys@[ki]);
                    }
                }
            }
        } else {
            assert(u != src);
            assert(!g2.keys@.contains(u));
        }
    }
    assert forall|x: i32|
        dests_seq(g2.adj@).contains(x) <==> (dests_seq(g1.adj@).contains(x) || x == dest) by {
        lemma_dests_seq_membership(g2.adj@, x);
        lemma_dests_seq_membership(g1.adj@, x);
        if x == dest {
            assert(g2.adj@[ki]@.contains(x)) by {
                assert(g2.adj@[ki]@[g2.adj@[ki]@.len() - 1] == dest);
            }
        }
        if dests_seq(g1.adj@).contains(x) {
            let i = choose|i: int| 0 <= i < g1.adj@.len() && (#[trigger] g1.adj@[i])@.contains(x);
            if i == ki {
                lemma_seq_contains_after_push(g1.adj@[ki]@, dest, x);
                assert(g2.adj@[ki]@.contains(x));
            } else {
                assert(g2.adj@[i] == g1.adj@[i]);
            }
        }
        if dests_seq(g2.adj@).contains(x) && x != dest {
            let i = choose|i: int| 0 <= i < g2.adj@.len() && (#[trigger] g2.adj@[i])@.contains(x);
            if i == ki {
                lemma_seq_contains_after_push(g1.adj@[ki]@, dest, x);
                assert(g1.adj@[ki]@.contains(x));
            } else {
                assert(g1.adj@[i] == g2.adj@[i]);
            }
        }
    }
}

/// Raising the counter stored for `dest` raises exactly its in-degree.
proof fn lemma_indeg_update(g3: Graph, g4: Graph, i: int, dest: i32)
    requires
        g3.wf(),
        0 <= i < g3.indeg_keys@.len(),
        g3.indeg_keys@[i] == dest,
        g4.indeg_keys@ == g3.indeg_keys@,
        g4.indeg_counts@ =~= g3.indeg_counts@.update(i, g4.indeg_counts@[i]),
        g4.indeg_counts@.len() == g3.indeg_counts@.len(),
        g4.indeg_counts@[i] == g3.indeg_counts@[i] + 1,
    ensures
        forall|v: i32|
            g4.in_degree_of(v) == g3.in_degree_of(v) + (if v == dest {
                1int
            } else {
                0int
            }),
{
    lemma_index_of_unique(g3.indeg_keys@, i);
    assert forall|v: i32|
        g4.in_degree_of(v) == g3.in_degree_of(v) + (if v == dest {
            1int
        } else {
            0int
        }) by {
        if g3.indeg_keys@.contains(v) {
            let j = g3.indeg_keys@.index_of(v);
            assert(0 <= j < g3.indeg_keys@.len() && g3.indeg_keys@[j] == v);
            if v == dest {
                assert(j == i) by {
                    if j != i {
                        assert(g3.indeg_keys@[j] != g3.indeg_keys@[i]);
                    }
                }
            } else {
                assert(j != i) by {
                    if j == i {
                        assert(v == dest);
                    }
                }
                assert(g4.indeg_counts@[j] == g3.indeg_counts@[j]);
            }
        } else {
            assert(v != dest);
            assert(!g4.indeg_keys@.contains(v));
        }
    }
}

/// Recording a first insertion for `dest` sets its in-degree to one and
/// leaves every other in-degree unchanged.
proof fn lemma_indeg_push(g3: Graph, g4: Graph, dest: i32)
    requires
        g3.wf(),
        !g3.indeg_keys@.contains(dest),
        g4.indeg_keys@ == g3.indeg_keys@.push(dest),
        g4.indeg_keys@.no_duplicates(),
        g4.indeg_counts@ == g3.indeg_counts@.push(1usize),
        g3.indeg_counts@.len() == g3.indeg_keys@.len(),
    ensures
        forall|v: i32|
            g4.in_degree_of(v) == g3.in_degree_of(v) + (if v == dest {
                1int
            } else {
                0int
            }),
{
    let n = g3.indeg_keys@.len() as int;
    lemma_index_of_unique(g4.indeg_keys@, n);
    assert forall|v: i32|
        g4.in_degree_of(v) == g3.in_degree_of(v) + (if v == dest {
            1int
        } else {
            0int
        }) by {
        lemma_seq_contains_after_push(g3.indeg_keys@, dest, v);
        if v == dest {
            assert(g4.indeg_keys@.index_of(dest) == n);
            assert(g4.indeg_counts@[n] == 1);
        } else if g3.indeg_keys@.contains(v) {
            let j = g3.indeg_keys@.index_of(v);
            assert(0 <= j < g3.indeg_keys@.len() && g3.indeg_keys@[j] == v);
            assert(g4.indeg_keys@[j] == v);
            lemma_index_of_unique(g4.indeg_keys@, j);
            assert(g4.indeg_counts@[j] == g3.indeg_counts@[j]);
        } else {
            assert(!g4.indeg_keys@.contains(v));
        }
    }
}

} // verus!
