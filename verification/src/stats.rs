//! Sampling statistics built on repeated breadth-first traversals.

use crate::graph::{lemma_nodup_i32_len, Graph};
use crate::search::{bfs, bfs_map, DistanceMap};
use rand::seq::IndexedRandom;
use rand::seq::IteratorRandom;
use vstd::arithmetic::mul::lemma_mul_inequality;
use vstd::prelude::*;

verus! {

/// Sum of the strictly positive entries of a distance vector.
pub open spec fn pos_sum(ds: Seq<usize>) -> int
    decreases ds.len(),
{
    if ds.len() == 0 {
        0
    } else {
        pos_sum(ds.drop_last()) + if ds.last() > 0 {
            ds.last() as int
        } else {
            0
        }
    }
}

/// Count of the strictly positive entries of a distance vector.
pub open spec fn pos_count(ds: Seq<usize>) -> int
    decreases ds.len(),
{
    if ds.len() == 0 {
        0
    } else {
        pos_count(ds.drop_last()) + if ds.last() > 0 {
            1int
        } else {
            0int
        }
    }
}

/// Sum and count of positive distances accumulated over a sequence of
/// breadth-first results.
pub open spec fn stats_sum(maps: Seq<DistanceMap>) -> (int, int)
    decreases maps.len(),
{
    if maps.len() == 0 {
        (0, 0)
    } else {
        let p = stats_sum(maps.drop_last());
        (p.0 + pos_sum(maps.last().dists@), p.1 + pos_count(maps.last().dists@))
    }
}

/// Sum and count of the strictly positive distances in one breadth-first
/// result; self-distances of zero are excluded.
pub fn positive_distance_stats(dm: &DistanceMap) -> (r: (u64, u64))
    requires
        dm.wf(),
    ensures
        r.0 as int == pos_sum(dm.dists@),
        r.1 as int == pos_count(dm.dists@),
        r.1 as int <= if dm.ids@.len() == 0 {
            0int
        } else {
            dm.ids@.len() - 1
        },
        r.0 as int <= r.1 as int * 0xffff_ffff,
{
    proof {
        lemma_nodup_i32_len(dm.ids@);
    }
    let ds = &dm.dists;
    let mut total: u64 = 0;
    let mut count: u64 = 0;
    let mut i: usize = 0;
    while i < ds.len()
        invariant
            dm.wf(),
            ds == &dm.dists,
            ds@.len() <= 0x1_0000_0000,
            i <= ds@.len(),
            total as int == pos_sum(ds@.take(i as int)),
            count as int == pos_count(ds@.take(i as int)),
            count as int <= if i == 0 {
                0int
            } else {
                i as int - 1
            },
            total as int <= count as int * 0xffff_ffff,
        decreases ds@.len() - i,
    {
        let d = ds[i];
        proof {
            assert(ds@.take(i as int + 1).drop_last() =~= ds@.take(i as int));
            assert(ds@.take(i as int + 1).last() == ds@[i as int]);
            assert(d <= i as int);
            assert(d <= 0xffff_ffff);
            lemma_mul_inequality(count as int, 0xffff_ffff, 0xffff_ffff);
        }
        if d > 0 {
            total = total + d as u64;
            count = count + 1;
        }
        i += 1;
    }
    proof {
        assert(ds@.take(ds@.len() as int) =~= ds@);
    }
    (total, count)
}

/// Runs one breadth-first traversal from every node of `sources` and
/// accumulates the strictly positive distances found. The result is pinned
/// to the unique breadth-first distance maps of the sources.
pub fn sampled_distance_stats(graph: &Graph, sources: &Vec<i32>) -> (r: (u128, u64))
    requires
        graph.wf(),
        sources@.no_duplicates(),
    ensures
        exists|maps: Seq<DistanceMap>|
            maps.len() == sources@.len() && (forall|i: int|
                0 <= i < maps.len() ==> (#[trigger] maps[i]).wf() && maps[i]@ == bfs_map(
                    *graph,
                    sources@[i],
                )) && r.0 as int == stats_sum(maps).0 && r.1 as int == stats_sum(maps).1,
{
    proof {
        lemma_nodup_i32_len(sources@);
    }
    let mut total: u128 = 0;
    let mut count: u64 = 0;
    let ghost mut maps: Seq<DistanceMap> = Seq::empty();
    let mut i: usize = 0;
    while i < sources.len()
        invariant
            graph.wf(),
            sources@.no_duplicates(),
            sources@.len() <= 0x1_0000_0000,
            i <= sources@.len(),
            maps.len() == i as int,
            forall|j: int|
                0 <= j < maps.len() ==> (#[trigger] maps[j]).wf() && maps[j]@ == bfs_map(
                    *graph,
                    sources@[j],
                ),
            total as int == stats_sum(maps).0,
            count as int == stats_sum(maps).1,
            total as int <= i as int * 0x1_0000_0000_0000_0000,
            count as int <= i as int * 0xffff_ffff,
        decreases sources@.len() - i,
    {
        let dm = bfs(graph, sources[i]);
        let (t, c) = positive_distance_stats(&dm);
        proof {
            lemma_nodup_i32_len(dm.ids@);
            assert(c as int <= 0xffff_ffff);
            lemma_mul_inequality(c as int, 0xffff_ffff, 0xffff_ffff);
            assert(t as int <= 0x1_0000_0000_0000_0000);
            lemma_mul_inequality(i as int + 1, 0x1_0000_0000, 0x1_0000_0000_0000_0000);
            lemma_mul_inequality(i as int + 1, 0x1_0000_0000, 0xffff_ffff);
        }
        total = total + t as u128;
        count = count + c;
        proof {
            let maps0 = maps;
            maps = maps.push(dm);
            assert(maps.drop_last() =~= maps0);
            assert(maps.last() == dm);
        }
        i += 1;
    }
    (total, count)
}

/// Accumulates, over a uniform random sample of source nodes drawn without
/// replacement, the sum and count of all strictly positive breadth-first
/// distances. `None` exactly when the graph has no adjacency entries; the
/// caller turns the pair into a mean.
pub fn calculate_average_distance_stats(graph: &Graph, sample_size: usize) -> (r: Option<
    (u128, u64),
>)
    requires
        graph.wf(),
    ensures
        r is None <==> graph.keys@.len() == 0,
        r matches Some(p) ==> exists|srcs: Seq<i32>, maps: Seq<DistanceMap>|
            srcs.no_duplicates() && srcs.len() == (if sample_size <= graph.keys@.len() {
                sample_size as int
            } else {
                graph.keys@.len() as int
            }) && (forall|i: int| 0 <= i < srcs.len() ==> graph.keys@.contains(#[trigger] srcs[i]))
            && maps.len() == srcs.len() && (forall|i: int|
                0 <= i < maps.len() ==> (#[trigger] maps[i]).wf() && maps[i]@ == bfs_map(
                    *graph,
                    srcs[i],
                )) && p.0 as int == stats_sum(maps).0 && p.1 as int == stats_sum(maps).1,
{
    let node_count = graph.keys.len();
    if node_count == 0 {
        return None;
    }
    let actual_sample_size = if sample_size < node_count {
        sample_size
    } else {
        node_count
    };
    let sampled = sample_nodes(&graph.keys, actual_sample_size);
    let (t, c) = sampled_distance_stats(graph, &sampled);
    proof {
        let maps = choose|maps: Seq<DistanceMap>|
            maps.len() == sampled@.len() && (forall|i: int|
                0 <= i < maps.len() ==> (#[trigger] maps[i]).wf() && maps[i]@ == bfs_map(
                    *graph,
                    sampled@[i],
                )) && t as int == stats_sum(maps).0 && c as int == stats_sum(maps).1;
        assert(sampled@.no_duplicates());
        assert(sampled@.len() == (if sample_size <= graph.keys@.len() {
            sample_size as int
        } else {
            graph.keys@.len() as int
        }));
    }
    Some((t, c))
}

/// One sampled pair per entry: the chosen start node, the chosen end node,
/// and the breadth-first result from the start node.
pub open spec fn six_trips_ok(
    g: Graph,
    num_pairs: usize,
    test_mode: bool,
    trips: Seq<(i32, i32, DistanceMap)>,
) -> bool {
    &&& trips.len() == (if g.keys@.len() == 0 {
        0int
    } else {
        num_pairs as int
    })
    &&& forall|i: int|
        0 <= i < trips.len() ==> {
            let (s, e, m) = #[trigger] trips[i];
            &&& g.keys@.contains(s)
            &&& (if test_mode {
                e == s
            } else {
                g.keys@.contains(e)
            })
            &&& m.wf()
            &&& m@ == bfs_map(g, s)
        }
}

/// Total distance and number of reachable pairs accumulated over a sequence
/// of sampled pairs.
pub open spec fn six_sum(trips: Seq<(i32, i32, DistanceMap)>) -> (int, int)
    decreases trips.len(),
{
    if trips.len() == 0 {
        (0, 0)
    } else {
        let p = six_sum(trips.drop_last());
        let (s, e, m) = trips.last();
        if m@.contains_key(e) {
            (p.0 + m@[e] as int, p.1 + 1)
        } else {
            p
        }
    }
}

/// Draws `num_pairs` random start/end pairs (ends forced equal to starts in
/// test mode), runs a breadth-first traversal per pair, and accumulates the
/// distance of every reachable pair. In test mode every pair is a self-pair
/// at distance zero, so the total is zero and, on a non-empty graph, every
/// pair counts; the caller turns the pair into a mean.
pub fn calculate_six_degrees_stats(graph: &Graph, num_pairs: usize, test_mode: bool) -> (r: (
    u128,
    u64,
))
    requires
        graph.wf(),
    ensures
        graph.keys@.len() == 0 ==> r.0 == 0 && r.1 == 0,
        test_mode ==> r.0 == 0,
        test_mode && graph.keys@.len() > 0 ==> r.1 as int == num_pairs as int,
        r.1 as int <= num_pairs as int,
        exists|trips: Seq<(i32, i32, DistanceMap)>|
            six_trips_ok(*graph, num_pairs, test_mode, trips) && r.0 as int == six_sum(trips).0
                && r.1 as int == six_sum(trips).1,
{
    if graph.keys.len() == 0 {
        proof {
            let trips = Seq::<(i32, i32, DistanceMap)>::empty();
            assert(six_trips_ok(*graph, num_pairs, test_mode, trips));
            assert(six_sum(trips) == (0int, 0int));
        }
        return (0, 0);
    }
    let mut total: u128 = 0;
    let mut count: u64 = 0;
    let ghost mut trips: Seq<(i32, i32, DistanceMap)> = Seq::empty();
    let mut k: usize = 0;
    while k < num_pairs
        invariant
            graph.wf(),
            graph.keys@.len() > 0,
            k <= num_pairs,
            trips.len() == k as int,
            forall|i: int|
                0 <= i < trips.len() ==> {
                    let (s, e, m) = #[trigger] trips[i];
                    &&& graph.keys@.contains(s)
                    &&& (if test_mode {
                        e == s
                    } else {
                        graph.keys@.contains(e)
                    })
                    &&& m.wf()
                    &&& m@ == bfs_map(*graph, s)
                },
            total as int == six_sum(trips).0,
            count as int == six_sum(trips).1,
            count as int <= k as int,
            total as int <= k as int * 0xffff_ffff,
            test_mode ==> total == 0,
            test_mode ==> count as int == k as int,
        decreases num_pairs - k,
    {
        let start_node = match choose_node(&graph.keys) {
            Some(x) => x,
            None => {
                proof {
                    assert(false);
                }
                0
            },
        };
        let end_node = if test_mode {
            start_node
        } else {
            match choose_node(&graph.keys) {
                Some(x) => x,
                None => {
                    proof {
                        assert(false);
                    }
                    0
                },
            }
        };
        let dm = bfs(graph, start_node);
        match dm.get(end_node) {
            Some(d) => {
                proof {
                    lemma_nodup_i32_len(dm.ids@);
                    assert(dm@.contains_key(end_node));
                    assert(dm.ids@.contains(end_node));
                    let i = dm.ids@.index_of(end_node);
                    assert(0 <= i < dm.ids@.len() && dm.ids@[i] == end_node);
                    assert(dm@[end_node] == dm.dists@[i]);
                    assert(d <= i);
                    assert(d <= 0xffff_ffff);
                    lemma_mul_inequality(k as int + 1, u64::MAX as int, 0xffff_ffff);
                    if test_mode {
                        assert(dm@[start_node] == 0);
                        assert(d == 0);
                    }
                }
                total = total + d as u128;
                count = count + 1;
            },
            None => {
                proof {
                    if test_mode {
                        assert(dm@.contains_key(start_node));
                        assert(false);
                    }
                }
            },
        }
        proof {
            let trips0 = trips;
            let trip = (start_node, end_node, dm);
            trips = trips.push(trip);
            assert(trips.drop_last() =~= trips0);
            assert(trips.last() == trip);
        }
        k += 1;
    }
    proof {
        assert(six_trips_ok(*graph, num_pairs, test_mode, trips));
    }
    (total, count)
}

/// Relies on rand's `IndexedRandom::choose`: one uniformly sampled element
/// of the slice, `None` exactly when the slice is empty.
#[verifier::external_body]
fn choose_node(nodes: &Vec<i32>) -> (r: Option<i32>)
    ensures
        r is Some <==> nodes@.len() > 0,
        r matches Some(x) ==> nodes@.contains(x),
{
    nodes.as_slice().choose(&mut rand::rng()).copied()
}

/// Relies on rand's `IteratorRandom::sample`: `amount` elements drawn
/// without replacement from distinct positions of the source, all of it when
/// the source is shorter than `amount`.
#[verifier::external_body]
fn sample_nodes(nodes: &Vec<i32>, amount: usize) -> (r: Vec<i32>)
    ensures
        r@.len() == (if amount <= nodes@.len() {
            amount as int
        } else {
            nodes@.len() as int
        }),
        forall|i: int| 0 <= i < r@.len() ==> nodes@.contains(#[trigger] r@[i]),
        nodes@.no_duplicates() ==> r@.no_duplicates(),
{
    nodes.iter().copied().sample(&mut rand::rng(), amount)
}

} // verus!
