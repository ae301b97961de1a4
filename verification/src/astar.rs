//! Best-first search over edges: the table of reached edges, the open list,
//! and the loop that expands the most promising edge until one arrives at
//! the end system, the open list runs dry or the time is up.

use crate::clock::{add_time, elapsed, no_time, now, whole_seconds};
use crate::data::{Connection, SmartGatesMap, SolarSystemId, StarMap};
use crate::exact::{
    extra, lemma_expanded_extra, lemma_found_exact, lemma_grow_extra, lemma_improve_extra,
    lemma_pop_fresh_extra, lemma_pop_stale_extra, lemma_seed_extra,
};
use crate::frontier::{
    Tree, advanced, chain, first_entry, inv, lemma_at, lemma_basics, lemma_best, lemma_chain,
    lemma_expanded, lemma_grow, lemma_grown_frame, lemma_improve, lemma_improved_frame,
    lemma_improved_shape, lemma_not_found, lemma_place, lemma_pop_fresh, lemma_pop_open_ok,
    lemma_pop_stale, lemma_seed, lemma_shape_total, lemma_skip, lemma_total_push,
    lemma_total_update, seed, total,
};
use crate::open::{OpenList, SmallestCostHolder};
use crate::parents::{slots, table_get_full, table_get_index, table_insert_full, table_new};
use crate::path::{heuristic, priced, successors, DistanceMap, PathOptimize, Query};
use indexmap::IndexMap;
use rustc_hash::FxHasher;
use std::hash::BuildHasherDefault;
use std::time::{Duration, Instant};
use vstd::multiset::Multiset;
use vstd::prelude::*;

verus! {

/// Figures of one search: the time it took in all, the time spent on
/// estimates, on listing edges and on working through them, and the number
/// of entries taken from the open list.
pub struct Stats {
    pub total_time: Duration,
    pub heuristic_spend: Duration,
    pub successors_spend: Duration,
    pub loop_spend: Duration,
    pub visited: u64,
}

/// How a search ended: with the edges from the start to the end and their
/// cost, without a path, or out of time.
pub enum PathFindResult<N, C> {
    Found((Vec<N>, C, Stats)),
    NotFound(Stats),
    Timeout(Stats),
}

/// `num_traits::zero` at `i64`: the number 0.
#[verifier::external_body]
fn zero() -> (r: i64)
    ensures
        r == 0,
{
    num_traits::zero()
}

/// Whether a search that may take `timeout` seconds, if any limit is set,
/// is out of time after `elapsed_secs` whole seconds.
pub open spec fn out_of_time(timeout: Option<u64>, elapsed_secs: u64) -> bool {
    timeout matches Some(limit) && elapsed_secs >= limit
}

/// Whether a search that may take `timeout` seconds, if any limit is set,
/// is out of time after `elapsed_secs` whole seconds.
pub fn timed_out(timeout: Option<u64>, elapsed_secs: u64) -> (r: bool)
    ensures
        r == out_of_time(timeout, elapsed_secs),
{
    match timeout {
        Some(limit) => elapsed_secs >= limit,
        None => false,
    }
}

/// Reads the clock where a limit is set, and says whether the search that
/// began at `since` is out of time.
fn time_is_up(timeout: Option<u64>, since: &Instant) -> (r: bool)
    ensures
        timeout is None ==> !r,
        timeout == Some(0u64) ==> r,
{
    if timeout.is_some() {
        let spent = elapsed(since);
        timed_out(timeout, whole_seconds(&spent))
    } else {
        false
    }
}

/// What `astar` promises of a path and a cost that it returns: the path
/// begins with the start edge and ends with an edge that arrives at the end
/// system; every other edge of it is one that the search may take out of
/// some system, and none carries the identifier of the start edge. Where
/// identifiers name edges, the path is a route and `cost` is its cost. Where
/// the estimate is admissible too, no route to the end system costs less.
pub open spec fn is_result(q: Query, path: Seq<Connection>, cost: int) -> bool {
    &&& path.len() >= 1
    &&& path[0] == q.start
    &&& q.is_goal(path.last())
    &&& cost >= 0
    &&& forall|k: int| 1 <= k < path.len() ==> q.offers(#[trigger] path[k]) && path[k].id != q.start.id
    &&& q.ids_name_edges() ==> q.is_answer(path) && q.walk_cost(path) == cost
    &&& q.ids_name_edges() && q.admissible() ==> q.is_best(cost)
}

/// The state of a search: the table of reached identifiers, the edge stored
/// for each, and the open list.
struct Search {
    table: IndexMap<u32, (usize, i64), BuildHasherDefault<FxHasher>>,
    nodes: Vec<Connection>,
    open: OpenList,
    stamps: Ghost<Seq<nat>>,
    tick: Ghost<nat>,
}

impl Search {
    /// The table as a value to reason about.
    spec fn tree(&self) -> Tree {
        Tree { slots: slots(self.table), nodes: self.nodes@, stamps: self.stamps@, tick: self.tick@ }
    }

    /// The open list is intact, and the search is as `inv` says.
    spec fn ok(&self, q: Query, u: int, k: int) -> bool {
        &&& self.open.wf()
        &&& inv(self.tree(), self.open.entries(), q, u, k)
    }

    /// As `ok`, with what holds beyond `inv` where identifiers name edges.
    spec fn fine(&self, q: Query, u: int, k: int, since: nat) -> bool {
        &&& self.ok(q, u, k)
        &&& q.ids_name_edges() ==> extra(self.tree(), self.open.entries(), q, u, since)
    }

    /// The state with which a search begins: the start edge in the table,
    /// and one entry for it in the open list.
    fn begin(start: &Connection, Ghost(q): Ghost<Query>) -> (s: Search)
        requires
            q.start == *start,
        ensures
            s.fine(q, -1, 0, 0),
            s.open.spec_len() == 1,
            s.tree() == seed(q),
            s.open.entries() == Multiset::<SmallestCostHolder>::empty().insert(first_entry()),
    {
        let mut table = table_new();
        let first = table_insert_full(&mut table, start.id, (usize::MAX, zero()));
        let mut nodes: Vec<Connection> = Vec::new();
        nodes.push(*start);
        let mut open = OpenList::new();
        open.push(SmallestCostHolder { estimated_cost: zero(), cost: zero(), index: 0 });
        let stamps: Ghost<Seq<nat>> = Ghost(Seq::empty().push(0nat));
        let tick: Ghost<nat> = Ghost(1nat);
        let s = Search { table, nodes, open, stamps, tick };
        proof {
            assert(s.open.entries() == Multiset::<SmallestCostHolder>::empty().insert(first_entry()));
            assert(first.1 is None) by {
                if first.1 is Some {
                    assert(first.0 < 0);
                }
            }
            assert(s.tree().stamps =~= seed(q).stamps);
            assert(s.tree().slots =~= seed(q).slots);
            assert(s.tree().nodes =~= seed(q).nodes);
            assert(s.tree() == seed(q));
            lemma_seed(q);
            lemma_seed_extra(q);
        }
        s
    }

    /// Takes the `k`-th edge out of the place `index`, which is under
    /// expansion at the cost `cost`: adds a place for it where the table does
    /// not hold its identifier, gives the place that holds it a smaller cost
    /// where going over the edge is cheaper, and leaves the table as it is
    /// otherwise.
    fn relax(
        &mut self,
        Ghost(q): Ghost<Query>,
        Ghost(k): Ghost<int>,
        Ghost(since): Ghost<nat>,
        index: usize,
        cost: i64,
        successor: Connection,
        move_cost: i64,
        distances: &DistanceMap,
        optimize: PathOptimize,
        heuristic_spend: &mut Duration,
    )
        requires
            old(self).fine(q, index as int, k, since),
            index < old(self).tree().len(),
            0 <= k < q.edges(old(self).nodes@[index as int].target).len(),
            successor == q.edges(old(self).nodes@[index as int].target)[k],
            move_cost == q.cost(successor),
            cost == old(self).tree().g(index as int),
            q.distances == distances@,
            q.optimize == optimize,
        ensures
            final(self).fine(q, index as int, k + 1, since),
            index < final(self).tree().len(),
            final(self).nodes@[index as int] == old(self).nodes@[index as int],
            cost == final(self).tree().g(index as int),
            advanced(
                old(self).tree(),
                old(self).open.spec_len(),
                final(self).tree(),
                final(self).open.spec_len(),
            ),
    {
        let ghost t = self.tree();
        let ghost open = self.open.entries();
        let ghost u = index as int;
        proof {
            lemma_basics(t, q);
            lemma_at(t, q, u);
        }
        let new_cost: i64 = cost + move_cost;
        match table_get_full(&self.table, successor.id) {
            None => {
                proof {
                    assert(!t.knows(successor.id));
                    lemma_grow(t, open, q, u, k);
                    if q.ids_name_edges() {
                        lemma_grow_extra(t, open, q, u, k, since);
                    }
                }
                let began = now();
                let h: i64 = heuristic(distances, &successor, optimize);
                *heuristic_spend = add_time(*heuristic_spend, elapsed(&began));
                let added = table_insert_full(&mut self.table, successor.id, (index, new_cost));
                self.nodes.push(successor);
                self.stamps = Ghost(self.stamps@.push(self.tick@));
                self.tick = Ghost(self.tick@ + 1);
                proof {
                    let t2 = t.grown(successor, u, new_cost as int);
                    assert(added.1 is None) by {
                        if added.1 is Some {
                            assert(t.slots[added.0 as int].0 == successor.id);
                        }
                    }
                    assert(self.tree() == t2);
                    lemma_at(t2, q, t.len());
                    lemma_total_push(t.slots, (successor.id, (index, new_cost)));
                }
                self.open.push(SmallestCostHolder { estimated_cost: new_cost + h, cost: new_cost, index: added.0 });
                proof {
                    lemma_grown_frame(t, q, successor, u, new_cost as int, u);
                }
            },
            Some((j, (_, known))) => {
                if known > new_cost {
                    proof {
                        lemma_improve(t, open, q, u, k, j as int);
                        lemma_improved_shape(t, q, u, j as int, new_cost as int);
                        if q.ids_name_edges() {
                            lemma_improve_extra(t, open, q, u, k, j as int, since);
                        }
                    }
                    let stored: Connection = self.nodes[j];
                    let began = now();
                    let h: i64 = heuristic(distances, &stored, optimize);
                    *heuristic_spend = add_time(*heuristic_spend, elapsed(&began));
                    let changed = table_insert_full(&mut self.table, successor.id, (index, new_cost));
                    self.stamps = Ghost(self.stamps@.update(j as int, self.tick@));
                    self.tick = Ghost(self.tick@ + 1);
                    proof {
                        let t3 = t.improved(j as int, u, new_cost as int);
                        assert(changed.1 is Some);
                        assert(changed.0 == j) by {
                            lemma_place(t, j as int);
                            lemma_place(t, changed.0 as int);
                        }
                        assert(self.tree() == t3);
                        lemma_at(t3, q, j as int);
                        lemma_total_update(t.slots, j as int, (successor.id, (index, new_cost)));
                        lemma_improved_frame(t, q, j as int, u, new_cost as int, u);
                    }
                    self.open.push(SmallestCostHolder { estimated_cost: new_cost + h, cost: new_cost, index: j });
                } else {
                    proof {
                        lemma_skip(t, open, q, u, k, j as int);
                    }
                }
            },
        }
    }

    /// Expands the place `index` at the cost `cost`: takes each edge out of
    /// it in turn.
    fn expand(
        &mut self,
        Ghost(q): Ghost<Query>,
        Ghost(since): Ghost<nat>,
        index: usize,
        cost: i64,
        out: &Vec<(Connection, i64)>,
        distances: &DistanceMap,
        optimize: PathOptimize,
        heuristic_spend: &mut Duration,
    )
        requires
            old(self).fine(q, index as int, 0, since),
            index < old(self).tree().len(),
            out@ == q.edges(old(self).nodes@[index as int].target).map_values(priced(optimize)),
            cost == old(self).tree().g(index as int),
            q.distances == distances@,
            q.optimize == optimize,
        ensures
            final(self).fine(q, -1, 0, 0),
            advanced(
                old(self).tree(),
                old(self).open.spec_len(),
                final(self).tree(),
                final(self).open.spec_len(),
            ),
    {
        let ghost edges = q.edges(self.nodes@[index as int].target);
        let ghost t0 = self.tree();
        let ghost n0 = self.open.spec_len();
        let mut k: usize = 0;
        while k < out.len()
            invariant
                0 <= k <= out@.len(),
                out@ == edges.map_values(priced(optimize)),
                self.fine(q, index as int, k as int, since),
                index < self.tree().len(),
                edges == q.edges(self.nodes@[index as int].target),
                cost == self.tree().g(index as int),
                q.distances == distances@,
                q.optimize == optimize,
                advanced(t0, n0, self.tree(), self.open.spec_len()),
            decreases out@.len() - k,
        {
            let (successor, move_cost) = out[k];
            self.relax(
                Ghost(q),
                Ghost(k as int),
                Ghost(since),
                index,
                cost,
                successor,
                move_cost,
                distances,
                optimize,
                heuristic_spend,
            );
            k += 1;
        }
        proof {
            lemma_expanded(self.tree(), self.open.entries(), q, index as int, k as int);
            if q.ids_name_edges() {
                lemma_expanded_extra(self.tree(), self.open.entries(), q, index as int, k as int, since);
            }
        }
    }

    /// Lists the edges from the start to the place `from`, along the
    /// parents.
    fn reverse_path(&self, Ghost(q): Ghost<Query>, from: usize) -> (path: Vec<Connection>)
        requires
            self.tree().shape(q),
            from < self.tree().len(),
        ensures
            path@ == chain(self.tree(), from as int),
    {
        let ghost t = self.tree();
        let ghost whole = chain(t, from as int);
        let mut back: Vec<Connection> = Vec::new();
        let mut i: usize = from;
        proof {
            lemma_basics(t, q);
            assert(whole =~= chain(t, i as int) + back@.reverse());
        }
        let n: usize = self.nodes.len();
        loop
            invariant
                t == self.tree(),
                t.shape(q),
                n == t.len(),
                i < n ==> whole == chain(t, i as int) + back@.reverse(),
                i >= n ==> whole == back@.reverse(),
            ensures
                whole == back@.reverse(),
            decreases
                    (if i < n {
                        t.g(i as int) + 1
                    } else {
                        0
                    }),
                    (if i < n {
                        t.stamps[i as int] + 1
                    } else {
                        0
                    }),
        {
            let slot = table_get_index(&self.table, i);
            proof {
                lemma_basics(t, q);
            }
            match slot {
                None => {
                    break ;
                },
                Some((_, (parent, _))) => {
                    let node: Connection = self.nodes[i];
                    proof {
                        lemma_at(t, q, i as int);
                        let shown = back@.reverse();
                        assert(back@.push(node).reverse() =~= seq![node] + shown);
                        if i >= 1 {
                            assert(chain(t, i as int) == chain(t, parent as int).push(node));
                            assert(whole =~= chain(t, parent as int) + (seq![node] + shown));
                        } else {
                            assert(chain(t, 0) =~= seq![node]);
                        }
                    }
                    back.push(node);
                    i = parent;
                },
            }
        }
        let mut path: Vec<Connection> = Vec::new();
        let mut left: usize = back.len();
        while left > 0
            invariant
                0 <= left <= back@.len(),
                path@.len() == back@.len() - left,
                forall|m: int| 0 <= m < path@.len() ==> path@[m] == back@[back@.len() - 1 - m],
            decreases left,
        {
            left -= 1;
            path.push(back[left]);
        }
        assert(path@ =~= back@.reverse());
        path
    }
}

/// Searches for a cheapest path from the edge `start` to the system `end`.
///
/// The search goes over the extra edges in `smart_gates` and the edges of
/// `star_map`, with jumps of at most `jump_distance` light-years, costs them
/// as `optimize` says, and estimates what is left from `distances`. With a
/// `timeout`, it gives up once that many whole seconds have passed.
///
/// It ends out of time only where a limit is set, and at once where the
/// limit is 0. A path that it returns is as `is_result` says; where the
/// start edge arrives at the end system, it is that edge alone, at no cost.
/// Where identifiers name edges and it finds no path, no route arrives at
/// the end system.
pub fn astar(
    start: &Connection,
    star_map: &StarMap,
    smart_gates: &SmartGatesMap,
    distances: &DistanceMap,
    end: SolarSystemId,
    jump_distance: u16,
    optimize: PathOptimize,
    timeout: Option<u64>,
) -> (r: PathFindResult<Connection, i64>)
    ensures
        timeout is None ==> !(r is Timeout),
        timeout == Some(0u64) ==> r is Timeout,
        start.target == end ==> !(r is NotFound),
        start.target == end ==> (r matches PathFindResult::Found(found) ==> found.0@ == seq![*start]
            && found.1 == 0 && found.2.visited == 1),
        timeout == Some(0u64) ==> (r matches PathFindResult::Timeout(stats) ==> stats.visited == 0),
        r matches PathFindResult::Found(found) ==> is_result(
            Query {
                stars: star_map@,
                gates: smart_gates@,
                limit: jump_distance,
                optimize: optimize,
                distances: distances@,
                start: *start,
                end: end,
            },
            found.0@,
            found.1 as int,
        ),
        r is NotFound ==> {
            let q = Query {
                stars: star_map@,
                gates: smart_gates@,
                limit: jump_distance,
                optimize: optimize,
                distances: distances@,
                start: *start,
                end: end,
            };
            q.ids_name_edges() ==> !q.reachable()
        },
{
    let ghost q = Query {
        stars: star_map@,
        gates: smart_gates@,
        limit: jump_distance,
        optimize: optimize,
        distances: distances@,
        start: *start,
        end: end,
    };
    let mut stats = Stats {
        total_time: no_time(),
        heuristic_spend: no_time(),
        successors_spend: no_time(),
        loop_spend: no_time(),
        visited: 0,
    };
    let start_time = now();
    let mut search = Search::begin(start, Ghost(q));
    loop
        invariant
            search.fine(q, -1, 0, 0),
            timeout == Some(0u64) ==> search.open.spec_len() > 0 && stats.visited == 0,
            start.target == end ==> stats.visited == 0,
            start.target == end ==> search.tree() == seed(q) && search.open.entries()
                == Multiset::<SmallestCostHolder>::empty().insert(first_entry()),
            q == (Query {
                stars: star_map@,
                gates: smart_gates@,
                limit: jump_distance,
                optimize: optimize,
                distances: distances@,
                start: *start,
                end: end,
            }),
        ensures
            search.ok(q, -1, 0),
            search.open.spec_len() == 0,
            timeout != Some(0u64),
            start.target != end,
        decreases 0x1_0000_0000 - search.tree().len(), total(search.tree().slots), search.open.spec_len(),
    {
        let ghost t = search.tree();
        let ghost open = search.open.entries();
        proof {
            lemma_basics(t, q);
            lemma_shape_total(t, q);
        }
        let popped = search.open.pop();
        if popped.is_none() {
            proof {
                search.open.lemma_len();
                if start.target == end {
                    assert(open.count(first_entry()) > 0);
                }
            }
            break ;
        }
        let entry: SmallestCostHolder = popped.unwrap();
        if time_is_up(timeout, &start_time) {
            stats.total_time = elapsed(&start_time);
            return PathFindResult::Timeout(stats);
        }
        if stats.visited < u64::MAX {
            stats.visited = stats.visited + 1;
        }
        let ghost rest = search.open.entries();
        proof {
            lemma_pop_open_ok(t, open, rest, q, entry);
        }
        let index: usize = entry.index;
        let cost: i64 = entry.cost;
        let slot = table_get_index(&search.table, index);
        let known: i64 = slot.unwrap().1.1;
        let node: Connection = search.nodes[index];
        if node.target == end {
            let path = search.reverse_path(Ghost(q), index);
            stats.total_time = elapsed(&start_time);
            proof {
                lemma_chain(t, q, index as int);
                lemma_at(t, q, index as int);
                if start.target == end {
                    assert(open.count(entry) > 0);
                    assert(entry == first_entry());
                    assert(chain(t, 0) =~= seq![*start]);
                }
                if q.ids_name_edges() {
                    assert(t.sound(q));
                    lemma_found_exact(t, open, rest, q, entry);
                    if q.admissible() {
                        assert forall|p: Seq<Connection>| #[trigger] q.is_answer(p) implies cost
                            <= q.walk_cost(p) by {
                            lemma_best(t, open, q, entry, p);
                        }
                        assert(q.is_answer(path@));
                    }
                }
            }
            return PathFindResult::Found((path, cost, stats));
        }
        if cost > known {
            proof {
                lemma_pop_stale(t, open, rest, q, entry);
                if q.ids_name_edges() {
                    lemma_pop_stale_extra(t, open, rest, q, entry);
                }
            }
            continue ;
        }
        assert(start.target != end) by {
            if start.target == end {
                assert(open.count(entry) > 0);
                assert(entry == first_entry());
            }
        }
        proof {
            lemma_pop_fresh(t, open, rest, q, entry);
            if q.ids_name_edges() {
                lemma_pop_fresh_extra(t, open, rest, q, entry);
            }
        }
        let began = now();
        let out = successors(star_map, smart_gates, &node, jump_distance, optimize);
        stats.successors_spend = add_time(stats.successors_spend, elapsed(&began));
        proof {
            reveal(Query::edges);
        }
        let began = now();
        let mut heuristic_spend = stats.heuristic_spend;
        search.expand(Ghost(q), Ghost(t.tick), index, cost, &out, distances, optimize, &mut heuristic_spend);
        stats.heuristic_spend = heuristic_spend;
        stats.loop_spend = add_time(stats.loop_spend, elapsed(&began));
        proof {
            lemma_basics(search.tree(), q);
            lemma_shape_total(search.tree(), q);
        }
    }
    stats.total_time = elapsed(&start_time);
    proof {
        if q.ids_name_edges() {
            search.open.lemma_len();
            assert forall|p: Seq<Connection>| !#[trigger] q.is_answer(p) by {
                if q.is_route(p) {
                    lemma_not_found(search.tree(), search.open.entries(), q, p);
                }
            }
        }
    }
    PathFindResult::NotFound(stats)
}

} // verus!
