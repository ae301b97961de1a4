//! The cost model of the three optimization modes and the edges that a
//! search may take out of a system.

use crate::astar::{astar, is_result, PathFindResult, Stats};
use crate::clock::whole_millis;
use crate::data::{
    adjacency, as_external, as_internal, ids_apart, lemma_internal_external, lemma_reach_len_unique, within_reach, ConnType,
    Connection, PathResult, PathResultConnection, PathResultStats, PathResultStatus, SmartGatesMap,
    SolarSystemId, Star, StarMap,
};
use std::collections::HashMap;
use vstd::prelude::*;

verus! {

/// For each system, the straight-line distance to the end system of a query
/// in whole light-years, rounded down.
pub type DistanceMap = HashMap<SolarSystemId, u32>;

/// What a path query minimizes.
#[derive(Debug, Clone, Copy, PartialEq, Eq, Structural)]
pub enum PathOptimize {
    Fuel,
    Distance,
    Hops,
}

/// Cost of taking the edge `c`: its length where distance is minimized; its
/// length for a jump and 1 for a gate or smart gate where fuel is; 100 where
/// the number of hops is.
pub open spec fn edge_cost(optimize: PathOptimize, c: Connection) -> int {
    match optimize {
        PathOptimize::Distance => c.distance as int,
        PathOptimize::Fuel => if c.conn_type == ConnType::Jump {
            c.distance as int
        } else {
            1
        },
        PathOptimize::Hops => 100,
    }
}

/// Cost of taking the edge `c`.
pub fn step_cost(optimize: PathOptimize, c: &Connection) -> (r: i64)
    ensures
        r == edge_cost(optimize, *c),
        0 <= r <= 0xffff,
{
    match optimize {
        PathOptimize::Distance => c.distance as i64,
        PathOptimize::Fuel => match c.conn_type {
            ConnType::Jump => c.distance as i64,
            _ => 1,
        },
        PathOptimize::Hops => 100,
    }
}

/// The distance that `distances` gives for a system, 0 where it gives none.
pub open spec fn distance_left(distances: Map<SolarSystemId, u32>, system: SolarSystemId) -> int {
    if distances.contains_key(system) {
        distances[system] as int
    } else {
        0
    }
}

/// Estimate of the cost that is left after arriving over the edge `c`: the
/// straight-line distance from its target to the end where distance is
/// minimized; the same after a jump and 0 after a gate or smart gate where
/// fuel is; 0 where the number of hops is.
pub open spec fn estimate(
    distances: Map<SolarSystemId, u32>,
    c: Connection,
    optimize: PathOptimize,
) -> int {
    match optimize {
        PathOptimize::Distance => distance_left(distances, c.target),
        PathOptimize::Fuel => if c.conn_type == ConnType::Jump {
            distance_left(distances, c.target)
        } else {
            0
        },
        PathOptimize::Hops => 0,
    }
}

/// Estimate of the cost that is left after arriving over the edge `conn`.
pub fn heuristic(distances: &DistanceMap, conn: &Connection, optimize: PathOptimize) -> (r: i64)
    ensures
        r == estimate(distances@, *conn, optimize),
        0 <= r <= 0xffff_ffff,
{
    broadcast use vstd::std_specs::hash::group_hash_axioms;

    let skip: bool = match optimize {
        PathOptimize::Hops => true,
        PathOptimize::Fuel => !(conn.conn_type == ConnType::Jump),
        PathOptimize::Distance => false,
    };
    if skip {
        return 0;
    }
    match distances.get(&conn.target) {
        Some(d) => *d as i64,
        None => 0,
    }
}

/// The edges that the graph holds for a system, none for a system that it
/// does not hold.
pub open spec fn base_edges(stars: Map<SolarSystemId, Star>, system: SolarSystemId) -> Seq<Connection> {
    if stars.contains_key(system) {
        stars[system].connections@
    } else {
        Seq::empty()
    }
}

/// The extra edges of a query that leave a system.
pub open spec fn extra_edges(gates: Map<SolarSystemId, Vec<Connection>>, system: SolarSystemId) -> Seq<
    Connection,
> {
    if gates.contains_key(system) {
        gates[system]@
    } else {
        Seq::empty()
    }
}

/// The edges that a search may take out of a system: the extra edges of the
/// query first, then the edges of the graph up to the first jump that is
/// longer than `limit`.
pub open spec fn edges_from(
    stars: Map<SolarSystemId, Star>,
    gates: Map<SolarSystemId, Vec<Connection>>,
    system: SolarSystemId,
    limit: u16,
) -> Seq<Connection> {
    extra_edges(gates, system) + within_reach(base_edges(stars, system), limit)
}

/// What a search is asked: the graph, the extra edges of the query, the jump
/// range, the mode, the distances to the end system, the edge that the
/// search starts on and the system that it is to reach.
pub struct Query {
    pub stars: Map<SolarSystemId, Star>,
    pub gates: Map<SolarSystemId, Vec<Connection>>,
    pub limit: u16,
    pub optimize: PathOptimize,
    pub distances: Map<SolarSystemId, u32>,
    pub start: Connection,
    pub end: SolarSystemId,
}

impl Query {
    /// The edges that the search may take out of a system.
    #[verifier::opaque]
    pub open spec fn edges(self, system: SolarSystemId) -> Seq<Connection> {
        edges_from(self.stars, self.gates, system, self.limit)
    }

    /// Cost of taking an edge.
    pub open spec fn cost(self, c: Connection) -> int {
        edge_cost(self.optimize, c)
    }

    /// Estimate of the cost that is left after arriving over an edge.
    pub open spec fn est(self, c: Connection) -> int {
        estimate(self.distances, c, self.optimize)
    }

    /// Whether an edge arrives at the end system.
    pub open spec fn is_goal(self, c: Connection) -> bool {
        c.target == self.end
    }

    /// Whether some system has `c` among the edges that the search may take
    /// out of it.
    pub open spec fn offers(self, c: Connection) -> bool {
        exists|system: SolarSystemId, k: int|
            0 <= k < self.edges(system).len() && #[trigger] self.edges(system)[k] == c
    }

    /// Whether an identifier names one edge: any two edges that the search
    /// may take and that carry one identifier are the same edge.
    pub open spec fn ids_name_edges(self) -> bool {
        forall|a: Connection, b: Connection|
            #![trigger self.offers(a), self.offers(b)]
            self.offers(a) && self.offers(b) && a.id == b.id ==> a == b
    }

    /// Whether the search may go on over `b` after arriving over `a`: `b`
    /// leaves the target of `a`, and does not carry the identifier of the
    /// start edge, which the search keeps for the start.
    pub open spec fn steps(self, a: Connection, b: Connection) -> bool {
        self.edges(a.target).contains(b) && b.id != self.start.id
    }

    /// Whether each edge of `p` but the first is one that the search may go
    /// on over after the edge before it.
    pub open spec fn is_walk(self, p: Seq<Connection>) -> bool {
        &&& p.len() >= 1
        &&& forall|k: int| 1 <= k < p.len() ==> self.steps(p[k - 1], #[trigger] p[k])
    }

    /// Whether `p` is a walk that begins with the start edge.
    pub open spec fn is_route(self, p: Seq<Connection>) -> bool {
        self.is_walk(p) && p[0] == self.start
    }

    /// Sum of the costs of the edges of `p` but the first, which stands for
    /// where the walk begins.
    pub open spec fn walk_cost(self, p: Seq<Connection>) -> int
        decreases p.len(),
    {
        if p.len() <= 1 {
            0
        } else {
            self.walk_cost(p.drop_last()) + self.cost(p.last())
        }
    }

    /// Whether `p` is a route that arrives at the end system.
    pub open spec fn is_answer(self, p: Seq<Connection>) -> bool {
        self.is_route(p) && self.is_goal(p.last())
    }

    /// Whether some route arrives at the end system.
    pub open spec fn reachable(self) -> bool {
        exists|p: Seq<Connection>| #[trigger] self.is_answer(p)
    }

    /// Whether no route that arrives at the end system costs less than
    /// `cost`.
    pub open spec fn is_best(self, cost: int) -> bool {
        forall|p: Seq<Connection>| #[trigger] self.is_answer(p) ==> cost <= self.walk_cost(p)
    }

    /// Whether the estimate never exceeds what is left: for every walk that
    /// ends at the end system, the estimate after its first edge is at most
    /// the cost of the walk.
    pub open spec fn admissible(self) -> bool {
        forall|w: Seq<Connection>|
            #![trigger self.walk_cost(w)]
            self.is_walk(w) && self.is_goal(w.last()) ==> self.est(w[0]) <= self.walk_cost(w)
    }
}

/// The step from an edge to the pair of the edge and its cost.
pub open spec fn priced(optimize: PathOptimize) -> spec_fn(Connection) -> (Connection, i64) {
    |c: Connection| (c, edge_cost(optimize, c) as i64)
}

/// Appends the edges of `edges` before position `end`, each with its cost.
fn append_priced(
    out: &mut Vec<(Connection, i64)>,
    edges: &Vec<Connection>,
    end: usize,
    optimize: PathOptimize,
)
    requires
        end <= edges@.len(),
    ensures
        final(out)@ == old(out)@ + edges@.take(end as int).map_values(priced(optimize)),
{
    let ghost before = out@;
    let mut i: usize = 0;
    while i < end
        invariant
            0 <= i <= end <= edges@.len(),
            out@ == before + edges@.take(i as int).map_values(priced(optimize)),
        decreases end - i,
    {
        let c: Connection = edges[i];
        out.push((c, step_cost(optimize, &c)));
        proof {
            assert(edges@.take(i + 1) =~= edges@.take(i as int).push(c));
            assert(edges@.take(i + 1).map_values(priced(optimize)) =~= edges@.take(i as int).map_values(
                priced(optimize),
            ).push(priced(optimize)(c)));
        }
        i += 1;
    }
}

/// Lists the edges that a search may take after arriving over `conn`, each
/// with its cost: the extra edges of the query that leave the target of
/// `conn`, then the edges that the graph holds for it, up to the first jump
/// longer than `jump_distance`.
pub fn successors(
    star_map: &StarMap,
    smart_gates: &SmartGatesMap,
    conn: &Connection,
    jump_distance: u16,
    optimize: PathOptimize,
) -> (r: Vec<(Connection, i64)>)
    ensures
        r@ == edges_from(star_map@, smart_gates@, conn.target, jump_distance).map_values(priced(optimize)),
{
    broadcast use vstd::std_specs::hash::group_hash_axioms;

    let mut out: Vec<(Connection, i64)> = Vec::new();
    let ghost extra = extra_edges(smart_gates@, conn.target);
    let ghost base = base_edges(star_map@, conn.target);
    match smart_gates.get(&conn.target) {
        Some(gates) => {
            append_priced(&mut out, gates, gates.len(), optimize);
            assert(gates@.take(gates@.len() as int) =~= gates@);
        },
        None => {},
    }
    assert(out@ =~= extra.map_values(priced(optimize)));
    match star_map.get(&conn.target) {
        Some(star) => {
            let n: usize = star.connections.len();
            let mut end: usize = 0;
            while end < n && !(star.connections[end].conn_type == ConnType::Jump
                && star.connections[end].distance > jump_distance)
                invariant
                    n == star.connections@.len(),
                    0 <= end <= n,
                    forall|k: int| 0 <= k < end ==> !(#[trigger] star.connections@[k]).is_long_jump(jump_distance),
                decreases n - end,
            {
                end += 1;
            }
            proof {
                lemma_reach_len_unique(star.connections@, jump_distance, end as int);
            }
            append_priced(&mut out, &star.connections, end, optimize);
        },
        None => {
            assert(within_reach(base, jump_distance) =~= Seq::<Connection>::empty());
        },
    }
    assert(out@ =~= (extra + within_reach(base, jump_distance)).map_values(priced(optimize)));
    out
}

/// The edge on which the search for a path out of the system `start` begins:
/// a jump of no length into `start`, under the identifier 0.
pub open spec fn start_edge(start: SolarSystemId) -> Connection {
    Connection { id: 0, conn_type: ConnType::Jump, distance: 0, target: start }
}

/// What a path query asks of the search.
pub open spec fn route_query(
    stars: Map<SolarSystemId, Star>,
    gates: Map<SolarSystemId, Vec<Connection>>,
    distances: Map<SolarSystemId, u32>,
    start: SolarSystemId,
    end: SolarSystemId,
    limit: u16,
    optimize: PathOptimize,
) -> Query {
    Query {
        stars: stars,
        gates: gates,
        limit: limit,
        optimize: optimize,
        distances: distances,
        start: start_edge(start),
        end: end,
    }
}

/// The figures of a search as callers receive them, with the cost `cost`.
fn figures(cost: i64, stats: &Stats) -> (r: PathResultStats)
    ensures
        r.cost == cost,
        r.visited == stats.visited,
{
    PathResultStats {
        cost,
        total_time: whole_millis(&stats.total_time),
        successors_spend: whole_millis(&stats.successors_spend),
        loop_spend: whole_millis(&stats.loop_spend),
        visited: stats.visited,
    }
}

/// Finds a cheapest path from the system `start` to the system `end`.
///
/// The search begins on `start_edge`, which the answer leaves out. It goes
/// over the extra edges in `smart_gates` and the edges of `star_map`, with
/// jumps of at most `jump_distance` light-years, and estimates what is left
/// from `distances`.
///
/// The answer is out of time only where a limit is set, and at once where
/// the limit is 0. Without a path it holds no edges and the cost 0. With
/// one, the start edge followed by the edges of the answer is as `is_result`
/// says of the cost in the answer; where the two systems are one, the path
/// is empty.
pub fn calc_path(
    star_map: &StarMap,
    smart_gates: &SmartGatesMap,
    distances: &DistanceMap,
    start: &Star,
    end: &Star,
    jump_distance: u16,
    optimize: PathOptimize,
    timeout: Option<u64>,
) -> (r: PathResult)
    ensures
        timeout is None ==> r.status != PathResultStatus::Timeout,
        timeout == Some(0u64) ==> r.status == PathResultStatus::Timeout && r.stats.visited == 0,
        start.id == end.id ==> r.status != PathResultStatus::NotFound,
        start.id == end.id && r.status == PathResultStatus::Found ==> r.path@.len() == 0 && r.stats.cost == 0
            && r.stats.visited == 1,
        r.status != PathResultStatus::Found ==> r.path@.len() == 0 && r.stats.cost == 0,
        r.status == PathResultStatus::Found ==> is_result(
            route_query(star_map@, smart_gates@, distances@, start.id, end.id, jump_distance, optimize),
            seq![start_edge(start.id)] + r.path@.map_values(as_internal()),
            r.stats.cost as int,
        ),
        r.status == PathResultStatus::NotFound ==> {
            let q = route_query(
                star_map@,
                smart_gates@,
                distances@,
                start.id,
                end.id,
                jump_distance,
                optimize,
            );
            q.ids_name_edges() ==> !q.reachable()
        },
{
    let init_conn = Connection { id: 0, conn_type: ConnType::Jump, distance: 0, target: start.id };
    let found = astar(&init_conn, star_map, smart_gates, distances, end.id, jump_distance, optimize, timeout);
    match found {
        PathFindResult::Found((route, cost, stats)) => {
            let mut path: Vec<PathResultConnection> = Vec::new();
            let mut i: usize = 1;
            while i < route.len()
                invariant
                    1 <= i <= route@.len(),
                    path@ == route@.subrange(1, i as int).map_values(as_external()),
                decreases route@.len() - i,
            {
                let c: Connection = route[i];
                proof {
                    assert(route@.subrange(1, i + 1) =~= route@.subrange(1, i as int).push(c));
                    assert(route@.subrange(1, i + 1).map_values(as_external()) =~= route@.subrange(
                        1,
                        i as int,
                    ).map_values(as_external()).push(c.external_form()));
                }
                path.push(c.to_external());
                i += 1;
            }
            proof {
                let back = seq![start_edge(start.id)] + path@.map_values(as_internal());
                assert(back.len() == route@.len());
                assert forall|k: int| 0 <= k < back.len() implies back[k] == route@[k] by {
                    if k >= 1 {
                        lemma_internal_external(route@[k]);
                        assert(path@[k - 1] == route@.subrange(1, i as int)[k - 1].external_form());
                    }
                }
                assert(back =~= route@);
            }
            PathResult { status: PathResultStatus::Found, path, stats: figures(cost, &stats) }
        },
        PathFindResult::NotFound(stats) => {
            PathResult { status: PathResultStatus::NotFound, path: Vec::new(), stats: figures(0, &stats) }
        },
        PathFindResult::Timeout(stats) => {
            PathResult { status: PathResultStatus::Timeout, path: Vec::new(), stats: figures(0, &stats) }
        },
    }
}

/// A walk costs nothing or more.
pub proof fn lemma_walk_cost_nonneg(q: Query, p: Seq<Connection>)
    ensures
        q.walk_cost(p) >= 0,
    decreases p.len(),
{
    if p.len() > 1 {
        lemma_walk_cost_nonneg(q, p.drop_last());
    }
}

/// Where the number of hops is minimized, the estimate is admissible.
pub proof fn lemma_hops_admissible(q: Query)
    requires
        q.optimize == PathOptimize::Hops,
    ensures
        q.admissible(),
{
    assert forall|w: Seq<Connection>| #![trigger q.walk_cost(w)] q.is_walk(w) && q.is_goal(w.last()) implies q.est(
        w[0],
    ) <= q.walk_cost(w) by {
        lemma_walk_cost_nonneg(q, w);
    }
}

/// Where every distance to the end is 0, the estimate is admissible.
pub proof fn lemma_no_distances_admissible(q: Query)
    requires
        forall|system: SolarSystemId| distance_left(q.distances, system) == 0,
    ensures
        q.admissible(),
{
    assert forall|w: Seq<Connection>| #![trigger q.walk_cost(w)] q.is_walk(w) && q.is_goal(w.last()) implies q.est(
        w[0],
    ) <= q.walk_cost(w) by {
        lemma_walk_cost_nonneg(q, w);
        assert(distance_left(q.distances, w[0].target) == 0);
    }
}

/// Whether no two edges of the graph share an identifier, no two different
/// extra edges of the query do, and no extra edge shares one with an edge
/// of the graph.
pub open spec fn ids_kept_apart(q: Query) -> bool {
    &&& ids_apart(adjacency(q.stars))
    &&& forall|s1: SolarSystemId, i1: int, s2: SolarSystemId, i2: int|
        0 <= i1 < extra_edges(q.gates, s1).len() && 0 <= i2 < extra_edges(q.gates, s2).len() && (
        #[trigger] extra_edges(q.gates, s1)[i1]).id == (#[trigger] extra_edges(q.gates, s2)[i2]).id
            ==> extra_edges(q.gates, s1)[i1] == extra_edges(q.gates, s2)[i2]
    &&& forall|s1: SolarSystemId, i1: int, s2: SolarSystemId, i2: int|
        0 <= i1 < extra_edges(q.gates, s1).len() && 0 <= i2 < base_edges(q.stars, s2).len() ==> (
        #[trigger] extra_edges(q.gates, s1)[i1]).id != (#[trigger] base_edges(q.stars, s2)[i2]).id
}

/// Where identifiers are kept apart, they name edges.
pub proof fn lemma_ids_name_edges(q: Query)
    requires
        ids_kept_apart(q),
    ensures
        q.ids_name_edges(),
{
    reveal(Query::edges);
    assert forall|a: Connection, b: Connection|
        #![trigger q.offers(a), q.offers(b)]
        q.offers(a) && q.offers(b) && a.id == b.id implies a == b by {
        let (s1, k1) = choose|system: SolarSystemId, k: int|
            0 <= k < q.edges(system).len() && #[trigger] q.edges(system)[k] == a;
        let (s2, k2) = choose|system: SolarSystemId, k: int|
            0 <= k < q.edges(system).len() && #[trigger] q.edges(system)[k] == b;
        let e1 = extra_edges(q.gates, s1);
        let e2 = extra_edges(q.gates, s2);
        let b1 = base_edges(q.stars, s1);
        let b2 = base_edges(q.stars, s2);
        crate::data::lemma_reach_len(b1, q.limit);
        crate::data::lemma_reach_len(b2, q.limit);
        let adj = adjacency(q.stars);
        if k1 < e1.len() {
            assert(e1[k1] == a);
        } else {
            assert(b1[k1 - e1.len()] == a);
            assert(adj[s1][k1 - e1.len()] == a);
        }
        if k2 < e2.len() {
            assert(e2[k2] == b);
        } else {
            assert(b2[k2 - e2.len()] == b);
            assert(adj[s2][k2 - e2.len()] == b);
        }
    }
}

} // verus!
