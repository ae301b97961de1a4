//! The graph's data model: edge kinds, edges, systems, and the result
//! records handed back to callers.

use std::cmp::Ordering;
use std::collections::HashMap;
use vstd::prelude::*;

verus! {

/// Identifier of an edge.
pub type ConnectionId = u32;

/// Compact key of a solar system.
pub type SolarSystemId = u16;

/// The graph: every system under its compact key.
pub type StarMap = HashMap<SolarSystemId, Star>;

/// The extra edges of one query, listed under the system they leave.
pub type SmartGatesMap = HashMap<SolarSystemId, Vec<Connection>>;

/// Kind of an edge. Gates and smart gates can always be taken; a jump only
/// when its length fits the jump range of the query.
#[derive(Debug, Clone, Copy, PartialEq, Eq, PartialOrd, Ord, Hash, Structural)]
pub enum ConnType {
    Gate,
    SmartGate,
    Jump,
}

impl ConnType {
    /// Position of the kind in the fixed order `Gate < SmartGate < Jump`.
    pub open spec fn rank_spec(self) -> int {
        match self {
            ConnType::Gate => 0,
            ConnType::SmartGate => 1,
            ConnType::Jump => 2,
        }
    }

    /// Position of the kind in the fixed order `Gate < SmartGate < Jump`.
    pub fn rank(&self) -> (r: u8)
        ensures
            r == self.rank_spec(),
    {
        match self {
            ConnType::Gate => 0,
            ConnType::SmartGate => 1,
            ConnType::Jump => 2,
        }
    }
}

/// A directed edge: its identifier, kind, length in whole light-years and
/// the system it leads to.
#[derive(Debug, Clone, Copy)]
pub struct Connection {
    pub id: ConnectionId,
    pub conn_type: ConnType,
    pub distance: u16,
    pub target: SolarSystemId,
}

impl PartialEq for Connection {
    /// Edges are equal where their identifiers are.
    fn eq(&self, other: &Connection) -> (r: bool) {
        self.id == other.id
    }
}

impl Eq for Connection {

}

impl vstd::std_specs::cmp::PartialEqSpecImpl for Connection {
    open spec fn obeys_eq_spec() -> bool {
        true
    }

    open spec fn eq_spec(&self, other: &Connection) -> bool {
        self.id == other.id
    }
}

impl PartialOrd for Connection {
    /// Edges are ordered by kind first, by length among edges of one kind.
    fn partial_cmp(&self, other: &Connection) -> (r: Option<Ordering>) {
        let a: u8 = self.conn_type.rank();
        let b: u8 = other.conn_type.rank();
        if a < b {
            Some(Ordering::Less)
        } else if a > b {
            Some(Ordering::Greater)
        } else if self.distance < other.distance {
            Some(Ordering::Less)
        } else if self.distance > other.distance {
            Some(Ordering::Greater)
        } else {
            Some(Ordering::Equal)
        }
    }
}

impl vstd::std_specs::cmp::PartialOrdSpecImpl for Connection {
    open spec fn obeys_partial_cmp_spec() -> bool {
        true
    }

    open spec fn partial_cmp_spec(&self, other: &Connection) -> Option<Ordering> {
        if self.conn_type.rank_spec() < other.conn_type.rank_spec() {
            Some(Ordering::Less)
        } else if self.conn_type.rank_spec() > other.conn_type.rank_spec() {
            Some(Ordering::Greater)
        } else if self.distance < other.distance {
            Some(Ordering::Less)
        } else if self.distance > other.distance {
            Some(Ordering::Greater)
        } else {
            Some(Ordering::Equal)
        }
    }
}

/// `u32::hash`: feeds a number to a hasher. Nothing is claimed of it.
pub assume_specification<H: std::hash::Hasher>[ <u32 as std::hash::Hash>::hash::<H> ](
    value: &u32,
    state: &mut H,
);

impl std::hash::Hash for Connection {
    /// An edge hashes as its identifier does.
    fn hash<H: std::hash::Hasher>(&self, state: &mut H) {
        self.id.hash(state)
    }
}

impl Connection {
    /// Whether `self` comes no later than `other` in the order of an
    /// adjacency list: by kind first, by length among edges of one kind.
    pub open spec fn precedes(self, other: Connection) -> bool {
        ||| self.conn_type.rank_spec() < other.conn_type.rank_spec()
        ||| (self.conn_type == other.conn_type && self.distance <= other.distance)
    }

    /// Whether the edge is a jump longer than `limit` light-years.
    pub open spec fn is_long_jump(self, limit: u16) -> bool {
        self.conn_type == ConnType::Jump && self.distance > limit
    }

    /// The edge that the record `c` was made from.
    pub open spec fn internal_form(c: PathResultConnection) -> Connection {
        Connection { id: c.id, conn_type: c.conn_type, distance: c.distance, target: crate::tools::pack(c.target) }
    }

    /// The record that callers receive for this edge, with the target as an
    /// external identifier.
    pub open spec fn external_form(self) -> PathResultConnection {
        PathResultConnection {
            conn_type: self.conn_type,
            distance: self.distance,
            target: crate::tools::unpack(self.target),
            id: self.id,
        }
    }

    /// Whether the two edges carry the same identifier. Edges are told apart
    /// by identifier alone.
    pub fn same_edge(&self, other: &Connection) -> (r: bool)
        ensures
            r == (self.id == other.id),
    {
        self.id == other.id
    }

    /// Whether `self` comes no later than `other` in the order of an
    /// adjacency list.
    pub fn sorts_before(&self, other: &Connection) -> (r: bool)
        ensures
            r == self.precedes(*other),
    {
        let a: u8 = self.conn_type.rank();
        let b: u8 = other.conn_type.rank();
        a < b || (a == b && self.distance <= other.distance)
    }

    /// The edge as callers receive it, with the target as an external
    /// identifier.
    pub fn to_external(&self) -> (r: PathResultConnection)
        ensures
            r == self.external_form(),
    {
        PathResultConnection {
            conn_type: self.conn_type,
            distance: self.distance,
            target: crate::tools::u16_to_system_id(self.target),
            id: self.id,
        }
    }
}

/// The step from an edge to the record that callers receive for it.
pub open spec fn as_external() -> spec_fn(Connection) -> PathResultConnection {
    |c: Connection| c.external_form()
}

/// The step from a record that callers receive to the edge it was made from.
pub open spec fn as_internal() -> spec_fn(PathResultConnection) -> Connection {
    |c: PathResultConnection| Connection::internal_form(c)
}

/// The record of an edge leads back to the edge.
pub proof fn lemma_internal_external(c: Connection)
    ensures
        Connection::internal_form(c.external_form()) == c,
{
    crate::tools::lemma_pack_unpack(c.target);
}

/// Whether `edges` is in adjacency order: non-decreasing by kind, and by
/// length among edges of one kind.
pub open spec fn is_sorted(edges: Seq<Connection>) -> bool {
    forall|i: int, j: int| 0 <= i <= j < edges.len() ==> (#[trigger] edges[i]).precedes(#[trigger] edges[j])
}

/// Length of the part of `edges` that comes before its first jump longer
/// than `limit`.
pub open spec fn reach_len(edges: Seq<Connection>, limit: u16) -> nat
    decreases edges.len(),
{
    if edges.len() == 0 || edges[0].is_long_jump(limit) {
        0
    } else {
        1 + reach_len(edges.drop_first(), limit)
    }
}

/// The part of `edges` that comes before its first jump longer than `limit`.
pub open spec fn within_reach(edges: Seq<Connection>, limit: u16) -> Seq<Connection> {
    edges.take(reach_len(edges, limit) as int)
}

/// `reach_len` is the one position that has no long jump before it and
/// either ends the list or holds a long jump.
pub proof fn lemma_reach_len(edges: Seq<Connection>, limit: u16)
    ensures
        reach_len(edges, limit) <= edges.len(),
        forall|i: int| 0 <= i < reach_len(edges, limit) ==> !(#[trigger] edges[i]).is_long_jump(limit),
        reach_len(edges, limit) < edges.len() ==> edges[reach_len(edges, limit) as int].is_long_jump(limit),
    decreases edges.len(),
{
    if edges.len() == 0 || edges[0].is_long_jump(limit) {
    } else {
        let rest = edges.drop_first();
        lemma_reach_len(rest, limit);
        assert forall|i: int| 0 <= i < reach_len(edges, limit) implies !(#[trigger] edges[i]).is_long_jump(limit) by {
            if i > 0 {
                assert(edges[i] == rest[i - 1]);
            }
        }
        if reach_len(edges, limit) < edges.len() {
            assert(edges[reach_len(edges, limit) as int] == rest[reach_len(rest, limit) as int]);
        }
    }
}

/// Any position with the two properties of `lemma_reach_len` is `reach_len`.
pub proof fn lemma_reach_len_unique(edges: Seq<Connection>, limit: u16, k: int)
    requires
        0 <= k <= edges.len(),
        forall|i: int| 0 <= i < k ==> !(#[trigger] edges[i]).is_long_jump(limit),
        k < edges.len() ==> edges[k].is_long_jump(limit),
    ensures
        k == reach_len(edges, limit),
{
    lemma_reach_len(edges, limit);
    let r = reach_len(edges, limit) as int;
    if r < k {
        assert(!edges[r].is_long_jump(limit));
    } else if k < r {
        assert(!edges[k].is_long_jump(limit));
    }
}

/// In a sorted list every jump of at most `limit` light-years comes before
/// the first jump that is longer.
pub proof fn lemma_sorted_reach_holds_all(edges: Seq<Connection>, limit: u16, i: int)
    requires
        is_sorted(edges),
        0 <= i < edges.len(),
        edges[i].conn_type == ConnType::Jump,
        edges[i].distance <= limit,
    ensures
        i < reach_len(edges, limit),
{
    lemma_reach_len(edges, limit);
    let r = reach_len(edges, limit) as int;
    if r <= i {
        assert(edges[r].precedes(edges[i]));
    }
}

/// A solar system: its compact key and the edges that leave it.
#[derive(Debug, Clone)]
pub struct Star {
    pub id: SolarSystemId,
    pub connections: Vec<Connection>,
}

impl Default for Star {
    fn default() -> (r: Star)
        ensures
            r.id == 0,
            r.connections@.len() == 0,
    {
        Star { id: 0, connections: Vec::new() }
    }
}

/// Whether every edge in `edges` has an identifier below `bound`.
pub open spec fn ids_below(edges: Map<SolarSystemId, Seq<Connection>>, bound: int) -> bool {
    forall|system: SolarSystemId, i: int|
        edges.contains_key(system) && 0 <= i < edges[system].len() ==> (#[trigger] edges[system][i]).id
            < bound
}

/// Whether no two edges in `edges` share an identifier.
pub open spec fn ids_apart(edges: Map<SolarSystemId, Seq<Connection>>) -> bool {
    forall|s1: SolarSystemId, i1: int, s2: SolarSystemId, i2: int|
        edges.contains_key(s1) && 0 <= i1 < edges[s1].len() && edges.contains_key(s2) && 0 <= i2
            < edges[s2].len() && (#[trigger] edges[s1][i1]).id == (#[trigger] edges[s2][i2]).id ==> s1
            == s2 && i1 == i2
}

/// The edges of each system of a graph.
pub open spec fn adjacency(stars: Map<SolarSystemId, Star>) -> Map<SolarSystemId, Seq<Connection>> {
    Map::new(
        |system: SolarSystemId| stars.contains_key(system),
        |system: SolarSystemId| stars[system].connections@,
    )
}

/// Figures of one search. `cost` is the cost of the path found, 0 where none
/// was; the times are in milliseconds.
#[derive(Debug)]
pub struct PathResultStats {
    pub cost: i64,
    pub total_time: u128,
    pub successors_spend: u128,
    pub loop_spend: u128,
    pub visited: u64,
}

/// An edge as callers receive it: as `Connection`, with the target as an
/// external identifier.
#[derive(Debug, Clone, Copy)]
pub struct PathResultConnection {
    pub conn_type: ConnType,
    pub distance: u16,
    pub target: u32,
    pub id: u32,
}

/// How a path query ended.
#[derive(Debug, Clone, Copy, PartialEq, Eq, Structural)]
pub enum PathResultStatus {
    Found,
    NotFound,
    Timeout,
}

/// Answer to a path query. `path` is empty unless `status` is `Found`.
#[derive(Debug)]
pub struct PathResult {
    pub status: PathResultStatus,
    pub path: Vec<PathResultConnection>,
    pub stats: PathResultStats,
}

/// Answer to a near query.
#[derive(Debug)]
pub struct NearResult {
    pub connections: Vec<PathResultConnection>,
}

} // verus!
