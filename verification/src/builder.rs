//! Building the graph: systems first, then the gates of the raw topology in
//! both directions, then the jumps, and at the end every adjacency list put
//! in order. Lengths are handed in by the caller, who measures them.

use crate::api::RouteError;
use crate::data::{
    adjacency, ids_apart, ids_below, is_sorted, ConnType, Connection, SolarSystemId, Star, StarMap,
};
use crate::raw::RawJump;
use crate::tools::{in_canonical_range, is_valid_id, pack, pack_id};
use std::collections::HashMap;
use vstd::prelude::*;

verus! {

/// Number of edge identifiers.
pub const ID_SPACE: u64 = 0x1_0000_0000;

/// A graph under construction: the edges of each system in the order in
/// which they were added, and the identifier that the next edge gets.
pub struct Draft {
    pub edges: Map<SolarSystemId, Seq<Connection>>,
    pub next_id: int,
}

impl Draft {
    /// Whether the draft holds a system.
    pub open spec fn holds(self, system: SolarSystemId) -> bool {
        self.edges.contains_key(system)
    }

    /// The draft with the system `system` and no edges for it.
    pub open spec fn with_system(self, system: SolarSystemId) -> Draft {
        Draft { edges: self.edges.insert(system, Seq::empty()), next_id: self.next_id }
    }

    /// The draft with one more edge for the system `from`, under the next
    /// identifier.
    pub open spec fn with_edge(
        self,
        from: SolarSystemId,
        kind: ConnType,
        distance: u16,
        to: SolarSystemId,
    ) -> Draft {
        Draft {
            edges: self.edges.insert(
                from,
                self.edges[from].push(
                    Connection { id: self.next_id as u32, conn_type: kind, distance: distance, target: to },
                ),
            ),
            next_id: self.next_id + 1,
        }
    }

    /// Why a gate of the raw topology cannot be added, if it cannot: for an
    /// identifier outside the canonical blocks; else for a system that the
    /// draft does not hold; else, where its type is 0 or 1, for want of two
    /// edge identifiers.
    pub open spec fn gate_error(self, jump: RawJump) -> Option<RouteError> {
        if !in_canonical_range(jump.from_system_id) || !in_canonical_range(jump.to_system_id) {
            Some(RouteError::InvalidId)
        } else if !self.holds(pack(jump.from_system_id)) || !self.holds(pack(jump.to_system_id)) {
            Some(RouteError::UnknownSystem)
        } else if jump.jump_type <= 1 && self.next_id + 2 > ID_SPACE {
            Some(RouteError::InternalError)
        } else {
            None
        }
    }

    /// The draft with a gate of the raw topology: where its type is 0 or 1,
    /// an edge from its first system to its second, then one back, both of
    /// the length `distance`; the draft as it is for any other type.
    pub open spec fn with_gate(self, jump: RawJump, distance: u16) -> Draft {
        if jump.jump_type <= 1 {
            let from = pack(jump.from_system_id);
            let to = pack(jump.to_system_id);
            self.with_edge(from, ConnType::Gate, distance, to).with_edge(to, ConnType::Gate, distance, from)
        } else {
            self
        }
    }

    /// Why a jump cannot be added, if it cannot: for a system that the draft
    /// does not hold; else, where the jump joins two systems, for want of an
    /// edge identifier.
    pub open spec fn jump_error(self, from: SolarSystemId, to: SolarSystemId) -> Option<RouteError> {
        if !self.holds(from) || !self.holds(to) {
            Some(RouteError::UnknownSystem)
        } else if from != to && self.next_id + 1 > ID_SPACE {
            Some(RouteError::InternalError)
        } else {
            None
        }
    }

    /// The draft with a jump from `from` to `to`; the draft as it is where
    /// the two are one system.
    pub open spec fn with_jump(self, from: SolarSystemId, to: SolarSystemId, distance: u16) -> Draft {
        if from != to {
            self.with_edge(from, ConnType::Jump, distance, to)
        } else {
            self
        }
    }

    /// Whether the edges are numbered as a builder numbers them: each
    /// identifier once, and all below the next.
    pub open spec fn well_numbered(self) -> bool {
        &&& 0 <= self.next_id <= ID_SPACE
        &&& ids_below(self.edges, self.next_id)
        &&& ids_apart(self.edges)
    }

    /// Whether the graph `stars` is this draft with every adjacency list put
    /// in order: it holds the same systems, each under its own key, and for
    /// each the same edges, sorted.
    pub open spec fn finished_as(self, stars: Map<SolarSystemId, Star>) -> bool {
        &&& forall|system: SolarSystemId|
            #![trigger stars.contains_key(system)]
            #![trigger self.holds(system)]
            stars.contains_key(system) == self.holds(system)
        &&& forall|system: SolarSystemId| #[trigger]
            stars.contains_key(system) ==> {
                &&& stars[system].id == system
                &&& is_sorted(stars[system].connections@)
                &&& stars[system].connections@.to_multiset() == self.edges[system].to_multiset()
            }
    }
}

/// A gate of a known type adds an edge in each direction, of equal length,
/// after the edges that the two systems had.
pub proof fn lemma_gate_both_ways(d: Draft, jump: RawJump, distance: u16)
    requires
        d.gate_error(jump) is None,
        jump.jump_type <= 1,
    ensures
        ({
            let from = pack(jump.from_system_id);
            let to = pack(jump.to_system_id);
            let after = d.with_gate(jump, distance);
            &&& after.edges[from].contains(
                Connection { id: d.next_id as u32, conn_type: ConnType::Gate, distance: distance, target: to },
            )
            &&& after.edges[to].contains(
                Connection {
                    id: (d.next_id + 1) as u32,
                    conn_type: ConnType::Gate,
                    distance: distance,
                    target: from,
                },
            )
            &&& forall|system: SolarSystemId| after.holds(system) == #[trigger] d.holds(system)
        }),
{
    let from = pack(jump.from_system_id);
    let to = pack(jump.to_system_id);
    let mid = d.with_edge(from, ConnType::Gate, distance, to);
    let after = d.with_gate(jump, distance);
    let there = Connection { id: d.next_id as u32, conn_type: ConnType::Gate, distance: distance, target: to };
    let back = Connection {
        id: (d.next_id + 1) as u32,
        conn_type: ConnType::Gate,
        distance: distance,
        target: from,
    };
    assert(mid.edges[from].last() == there);
    assert(after.edges[to].last() == back);
    if from == to {
        assert(after.edges[from][after.edges[from].len() - 2] == there);
    } else {
        assert(after.edges[from] == mid.edges[from]);
    }
    assert forall|system: SolarSystemId| after.holds(system) == #[trigger] d.holds(system) by {}
}

/// A draft stays well numbered when a system is added.
pub proof fn lemma_with_system_numbered(d: Draft, system: SolarSystemId)
    requires
        d.well_numbered(),
    ensures
        d.with_system(system).well_numbered(),
{
    let after = d.with_system(system);
    assert forall|s: SolarSystemId, i: int|
        after.edges.contains_key(s) && 0 <= i < after.edges[s].len() implies (#[trigger] after.edges[s][i]).id
        < after.next_id by {
        assert(d.edges[s][i].id < d.next_id);
    }
    assert forall|s1: SolarSystemId, i1: int, s2: SolarSystemId, i2: int|
        after.edges.contains_key(s1) && 0 <= i1 < after.edges[s1].len() && after.edges.contains_key(s2) && 0
            <= i2 < after.edges[s2].len() && (#[trigger] after.edges[s1][i1]).id == (
        #[trigger] after.edges[s2][i2]).id implies s1 == s2 && i1 == i2 by {
        assert(d.edges[s1][i1].id == d.edges[s2][i2].id);
    }
}

/// A draft stays well numbered when an edge is added, while identifiers
/// last.
pub proof fn lemma_with_edge_numbered(
    d: Draft,
    from: SolarSystemId,
    kind: ConnType,
    distance: u16,
    to: SolarSystemId,
)
    requires
        d.well_numbered(),
        d.holds(from),
        d.next_id < ID_SPACE,
    ensures
        d.with_edge(from, kind, distance, to).well_numbered(),
{
    let after = d.with_edge(from, kind, distance, to);
    let n = d.edges[from].len() as int;
    assert forall|s: SolarSystemId, i: int|
        after.edges.contains_key(s) && 0 <= i < after.edges[s].len() implies (#[trigger] after.edges[s][i]).id
        < after.next_id by {
        if s != from || i < n {
            assert(d.edges[s][i].id < d.next_id);
        }
    }
    assert forall|s1: SolarSystemId, i1: int, s2: SolarSystemId, i2: int|
        after.edges.contains_key(s1) && 0 <= i1 < after.edges[s1].len() && after.edges.contains_key(s2) && 0
            <= i2 < after.edges[s2].len() && (#[trigger] after.edges[s1][i1]).id == (
        #[trigger] after.edges[s2][i2]).id implies s1 == s2 && i1 == i2 by {
        let new1 = s1 == from && i1 == n;
        let new2 = s2 == from && i2 == n;
        if !new1 {
            assert(d.edges[s1][i1].id < d.next_id);
        }
        if !new2 {
            assert(d.edges[s2][i2].id < d.next_id);
        }
        if !new1 && !new2 {
            assert(d.edges[s1][i1].id == d.edges[s2][i2].id);
        }
    }
}

/// An edge that a draft holds stays in it when an edge is added.
pub proof fn lemma_with_edge_keeps(
    d: Draft,
    from: SolarSystemId,
    kind: ConnType,
    distance: u16,
    to: SolarSystemId,
    system: SolarSystemId,
    c: Connection,
)
    requires
        d.holds(from),
        d.holds(system),
        d.edges[system].contains(c),
    ensures
        d.with_edge(from, kind, distance, to).holds(system),
        d.with_edge(from, kind, distance, to).edges[system].contains(c),
{
    let i = choose|i: int| 0 <= i < d.edges[system].len() && d.edges[system][i] == c;
    assert(d.with_edge(from, kind, distance, to).edges[system][i] == c);
}

/// An edge that a draft holds is in the finished graph.
pub proof fn lemma_finished_keeps(d: Draft, stars: Map<SolarSystemId, Star>, system: SolarSystemId, c: Connection)
    requires
        d.finished_as(stars),
        d.holds(system),
        d.edges[system].contains(c),
    ensures
        stars.contains_key(system),
        stars[system].connections@.contains(c),
{
    broadcast use vstd::seq_lib::group_to_multiset_ensures;

    assert(stars.contains_key(system));
    assert(d.edges[system].to_multiset().count(c) > 0);
    assert(stars[system].connections@.to_multiset().count(c) > 0);
}

/// The finished graph of a well-numbered draft has no edge with an
/// identifier from the next of the draft on.
pub proof fn lemma_finished_below(d: Draft, stars: Map<SolarSystemId, Star>)
    requires
        d.finished_as(stars),
        d.well_numbered(),
    ensures
        ids_below(adjacency(stars), d.next_id),
{
    broadcast use vstd::seq_lib::group_to_multiset_ensures;

    let adj = adjacency(stars);
    assert forall|s: SolarSystemId, i: int| adj.contains_key(s) && 0 <= i < adj[s].len() implies (
    #[trigger] adj[s][i]).id < d.next_id by {
        let x = adj[s][i];
        assert(stars.contains_key(s));
        assert(d.holds(s));
        assert(stars[s].connections@.contains(x));
        assert(d.edges[s].to_multiset().count(x) > 0);
        assert(d.edges[s].contains(x));
        let j = choose|j: int| 0 <= j < d.edges[s].len() && d.edges[s][j] == x;
        assert(d.edges[s][j].id < d.next_id);
    }
}

/// The finished graph of a well-numbered draft has no two edges with one
/// identifier.
pub proof fn lemma_finished_apart(d: Draft, stars: Map<SolarSystemId, Star>)
    requires
        d.finished_as(stars),
        d.well_numbered(),
    ensures
        ids_apart(adjacency(stars)),
{
    broadcast use vstd::seq_lib::group_to_multiset_ensures;

    let adj = adjacency(stars);
    assert forall|s: SolarSystemId| #[trigger] stars.contains_key(s) implies stars[s].connections@.no_duplicates() by {
        let held = d.edges[s];
        assert(d.holds(s));
        assert(held.no_duplicates()) by {
            assert forall|i: int, j: int| 0 <= i < held.len() && 0 <= j < held.len() && i != j implies held[i]
                != held[j] by {
                if d.edges[s][i].id == d.edges[s][j].id {
                }
            }
        }
        held.lemma_multiset_has_no_duplicates();
        stars[s].connections@.lemma_multiset_has_no_duplicates_conv();
    }
    assert forall|s1: SolarSystemId, i1: int, s2: SolarSystemId, i2: int|
        adj.contains_key(s1) && 0 <= i1 < adj[s1].len() && adj.contains_key(s2) && 0 <= i2 < adj[s2].len() && (
        #[trigger] adj[s1][i1]).id == (#[trigger] adj[s2][i2]).id implies s1 == s2 && i1 == i2 by {
        let x = adj[s1][i1];
        let y = adj[s2][i2];
        assert(stars.contains_key(s1) && stars.contains_key(s2));
        assert(d.holds(s1) && d.holds(s2));
        assert(stars[s1].connections@.contains(x));
        assert(stars[s2].connections@.contains(y));
        assert(d.edges[s1].to_multiset().count(x) > 0);
        assert(d.edges[s2].to_multiset().count(y) > 0);
        assert(d.edges[s1].contains(x));
        assert(d.edges[s2].contains(y));
        let j1 = choose|j: int| 0 <= j < d.edges[s1].len() && d.edges[s1][j] == x;
        let j2 = choose|j: int| 0 <= j < d.edges[s2].len() && d.edges[s2][j] == y;
        assert(d.edges[s1][j1].id == d.edges[s2][j2].id);
        assert(s1 == s2 && j1 == j2);
        assert(x == y);
        if i1 != i2 {
            assert(stars[s1].connections@[i1] != stars[s1].connections@[i2]);
        }
    }
}

/// The place of an edge in the order of an adjacency list: its kind first,
/// then its length.
pub fn sort_key(c: &Connection) -> (r: (u8, u16))
    ensures
        r.0 == c.conn_type.rank_spec(),
        r.1 == c.distance,
{
    (c.conn_type.rank(), c.distance)
}

/// `slice::sort_unstable_by_key`, by `sort_key`: the same edges, in the
/// order of their keys, pairs being ordered by their first part and then by
/// their second.
#[verifier::external_body]
fn sort_edges(edges: &mut Vec<Connection>)
    ensures
        is_sorted(final(edges)@),
        final(edges)@.to_multiset() == old(edges)@.to_multiset(),
{
    edges.sort_unstable_by_key(|c| sort_key(c));
}

/// Builds the graph step by step.
pub struct StarMapBuilder {
    stars: StarMap,
    order: Vec<SolarSystemId>,
    next_id: u64,
}

impl StarMapBuilder {
    /// What has been built so far.
    pub closed spec fn draft(&self) -> Draft {
        Draft {
            edges: Map::new(
                |system: SolarSystemId| self.stars@.contains_key(system),
                |system: SolarSystemId| self.stars@[system].connections@,
            ),
            next_id: self.next_id as int,
        }
    }

    /// The builder is intact.
    pub closed spec fn wf(&self) -> bool {
        &&& self.next_id <= ID_SPACE
        &&& self.draft().well_numbered()
        &&& forall|system: SolarSystemId| #[trigger]
            self.stars@.contains_key(system) ==> self.stars@[system].id == system && self.order@.contains(
                system,
            )
    }

    /// What a builder has built is well numbered.
    pub proof fn lemma_numbered(&self)
        requires
            self.wf(),
        ensures
            self.draft().well_numbered(),
    {
    }

    /// A builder that holds no system, and gives the first edge the
    /// identifier 0.
    pub fn new() -> (r: StarMapBuilder)
        ensures
            r.wf(),
            r.draft() == (Draft { edges: Map::empty(), next_id: 0 }),
    {
        let r = StarMapBuilder { stars: HashMap::new(), order: Vec::new(), next_id: 0 };
        assert(r.draft().edges =~= Map::empty());
        r
    }

    /// Adds a system without edges. A system that the builder holds loses
    /// its edges.
    pub fn add_system(&mut self, system: SolarSystemId)
        requires
            old(self).wf(),
        ensures
            final(self).wf(),
            final(self).draft() == old(self).draft().with_system(system),
    {
        broadcast use vstd::std_specs::hash::group_hash_axioms;

        let ghost before = self.order@;
        self.stars.insert(system, Star { id: system, connections: Vec::new() });
        self.order.push(system);
        proof {
            assert forall|s: SolarSystemId| #[trigger] self.stars@.contains_key(s) implies self.stars@[s].id
                == s && self.order@.contains(s) by {
                if s == system {
                    assert(self.order@[before.len() as int] == system);
                } else {
                    assert(before.contains(s));
                    let i = choose|i: int| 0 <= i < before.len() && before[i] == s;
                    assert(self.order@[i] == s);
                }
            }
            assert(self.draft().edges =~= old(self).draft().with_system(system).edges);
            lemma_with_system_numbered(old(self).draft(), system);
        }
    }

    /// Adds an edge for a system that the builder holds.
    fn add_edge(&mut self, from: SolarSystemId, kind: ConnType, distance: u16, to: SolarSystemId)
        requires
            old(self).wf(),
            old(self).draft().holds(from),
            old(self).draft().next_id < ID_SPACE,
        ensures
            final(self).wf(),
            final(self).draft() == old(self).draft().with_edge(from, kind, distance, to),
    {
        broadcast use vstd::std_specs::hash::group_hash_axioms;

        let ghost before = self.stars@;
        let id: u32 = self.next_id as u32;
        let connection = Connection { id, conn_type: kind, distance, target: to };
        match self.stars.remove(&from) {
            Some(mut star) => {
                star.connections.push(connection);
                self.stars.insert(from, star);
            },
            None => {},
        }
        self.next_id = self.next_id + 1;
        proof {
            assert forall|s: SolarSystemId| #[trigger] self.stars@.contains_key(s) implies self.stars@[s].id
                == s && self.order@.contains(s) by {
                assert(before.contains_key(s));
            }
            assert(self.draft().edges =~= old(self).draft().with_edge(from, kind, distance, to).edges);
            lemma_with_edge_numbered(old(self).draft(), from, kind, distance, to);
        }
    }

    /// Adds a gate of the raw topology, of the length `distance`: an edge in
    /// each direction where its type is 0 or 1, nothing for any other type.
    /// The answer says whether edges were added.
    pub fn add_gate(&mut self, jump: &RawJump, distance: u16) -> (r: Result<bool, RouteError>)
        requires
            old(self).wf(),
        ensures
            final(self).wf(),
            match r {
                Err(e) => old(self).draft().gate_error(*jump) == Some(e) && final(self).draft() == old(
                    self,
                ).draft(),
                Ok(added) => {
                    &&& old(self).draft().gate_error(*jump) is None
                    &&& added == (jump.jump_type <= 1)
                    &&& final(self).draft() == old(self).draft().with_gate(*jump, distance)
                },
            },
    {
        broadcast use vstd::std_specs::hash::group_hash_axioms;

        if !is_valid_id(jump.from_system_id) || !is_valid_id(jump.to_system_id) {
            return Err(RouteError::InvalidId);
        }
        let from: u16 = pack_id(jump.from_system_id);
        let to: u16 = pack_id(jump.to_system_id);
        if !self.stars.contains_key(&from) || !self.stars.contains_key(&to) {
            return Err(RouteError::UnknownSystem);
        }
        if jump.jump_type > 1 {
            return Ok(false);
        }
        if self.next_id + 2 > ID_SPACE {
            return Err(RouteError::InternalError);
        }
        self.add_edge(from, ConnType::Gate, distance, to);
        self.add_edge(to, ConnType::Gate, distance, from);
        Ok(true)
    }

    /// Adds a jump from `from` to `to`, of the length `distance`; nothing
    /// where the two are one system. The answer says whether an edge was
    /// added.
    pub fn add_jump(&mut self, from: SolarSystemId, to: SolarSystemId, distance: u16) -> (r: Result<
        bool,
        RouteError,
    >)
        requires
            old(self).wf(),
        ensures
            final(self).wf(),
            match r {
                Err(e) => old(self).draft().jump_error(from, to) == Some(e) && final(self).draft() == old(
                    self,
                ).draft(),
                Ok(added) => {
                    &&& old(self).draft().jump_error(from, to) is None
                    &&& added == (from != to)
                    &&& final(self).draft() == old(self).draft().with_jump(from, to, distance)
                },
            },
    {
        broadcast use vstd::std_specs::hash::group_hash_axioms;

        if !self.stars.contains_key(&from) || !self.stars.contains_key(&to) {
            return Err(RouteError::UnknownSystem);
        }
        if from == to {
            return Ok(false);
        }
        if self.next_id + 1 > ID_SPACE {
            return Err(RouteError::InternalError);
        }
        self.add_edge(from, ConnType::Jump, distance, to);
        Ok(true)
    }

    /// Puts every adjacency list in order and hands out the graph, in which
    /// no two edges share an identifier, and every identifier is below the
    /// one that the next edge would have had.
    pub fn finish(self) -> (r: StarMap)
        requires
            self.wf(),
        ensures
            self.draft().finished_as(r@),
            ids_apart(adjacency(r@)),
            ids_below(adjacency(r@), self.draft().next_id),
    {
        broadcast use vstd::std_specs::hash::group_hash_axioms;

        let ghost draft = self.draft();
        let ghost start = self.stars@;
        let order = self.order;
        let mut stars = self.stars;
        let mut i: usize = 0;
        while i < order.len()
            invariant
                0 <= i <= order@.len(),
                forall|system: SolarSystemId| stars@.contains_key(system) == #[trigger] start.contains_key(system),
                forall|system: SolarSystemId| #[trigger]
                    stars@.contains_key(system) ==> {
                        &&& stars@[system].id == system
                        &&& order@.contains(system)
                        &&& stars@[system].connections@.to_multiset() == start[system].connections@.to_multiset()
                    },
                forall|k: int| 0 <= k < i && stars@.contains_key(#[trigger] order@[k]) ==> is_sorted(
                        stars@[order@[k]].connections@,
                    ),
            decreases order@.len() - i,
        {
            let system: u16 = order[i];
            let ghost before = stars@;
            match stars.remove(&system) {
                Some(mut star) => {
                    sort_edges(&mut star.connections);
                    stars.insert(system, star);
                },
                None => {},
            }
            proof {
                assert forall|k: int| 0 <= k < i + 1 && stars@.contains_key(#[trigger] order@[k]) implies is_sorted(
                    stars@[order@[k]].connections@,
                ) by {
                    if order@[k] != system {
                        assert(stars@[order@[k]] == before[order@[k]]);
                    }
                }
            }
            i += 1;
        }
        proof {
            assert forall|system: SolarSystemId| #[trigger] stars@.contains_key(system) implies is_sorted(
                stars@[system].connections@,
            ) by {
                let k = choose|k: int| 0 <= k < order@.len() && order@[k] == system;
                assert(stars@.contains_key(order@[k]));
            }
            assert(draft.finished_as(stars@));
            lemma_finished_apart(draft, stars@);
            lemma_finished_below(draft, stars@);
        }
        stars
    }
}

} // verus!
