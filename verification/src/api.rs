//! The two queries as callers put them: by external identifiers, with the
//! smart gates of the query as a list.

use crate::astar::is_result;
use crate::data::{
    as_internal, lemma_reach_len, within_reach, ConnType, Connection, NearResult, PathResult,
    PathResultStatus, SmartGatesMap, SolarSystemId, Star, StarMap,
};
use crate::path::{base_edges, extra_edges, route_query, DistanceMap, PathOptimize, Query};
use crate::search::near_spec;
use crate::tools::{in_canonical_range, is_valid_id, pack, pack_id};
use std::collections::HashMap;
use vstd::prelude::*;

verus! {

/// Why a query was turned down.
#[derive(Debug, Clone, Copy, PartialEq, Eq, Structural)]
pub enum RouteError {
    /// An external identifier lies outside the three canonical blocks.
    InvalidId,
    /// The graph holds no system under an identifier of the query.
    UnknownSystem,
    /// The query lacks a part that it must have.
    MalformedInput,
    /// The graph is not as it must be.
    InternalError,
}

/// A smart gate of a query: the systems it joins, its length in light-years
/// and its identifier.
#[derive(Debug, Clone, Copy)]
pub struct SmartGateLink {
    pub from: u32,
    pub to: u32,
    pub distance: u16,
    pub id: u32,
}

/// A path query.
#[derive(Debug)]
pub struct PathPayload {
    pub from: u32,
    pub to: u32,
    pub jump_distance: u16,
    pub optimize: Option<PathOptimize>,
    pub smart_gates: Vec<SmartGateLink>,
}

/// A near query.
#[derive(Debug, Clone, Copy)]
pub struct NearPayload {
    pub from: u32,
    pub distance: u16,
}

/// The edge that a smart gate adds to the system it leaves.
pub open spec fn gate_of(link: SmartGateLink) -> Connection {
    Connection { id: link.id, conn_type: ConnType::SmartGate, distance: link.distance, target: pack(link.to) }
}

/// The test that keeps the smart gates that leave a system.
pub open spec fn leaves(system: SolarSystemId) -> spec_fn(SmartGateLink) -> bool {
    |link: SmartGateLink| pack(link.from) == system
}

/// The step from a smart gate to the edge it adds.
pub open spec fn as_gate() -> spec_fn(SmartGateLink) -> Connection {
    |link: SmartGateLink| gate_of(link)
}

/// The edges that the smart gates of a query add to a system, in the order
/// of the query.
pub open spec fn gates_leaving(links: Seq<SmartGateLink>, system: SolarSystemId) -> Seq<Connection> {
    links.filter(leaves(system)).map_values(as_gate())
}

/// Whether `gates` holds for each system what the smart gates `links` add
/// to it, and nothing else.
pub open spec fn holds_gates(gates: Map<SolarSystemId, Vec<Connection>>, links: Seq<SmartGateLink>) -> bool {
    forall|system: SolarSystemId| #[trigger] extra_edges(gates, system) == gates_leaving(links, system)
}

/// Adding a smart gate to a list adds its edge to the system it leaves and
/// nothing to any other.
pub proof fn lemma_gates_leaving_push(links: Seq<SmartGateLink>, link: SmartGateLink, system: SolarSystemId)
    ensures
        gates_leaving(links.push(link), system) == if pack(link.from) == system {
            gates_leaving(links, system).push(gate_of(link))
        } else {
            gates_leaving(links, system)
        },
{
    links.lemma_filter_push(link, leaves(system));
    if pack(link.from) == system {
        let kept = links.filter(leaves(system));
        assert(kept.push(link).map_values(as_gate()) =~= kept.map_values(as_gate()).push(gate_of(link)));
    }
}

/// Every edge that smart gates add is a smart gate.
pub proof fn lemma_gates_are_smart(links: Seq<SmartGateLink>, system: SolarSystemId, i: int)
    requires
        0 <= i < gates_leaving(links, system).len(),
    ensures
        gates_leaving(links, system)[i].conn_type == ConnType::SmartGate,
{
}

/// Adds the smart gate from `from` to `to`, of length `distance` and with
/// the identifier `id`, to the extra edges of a query: after those that the
/// system `from` has so far. The graph stays as it is.
pub fn inject_smart_gate(smart_gates: &mut SmartGatesMap, from: u32, to: u32, distance: u16, id: u32)
    ensures
        forall|system: SolarSystemId| #[trigger]
            extra_edges(final(smart_gates)@, system) == if system == pack(from) {
                extra_edges(old(smart_gates)@, system).push(
                    gate_of(SmartGateLink { from: from, to: to, distance: distance, id: id }),
                )
            } else {
                extra_edges(old(smart_gates)@, system)
            },
{
    broadcast use vstd::std_specs::hash::group_hash_axioms;

    let from_id: u16 = pack_id(from);
    let to_id: u16 = pack_id(to);
    let ghost before = smart_gates@;
    let mut list: Vec<Connection> = match smart_gates.remove(&from_id) {
        Some(held) => held,
        None => Vec::new(),
    };
    assert(list@ == extra_edges(before, from_id));
    list.push(Connection { conn_type: ConnType::SmartGate, distance: distance, target: to_id, id: id });
    smart_gates.insert(from_id, list);
    assert forall|system: SolarSystemId| #[trigger]
        extra_edges(smart_gates@, system) == if system == pack(from) {
            extra_edges(before, system).push(
                gate_of(SmartGateLink { from: from, to: to, distance: distance, id: id }),
            )
        } else {
            extra_edges(before, system)
        } by {
        if system != from_id {
            assert(smart_gates@.contains_key(system) == before.contains_key(system));
        }
    }
}

/// Collects the extra edges that the smart gates of a query add, each under
/// the system it leaves, in the order of the query.
pub fn build_smart_gates(links: &Vec<SmartGateLink>) -> (r: SmartGatesMap)
    ensures
        holds_gates(r@, links@),
{
    broadcast use vstd::std_specs::hash::group_hash_axioms;

    let mut smart_gates: SmartGatesMap = HashMap::new();
    let mut i: usize = 0;
    assert(links@.take(0) =~= Seq::<SmartGateLink>::empty());
    assert forall|system: SolarSystemId| #[trigger]
        extra_edges(smart_gates@, system) == gates_leaving(links@.take(0), system) by {
        assert(gates_leaving(Seq::<SmartGateLink>::empty(), system) =~= Seq::<Connection>::empty());
    }
    while i < links.len()
        invariant
            0 <= i <= links@.len(),
            holds_gates(smart_gates@, links@.take(i as int)),
        decreases links@.len() - i,
    {
        let link: SmartGateLink = links[i];
        let ghost before = smart_gates@;
        inject_smart_gate(&mut smart_gates, link.from, link.to, link.distance, link.id);
        proof {
            assert(links@.take(i + 1) =~= links@.take(i as int).push(link));
            assert forall|system: SolarSystemId| #[trigger]
                extra_edges(smart_gates@, system) == gates_leaving(links@.take(i + 1), system) by {
                lemma_gates_leaving_push(links@.take(i as int), link, system);
                assert(extra_edges(before, system) == gates_leaving(links@.take(i as int), system));
            }
        }
        i += 1;
    }
    assert(links@.take(links@.len() as int) =~= links@);
    smart_gates
}

/// Whether every smart gate of a list joins two systems with identifiers in
/// the canonical blocks.
pub open spec fn gates_valid(links: Seq<SmartGateLink>) -> bool {
    forall|i: int|
        0 <= i < links.len() ==> in_canonical_range((#[trigger] links[i]).from) && in_canonical_range(
            links[i].to,
        )
}

/// Why a path query is turned down, if it is: for want of a mode; else for
/// an identifier outside the canonical blocks, in the query or in one of
/// its smart gates; else for a start or end system that the graph does not
/// hold.
pub open spec fn path_error(stars: Map<SolarSystemId, Star>, payload: PathPayload) -> Option<RouteError> {
    if payload.optimize is None {
        Some(RouteError::MalformedInput)
    } else if !in_canonical_range(payload.from) || !in_canonical_range(payload.to) || !gates_valid(
        payload.smart_gates@,
    ) {
        Some(RouteError::InvalidId)
    } else if !stars.contains_key(pack(payload.from)) || !stars.contains_key(pack(payload.to)) {
        Some(RouteError::UnknownSystem)
    } else {
        None
    }
}

/// What the search is asked for a path query, with the extra edges `gates`:
/// a path between the systems that the graph holds under the two
/// identifiers of the query.
pub open spec fn payload_query(
    stars: Map<SolarSystemId, Star>,
    gates: Map<SolarSystemId, Vec<Connection>>,
    distances: Map<SolarSystemId, u32>,
    payload: PathPayload,
) -> Query {
    route_query(
        stars,
        gates,
        distances,
        stars[pack(payload.from)].id,
        stars[pack(payload.to)].id,
        payload.jump_distance,
        payload.optimize.unwrap(),
    )
}

/// Whether every smart gate of the list has identifiers in the canonical
/// blocks.
fn check_gates(links: &Vec<SmartGateLink>) -> (r: bool)
    ensures
        r == gates_valid(links@),
{
    let mut i: usize = 0;
    while i < links.len()
        invariant
            0 <= i <= links@.len(),
            gates_valid(links@.take(i as int)),
        decreases links@.len() - i,
    {
        let link: SmartGateLink = links[i];
        if !is_valid_id(link.from) || !is_valid_id(link.to) {
            assert(!gates_valid(links@)) by {
                assert(links@[i as int] == link);
            }
            return false;
        }
        proof {
            assert forall|k: int| 0 <= k < links@.take(i + 1).len() implies in_canonical_range(
                (#[trigger] links@.take(i + 1)[k]).from,
            ) && in_canonical_range(links@.take(i + 1)[k].to) by {
                if k < i {
                    assert(links@.take(i as int)[k] == links@[k]);
                }
            }
        }
        i += 1;
    }
    assert(links@.take(links@.len() as int) =~= links@);
    true
}

/// An edge that a search may take is no jump longer than the jump range,
/// where no extra edge of the query is.
pub proof fn lemma_offer_in_range(q: Query, c: Connection)
    requires
        q.offers(c),
        forall|system: SolarSystemId, i: int|
            0 <= i < extra_edges(q.gates, system).len() ==> !(#[trigger] extra_edges(
                q.gates,
                system,
            )[i]).is_long_jump(q.limit),
    ensures
        !c.is_long_jump(q.limit),
{
    reveal(Query::edges);
    let (system, k) = choose|system: SolarSystemId, k: int|
        0 <= k < q.edges(system).len() && #[trigger] q.edges(system)[k] == c;
    let extra = extra_edges(q.gates, system);
    let base = base_edges(q.stars, system);
    lemma_reach_len(base, q.limit);
    if k < extra.len() {
        assert(extra[k] == c);
    } else {
        assert(within_reach(base, q.limit)[k - extra.len()] == c);
        assert(base[k - extra.len()] == c);
    }
}

/// Answers a path query. `distances` gives for each system the distance to
/// the end system of the query in whole light-years.
///
/// The query is turned down as `path_error` says. Else the answer is that of
/// `path::calc_path` for the two systems of the query, with the extra edges
/// that the smart gates of the query add, and no jump in its path is longer
/// than the jump range of the query. The graph stays as it is.
pub fn calc_path(
    star_map: &StarMap,
    distances: &DistanceMap,
    payload: &PathPayload,
    timeout: Option<u64>,
) -> (r: Result<PathResult, RouteError>)
    ensures
        match r {
            Err(e) => path_error(star_map@, *payload) == Some(e),
            Ok(answer) => {
                &&& path_error(star_map@, *payload) is None
                &&& timeout is None ==> answer.status != PathResultStatus::Timeout
                &&& timeout == Some(0u64) ==> answer.status == PathResultStatus::Timeout
                &&& pack(payload.from) == pack(payload.to) ==> answer.status != PathResultStatus::NotFound
                &&& answer.status != PathResultStatus::Found ==> answer.path@.len() == 0 && answer.stats.cost
                    == 0
                &&& pack(payload.from) == pack(payload.to) && answer.status == PathResultStatus::Found
                    ==> answer.path@.len() == 0 && answer.stats.cost == 0
                &&& forall|i: int|
                    0 <= i < answer.path@.len() ==> !(answer.path@[i].conn_type == ConnType::Jump
                        && answer.path@[i].distance > payload.jump_distance)
                &&& exists|gates: Map<SolarSystemId, Vec<Connection>>|
                    {
                        let q = payload_query(star_map@, gates, distances@, *payload);
                        &&& #[trigger] holds_gates(gates, payload.smart_gates@)
                        &&& answer.status == PathResultStatus::Found ==> is_result(
                            q,
                            seq![q.start] + answer.path@.map_values(as_internal()),
                            answer.stats.cost as int,
                        )
                        &&& answer.status == PathResultStatus::NotFound ==> (q.ids_name_edges()
                            ==> !q.reachable())
                    }
            },
        },
{
    broadcast use vstd::std_specs::hash::group_hash_axioms;

    let optimize: PathOptimize = match payload.optimize {
        Some(mode) => mode,
        None => {
            return Err(RouteError::MalformedInput);
        },
    };
    if !is_valid_id(payload.from) || !is_valid_id(payload.to) || !check_gates(&payload.smart_gates) {
        return Err(RouteError::InvalidId);
    }
    let start: &Star = match star_map.get(&pack_id(payload.from)) {
        Some(star) => star,
        None => {
            return Err(RouteError::UnknownSystem);
        },
    };
    let end: &Star = match star_map.get(&pack_id(payload.to)) {
        Some(star) => star,
        None => {
            return Err(RouteError::UnknownSystem);
        },
    };
    let smart_gates = build_smart_gates(&payload.smart_gates);
    let answer = crate::path::calc_path(
        star_map,
        &smart_gates,
        distances,
        start,
        end,
        payload.jump_distance,
        optimize,
        timeout,
    );
    proof {
        let q = payload_query(star_map@, smart_gates@, distances@, *payload);
        assert(holds_gates(smart_gates@, payload.smart_gates@));
        if answer.status == PathResultStatus::Found {
            let route = seq![q.start] + answer.path@.map_values(as_internal());
            assert forall|i: int| 0 <= i < answer.path@.len() implies !(answer.path@[i].conn_type
                == ConnType::Jump && answer.path@[i].distance > payload.jump_distance) by {
                assert(route[i + 1] == Connection::internal_form(answer.path@[i]));
                assert(q.offers(route[i + 1]));
                assert forall|system: SolarSystemId, k: int|
                    0 <= k < extra_edges(q.gates, system).len() implies !(#[trigger] extra_edges(
                    q.gates,
                    system,
                )[k]).is_long_jump(q.limit) by {
                    assert(extra_edges(smart_gates@, system) == gates_leaving(payload.smart_gates@, system));
                    lemma_gates_are_smart(payload.smart_gates@, system, k);
                }
                lemma_offer_in_range(q, route[i + 1]);
            }
        }
    }
    Ok(answer)
}

/// Why a near query is turned down, if it is: for an identifier outside the
/// canonical blocks, or for a system that the graph does not hold.
pub open spec fn near_error(stars: Map<SolarSystemId, Star>, payload: NearPayload) -> Option<RouteError> {
    if !in_canonical_range(payload.from) {
        Some(RouteError::InvalidId)
    } else if !stars.contains_key(pack(payload.from)) {
        Some(RouteError::UnknownSystem)
    } else {
        None
    }
}

/// Answers a near query: the jumps that leave the system of the query and
/// are at most as long as the query says, as `search::near` lists them.
pub fn calc_near(star_map: &StarMap, payload: &NearPayload) -> (r: Result<NearResult, RouteError>)
    ensures
        match r {
            Err(e) => near_error(star_map@, *payload) == Some(e),
            Ok(answer) => near_error(star_map@, *payload) is None && answer.connections@ == near_spec(
                star_map@[pack(payload.from)].connections@,
                payload.distance,
            ),
        },
{
    broadcast use vstd::std_specs::hash::group_hash_axioms;

    if !is_valid_id(payload.from) {
        return Err(RouteError::InvalidId);
    }
    match star_map.get(&pack_id(payload.from)) {
        Some(star) => Ok(crate::search::near(star_map, star, payload.distance)),
        None => Err(RouteError::UnknownSystem),
    }
}

} // verus!
