//! The near query: the jumps that leave a system and stay within a radius.

use crate::data::{
    as_external, is_sorted, lemma_reach_len, lemma_reach_len_unique, lemma_sorted_reach_holds_all, within_reach,
    ConnType, Connection, NearResult, PathResultConnection, Star, StarMap,
};
use vstd::prelude::*;

verus! {

/// Whether an edge is a jump.
pub open spec fn is_jump(c: Connection) -> bool {
    c.conn_type == ConnType::Jump
}

/// The test that keeps jumps and drops every other edge.
pub open spec fn jumps_only() -> spec_fn(Connection) -> bool {
    |c: Connection| is_jump(c)
}

/// The jumps among `edges` that come before the first jump longer than
/// `radius`, in the order of `edges`.
pub open spec fn near_jumps(edges: Seq<Connection>, radius: u16) -> Seq<Connection> {
    within_reach(edges, radius).filter(jumps_only())
}

/// What `near` answers for a system with the edges `edges`.
pub open spec fn near_spec(edges: Seq<Connection>, radius: u16) -> Seq<PathResultConnection> {
    near_jumps(edges, radius).map_values(as_external())
}

/// Lists the jumps that leave `star` and are at most `distance` light-years
/// long, in adjacency order. The walk along the adjacency list ends at the
/// first jump that is longer; gates and smart gates are passed over.
pub fn near(star_map: &StarMap, star: &Star, distance: u16) -> (r: NearResult)
    ensures
        r.connections@ == near_spec(star.connections@, distance),
{
    let ghost edges = star.connections@;
    let ghost pred = jumps_only();
    let ghost form = as_external();
    let mut found: Vec<PathResultConnection> = Vec::new();
    let mut i: usize = 0;
    let n: usize = star.connections.len();
    while i < n && !(star.connections[i].conn_type == ConnType::Jump
        && star.connections[i].distance > distance)
        invariant
            n == edges.len(),
            edges == star.connections@,
            0 <= i <= n,
            forall|k: int| 0 <= k < i ==> !(#[trigger] edges[k]).is_long_jump(distance),
            found@ == edges.take(i as int).filter(pred).map_values(form),
            pred == jumps_only(),
            form == as_external(),
        decreases n - i,
    {
        let c: Connection = star.connections[i];
        proof {
            let before = edges.take(i as int);
            assert(edges.take(i + 1) =~= before.push(c));
            before.lemma_filter_push(c, pred);
        }
        if c.conn_type == ConnType::Jump {
            found.push(c.to_external());
            proof {
                let kept = edges.take(i as int).filter(pred);
                assert(kept.push(c).map_values(form) =~= kept.map_values(form).push(form(c)));
            }
        }
        i += 1;
    }
    proof {
        lemma_reach_len_unique(edges, distance, i as int);
    }
    NearResult { connections: found }
}

/// Every edge that `near` lists is a jump of at most `radius` light-years,
/// given as the adjacency list holds it.
pub proof fn lemma_near_only_short_jumps(edges: Seq<Connection>, radius: u16, k: int)
    requires
        0 <= k < near_spec(edges, radius).len(),
    ensures
        near_spec(edges, radius)[k].conn_type == ConnType::Jump,
        near_spec(edges, radius)[k].distance <= radius,
        exists|i: int| 0 <= i < edges.len() && #[trigger] edges[i].external_form() == near_spec(edges, radius)[k],
{
    let pred = jumps_only();
    let reach = within_reach(edges, radius);
    let kept = reach.filter(pred);
    lemma_reach_len(edges, radius);
    reach.lemma_filter_pred(pred, k);
    assert(kept.contains(kept[k]));
    reach.lemma_filter_contains_rev(pred, kept[k]);
    let i = choose|i: int| 0 <= i < reach.len() && reach[i] == kept[k];
    assert(reach[i] == edges[i]);
    assert(!edges[i].is_long_jump(radius));
    assert(edges[i].external_form() == near_spec(edges, radius)[k]);
}

/// On a sorted adjacency list the answer of `near` is non-decreasing in
/// length.
pub proof fn lemma_near_non_decreasing(edges: Seq<Connection>, radius: u16, a: int, b: int)
    requires
        is_sorted(edges),
        0 <= a <= b < near_spec(edges, radius).len(),
    ensures
        near_spec(edges, radius)[a].distance <= near_spec(edges, radius)[b].distance,
{
    let pred = jumps_only();
    let reach = within_reach(edges, radius);
    let kept = reach.filter(pred);
    lemma_reach_len(edges, radius);
    assert(is_sorted(reach)) by {
        assert forall|i: int, j: int| 0 <= i <= j < reach.len() implies (#[trigger] reach[i]).precedes(
            #[trigger] reach[j],
        ) by {
            assert(edges[i].precedes(edges[j]));
        }
    }
    lemma_filter_keeps_order(reach, a, b);
    reach.lemma_filter_pred(pred, a);
    reach.lemma_filter_pred(pred, b);
}

/// Filtering the jumps out of a sorted list leaves a sorted list.
proof fn lemma_filter_keeps_order(edges: Seq<Connection>, a: int, b: int)
    requires
        is_sorted(edges),
        0 <= a <= b < edges.filter(jumps_only()).len(),
    ensures
        edges.filter(jumps_only())[a].precedes(edges.filter(jumps_only())[b]),
    decreases edges.len(),
{
    let pred = jumps_only();
    let kept = edges.filter(pred);
    reveal(Seq::filter);
    if edges.len() > 0 {
        let front = edges.drop_last();
        let kept_front = front.filter(pred);
        assert(is_sorted(front)) by {
            assert forall|i: int, j: int| 0 <= i <= j < front.len() implies (#[trigger] front[i]).precedes(
                #[trigger] front[j],
            ) by {
                assert(edges[i].precedes(edges[j]));
            }
        }
        if pred(edges.last()) {
            assert(kept == kept_front.push(edges.last()));
            if b < kept_front.len() {
                lemma_filter_keeps_order(front, a, b);
            } else if a < kept_front.len() {
                assert(kept_front.contains(kept_front[a]));
                front.lemma_filter_contains_rev(pred, kept_front[a]);
                let i = choose|i: int| 0 <= i < front.len() && front[i] == kept_front[a];
                assert(edges[i].precedes(edges[edges.len() - 1]));
            } else {
                assert(edges[edges.len() - 1].precedes(edges[edges.len() - 1]));
            }
        } else {
            assert(kept == kept_front);
            lemma_filter_keeps_order(front, a, b);
        }
    }
}

/// On a sorted adjacency list `near` misses no jump of at most `radius`
/// light-years.
pub proof fn lemma_near_complete(edges: Seq<Connection>, radius: u16, i: int)
    requires
        is_sorted(edges),
        0 <= i < edges.len(),
        edges[i].conn_type == ConnType::Jump,
        edges[i].distance <= radius,
    ensures
        near_spec(edges, radius).contains(edges[i].external_form()),
{
    let pred = jumps_only();
    let form = as_external();
    let reach = within_reach(edges, radius);
    lemma_reach_len(edges, radius);
    lemma_sorted_reach_holds_all(edges, radius, i);
    assert(reach[i] == edges[i]);
    reach.lemma_filter_contains(pred, i);
    let kept = reach.filter(pred);
    let k = choose|k: int| 0 <= k < kept.len() && kept[k] == edges[i];
    assert(kept.map_values(form)[k] == edges[i].external_form());
}

} // verus!
