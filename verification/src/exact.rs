//! Why the cost that a search reports is the cost of the path it returns:
//! what holds of the table and the open list beyond what `frontier` states,
//! where identifiers name edges.

use crate::data::Connection;
use crate::frontier::{
    Tree, chain, first_entry, goals_wait, inv, lemma_at, lemma_basics, lemma_grown_frame,
    lemma_grown_shape, lemma_improved_frame, lemma_improved_shape, lemma_place,
    lemma_pop_open_ok, open_ok, pending, seed, settled,
};
use crate::open::SmallestCostHolder;
use crate::path::Query;
use vstd::multiset::Multiset;
use vstd::prelude::*;

verus! {

/// Whether the edge at place `i` was reached from its parent after the
/// parent last changed.
pub open spec fn tight(t: Tree, i: int) -> bool {
    t.stamps[t.parent(i)] < t.stamps[i]
}

/// The estimated total cost at place `i`.
pub open spec fn f_at(t: Tree, q: Query, i: int) -> int {
    t.g(i) + t.est_at(q, i)
}

/// Whether place `a` lies on the way from the start to place `y`, `y`
/// counted in.
pub open spec fn anc(t: Tree, a: int, y: int) -> bool
    decreases t.g(y), t.stamps[y],
{
    if y == a {
        true
    } else if 1 <= y < t.len() && t.link_ok(y) {
        anc(t, a, t.parent(y))
    } else {
        false
    }
}

/// A place that lies on the way to `y` is a place of the table, at a cost
/// that is no larger than that of `y`; if it is not `y`, it was reached at a
/// smaller cost or changed earlier.
pub proof fn lemma_anc(t: Tree, q: Query, a: int, y: int)
    requires
        t.shape(q),
        0 <= y < t.len(),
        anc(t, a, y),
    ensures
        0 <= a < t.len(),
        t.g(a) <= t.g(y),
        a != y ==> y >= 1 && anc(t, a, t.parent(y)) && (t.g(a) < t.g(y) || t.stamps[a] < t.stamps[y]),
    decreases t.g(y), t.stamps[y],
{
    if a != y {
        lemma_at(t, q, y);
        lemma_anc(t, q, a, t.parent(y));
    }
}

/// The parent of a place lies on the way to the place.
pub proof fn lemma_anc_up(t: Tree, q: Query, y: int)
    requires
        t.shape(q),
        1 <= y < t.len(),
    ensures
        0 <= t.parent(y) < t.len(),
        anc(t, t.parent(y), y),
        forall|a: int| anc(t, a, t.parent(y)) ==> anc(t, a, y),
{
    lemma_at(t, q, y);
    assert(anc(t, t.parent(y), t.parent(y)));
    assert forall|a: int| anc(t, a, t.parent(y)) implies anc(t, a, y) by {
        if a == y {
        }
    }
}

/// The parent of a place on the way to `y` is on the way to `y`.
pub proof fn lemma_anc_parent(t: Tree, q: Query, x: int, y: int)
    requires
        t.shape(q),
        0 <= y < t.len(),
        1 <= x,
        anc(t, x, y),
    ensures
        anc(t, t.parent(x), y),
    decreases t.g(y), t.stamps[y],
{
    lemma_anc(t, q, x, y);
    if x == y {
        lemma_anc_up(t, q, y);
    } else {
        lemma_at(t, q, y);
        lemma_anc_parent(t, q, x, t.parent(y));
        lemma_anc_up(t, q, y);
    }
}

/// After a place has been added under `u`: what lies on the way to an older
/// place lay there before, and what lies on the way to the new place is the
/// new place or lay on the way to `u`.
pub proof fn lemma_anc_grown(t: Tree, q: Query, s: Connection, u: int, cost: int, a: int, y: int)
    requires
        t.shape(q),
        t.grown(s, u, cost).shape(q),
        0 <= u < t.len(),
        0 <= y <= t.len(),
        anc(t.grown(s, u, cost), a, y),
    ensures
        y < t.len() ==> anc(t, a, y),
        y == t.len() ==> a == y || anc(t, a, u),
    decreases t.grown(s, u, cost).g(y), t.grown(s, u, cost).stamps[y],
{
    let t2 = t.grown(s, u, cost);
    lemma_basics(t, q);
    lemma_basics(t2, q);
    if a != y {
        lemma_anc(t2, q, a, y);
        lemma_at(t2, q, y);
        if y < t.len() {
            lemma_grown_frame(t, q, s, u, cost, y);
            lemma_at(t, q, y);
            lemma_anc_grown(t, q, s, u, cost, a, t.parent(y));
        } else {
            lemma_anc_grown(t, q, s, u, cost, a, u);
        }
    }
}

/// After place `j` has been put under `u`, which `j` does not lead to: what
/// lies on the way to a place that `j` does not lead to lay there before;
/// what lies on the way to a place that `j` leads to lay on the way to `u`,
/// or lay between `j` and the place.
pub proof fn lemma_anc_improved(t: Tree, q: Query, j: int, u: int, cost: int, a: int, y: int)
    requires
        t.shape(q),
        t.improved(j, u, cost).shape(q),
        0 <= u < t.len(),
        1 <= j < t.len(),
        j != u,
        !anc(t, j, u),
        0 <= y < t.len(),
        anc(t.improved(j, u, cost), a, y),
    ensures
        !anc(t, j, y) ==> anc(t, a, y),
        anc(t, j, y) ==> anc(t, a, u) || (anc(t, a, y) && anc(t, j, a)),
    decreases t.improved(j, u, cost).g(y), t.improved(j, u, cost).stamps[y],
{
    let t3 = t.improved(j, u, cost);
    lemma_basics(t, q);
    lemma_basics(t3, q);
    lemma_improved_frame(t, q, j, u, cost, y);
    if a == y {
    } else {
        lemma_anc(t3, q, a, y);
        lemma_at(t3, q, y);
        if y == j {
            lemma_anc_improved(t, q, j, u, cost, a, u);
        } else {
            lemma_at(t, q, y);
            let p = t.parent(y);
            lemma_anc_improved(t, q, j, u, cost, a, p);
            lemma_anc_up(t, q, y);
            if anc(t, j, p) {
            } else {
                assert(!anc(t, j, y));
            }
        }
    }
}

/// Whether the cost at place `i` is that of its parent and its own edge, if
/// it was reached after its parent last changed, and larger if before.
pub open spec fn link_exact(t: Tree, q: Query, i: int) -> bool {
    if tight(t, i) {
        t.g(i) == t.g(t.parent(i)) + q.cost(t.nodes[i])
    } else {
        t.g(i) > t.g(t.parent(i)) + q.cost(t.nodes[i])
    }
}

/// The cost at every place is as `link_exact` says.
#[verifier::opaque]
pub open spec fn exact(t: Tree, q: Query) -> bool {
    forall|i: int| 1 <= i < t.len() ==> #[trigger] link_exact(t, q, i)
}

/// No entry is in the open list twice.
#[verifier::opaque]
pub open spec fn once(open: Multiset<SmallestCostHolder>) -> bool {
    forall|e: SmallestCostHolder| #![trigger open.count(e)] open.count(e) <= 1
}

/// Whether place `i`, if it was reached after its parent last changed, has a
/// parent that does not wait.
pub open spec fn closed_above(t: Tree, open: Multiset<SmallestCostHolder>, q: Query, i: int) -> bool {
    tight(t, i) ==> !pending(t, open, q, t.parent(i))
}

/// A place that was reached after its parent last changed has a parent that
/// does not wait.
#[verifier::opaque]
pub open spec fn parents_closed(t: Tree, open: Multiset<SmallestCostHolder>, q: Query) -> bool {
    forall|i: int| 1 <= i < t.len() ==> #[trigger] closed_above(t, open, q, i)
}

/// Whether the place `x`, if it is on the way to the waiting place `y` and
/// was reached before its parent last changed, has a parent that waits with
/// a smaller estimate than `y`, or the parent `u`.
pub open spec fn blocker_ok(t: Tree, open: Multiset<SmallestCostHolder>, q: Query, u: int, y: int, x: int) -> bool {
    pending(t, open, q, y) && 1 <= x && anc(t, x, y) && !tight(t, x) ==> t.parent(x) == u || (pending(
        t,
        open,
        q,
        t.parent(x),
    ) && f_at(t, q, t.parent(x)) < f_at(t, q, y))
}

/// On the way to a place that waits, a place that was reached before its
/// parent last changed has a parent that waits with a smaller estimate, or
/// the parent `u`, which is under expansion.
#[verifier::opaque]
pub open spec fn blocked(t: Tree, open: Multiset<SmallestCostHolder>, q: Query, u: int) -> bool {
    forall|y: int, x: int| 0 <= y < t.len() && 0 <= x < t.len() ==> #[trigger] blocker_ok(t, open, q, u, y, x)
}

/// Whether place `i` waits in the open list or is the place `u` under
/// expansion.
pub open spec fn active(t: Tree, open: Multiset<SmallestCostHolder>, q: Query, u: int, i: int) -> bool {
    pending(t, open, q, i) || i == u
}

/// Whether, for the expanded place `p`, the place `th` of smaller cost and
/// the place `y` that `p` leads to, one of the two has an estimate that is
/// no smaller than that of `p`.
pub open spec fn threat_ok(
    t: Tree,
    open: Multiset<SmallestCostHolder>,
    q: Query,
    u: int,
    p: int,
    th: int,
    y: int,
) -> bool {
    !active(t, open, q, u, p) && active(t, open, q, u, th) && t.g(th) < t.g(p) && active(t, open, q, u, y) && y
        != p && anc(t, p, y) ==> f_at(t, q, th) >= f_at(t, q, p) || f_at(t, q, y) >= f_at(t, q, p)
}

/// For a place `p` that has been expanded at its present cost: where a
/// place of smaller cost waits with a smaller estimate than `p` had, every
/// place that waits and that `p` leads to has an estimate that is no
/// smaller than that of `p`.
#[verifier::opaque]
pub open spec fn guarded(t: Tree, open: Multiset<SmallestCostHolder>, q: Query, u: int) -> bool {
    forall|p: int, th: int, y: int|
        0 <= p < t.len() && 0 <= th < t.len() && 0 <= y < t.len() ==> #[trigger] threat_ok(
            t,
            open,
            q,
            u,
            p,
            th,
            y,
        )
}

/// Whether place `i`, if it changed since the moment `since`, hangs under
/// `u` and was reached after `u` last changed.
pub open spec fn under(t: Tree, u: int, since: nat, i: int) -> bool {
    t.stamps[i] >= since ==> i >= 1 && t.parent(i) == u && tight(t, i)
}

/// Every place that changed since the moment `since` hangs under `u`.
#[verifier::opaque]
pub open spec fn fresh_under(t: Tree, u: int, since: nat) -> bool {
    forall|i: int| 0 <= i < t.len() ==> #[trigger] under(t, u, since, i)
}

/// Whether place `i`, if it waits since before the moment `since`, has an
/// estimate that is no smaller than that of `u`.
pub open spec fn top_ok(t: Tree, open: Multiset<SmallestCostHolder>, q: Query, u: int, since: nat, i: int) -> bool {
    pending(t, open, q, i) && t.stamps[i] < since ==> f_at(t, q, i) >= f_at(t, q, u)
}

/// Every place that waits since before the moment `since` has an estimate
/// that is no smaller than that of `u`.
#[verifier::opaque]
pub open spec fn topped(t: Tree, open: Multiset<SmallestCostHolder>, q: Query, u: int, since: nat) -> bool {
    forall|i: int| 0 <= i < t.len() ==> #[trigger] top_ok(t, open, q, u, since, i)
}

/// Whether place `x`, if it is on the way to `u`, was reached after its
/// parent last changed.
pub open spec fn clean_at(t: Tree, u: int, x: int) -> bool {
    1 <= x && anc(t, x, u) ==> tight(t, x)
}

/// Every place on the way to `u` was reached after its parent last changed.
#[verifier::opaque]
pub open spec fn clean(t: Tree, u: int) -> bool {
    forall|x: int| 0 <= x < t.len() ==> #[trigger] clean_at(t, u, x)
}

/// What holds of a search beyond `inv`, where identifiers name edges, while
/// place `u` is under expansion since the moment `since`; with `u` below 0,
/// between expansions.
pub open spec fn extra(t: Tree, open: Multiset<SmallestCostHolder>, q: Query, u: int, since: nat) -> bool {
    &&& exact(t, q)
    &&& once(open)
    &&& parents_closed(t, open, q)
    &&& blocked(t, open, q, u)
    &&& guarded(t, open, q, u)
    &&& u >= 0 ==> {
        &&& u < t.len()
        &&& clean(t, u)
        &&& topped(t, open, q, u, since)
        &&& fresh_under(t, u, since)
        &&& !pending(t, open, q, u)
        &&& 1 <= since <= t.tick
    }
}

/// At its beginning a search has all that holds beyond `inv`.
pub proof fn lemma_seed_extra(q: Query)
    ensures
        extra(seed(q), Multiset::empty().insert(first_entry()), q, -1, 0),
{
    let t = seed(q);
    let open = Multiset::<SmallestCostHolder>::empty().insert(first_entry());
    reveal(exact);
    reveal(once);
    reveal(parents_closed);
    reveal(blocked);
    reveal(guarded);
    assert(t.fresh(q, 0) == first_entry());
    assert(pending(t, open, q, 0));
}

/// Whether a place waits is not changed by taking another entry out of the
/// open list.
pub proof fn lemma_pop_pending(
    t: Tree,
    open: Multiset<SmallestCostHolder>,
    rest: Multiset<SmallestCostHolder>,
    q: Query,
    e: SmallestCostHolder,
    i: int,
)
    requires
        t.shape(q),
        open == rest.insert(e),
        0 <= i < t.len(),
    ensures
        pending(t, rest, q, i) ==> pending(t, open, q, i),
        (e.index != i || e.cost != t.g(i)) ==> pending(t, rest, q, i) == pending(t, open, q, i),
{
    lemma_at(t, q, i);
}

/// After an entry has been taken out whose cost is above the present cost of
/// its place, what holds beyond `inv` holds as before.
pub proof fn lemma_pop_stale_extra(
    t: Tree,
    open: Multiset<SmallestCostHolder>,
    rest: Multiset<SmallestCostHolder>,
    q: Query,
    e: SmallestCostHolder,
)
    requires
        t.shape(q),
        extra(t, open, q, -1, 0),
        open == rest.insert(e),
        e.index < t.len(),
        e.cost > t.g(e.index as int),
    ensures
        extra(t, rest, q, -1, 0),
{
    assert(once(rest)) by {
        reveal(once);
        assert forall|x: SmallestCostHolder| #![trigger rest.count(x)] rest.count(x) <= 1 by {
            assert(open.count(x) <= 1);
        }
    }
    assert forall|i: int| 0 <= i < t.len() implies pending(t, rest, q, i) == pending(t, open, q, i) by {
        lemma_pop_pending(t, open, rest, q, e, i);
    }
    lemma_basics(t, q);
    assert(parents_closed(t, rest, q)) by {
        reveal(parents_closed);
        assert forall|i: int| 1 <= i < t.len() implies #[trigger] closed_above(t, rest, q, i) by {
            assert(closed_above(t, open, q, i));
            lemma_at(t, q, i);
        }
    }
    assert(blocked(t, rest, q, -1)) by {
        reveal(blocked);
        assert forall|y: int, x: int| 0 <= y < t.len() && 0 <= x < t.len() implies #[trigger] blocker_ok(
            t,
            rest,
            q,
            -1,
            y,
            x,
        ) by {
            assert(blocker_ok(t, open, q, -1, y, x));
            if x >= 1 {
                lemma_at(t, q, x);
            }
        }
    }
    assert(guarded(t, rest, q, -1)) by {
        reveal(guarded);
        assert forall|p: int, th: int, y: int|
            0 <= p < t.len() && 0 <= th < t.len() && 0 <= y < t.len() implies #[trigger] threat_ok(
            t,
            rest,
            q,
            -1,
            p,
            th,
            y,
        ) by {
            assert(threat_ok(t, open, q, -1, p, th, y));
        }
    }
}

/// The entry that the open list hands out for a place at its present cost is
/// the one entry of that place that waits, and its estimate is no larger
/// than that of any place that waits.
pub proof fn lemma_pop_first(
    t: Tree,
    open: Multiset<SmallestCostHolder>,
    rest: Multiset<SmallestCostHolder>,
    q: Query,
    e: SmallestCostHolder,
)
    requires
        inv(t, open, q, -1, 0),
        once(open),
        open == rest.insert(e),
        forall|other: SmallestCostHolder| open.count(other) > 0 ==> e.no_later(other),
        e.index < t.len(),
        e.cost == t.g(e.index as int),
    ensures
        e == t.fresh(q, e.index as int),
        pending(t, open, q, e.index as int),
        !pending(t, rest, q, e.index as int),
        forall|i: int| 0 <= i < t.len() && pending(t, open, q, i) ==> f_at(t, q, e.index as int) <= f_at(t, q, i),
{
    let u = e.index as int;
    lemma_pop_open_ok(t, open, rest, q, e);
    lemma_at(t, q, u);
    assert(e == t.fresh(q, u));
    assert(open.count(e) <= 1) by {
        reveal(once);
    }
    assert forall|i: int| 0 <= i < t.len() && pending(t, open, q, i) implies f_at(t, q, u) <= f_at(t, q, i) by {
        lemma_at(t, q, i);
        assert(e.no_later(t.fresh(q, i)));
    }
}

/// The way to the place whose entry the open list hands out at its present
/// cost is clean.
pub proof fn lemma_pop_clean(
    t: Tree,
    open: Multiset<SmallestCostHolder>,
    rest: Multiset<SmallestCostHolder>,
    q: Query,
    e: SmallestCostHolder,
)
    requires
        inv(t, open, q, -1, 0),
        extra(t, open, q, -1, 0),
        open == rest.insert(e),
        forall|other: SmallestCostHolder| open.count(other) > 0 ==> e.no_later(other),
        e.index < t.len(),
        e.cost == t.g(e.index as int),
    ensures
        clean(t, e.index as int),
{
    let u = e.index as int;
    lemma_pop_first(t, open, rest, q, e);
    reveal(clean);
    assert forall|x: int| 0 <= x < t.len() implies #[trigger] clean_at(t, u, x) by {
        if 1 <= x && anc(t, x, u) && !tight(t, x) {
            assert(blocker_ok(t, open, q, -1, u, x)) by {
                reveal(blocked);
            }
            lemma_at(t, q, x);
        }
    }
}

/// After the entry of a place at its present cost has been taken out, and
/// the edge of the place does not arrive at the end system, what holds
/// beyond `inv` holds for the expansion of the place.
pub proof fn lemma_pop_fresh_extra(
    t: Tree,
    open: Multiset<SmallestCostHolder>,
    rest: Multiset<SmallestCostHolder>,
    q: Query,
    e: SmallestCostHolder,
)
    requires
        inv(t, open, q, -1, 0),
        extra(t, open, q, -1, 0),
        open == rest.insert(e),
        forall|other: SmallestCostHolder| open.count(other) > 0 ==> e.no_later(other),
        e.index < t.len(),
        e.cost == t.g(e.index as int),
    ensures
        extra(t, rest, q, e.index as int, t.tick),
{
    let u = e.index as int;
    lemma_pop_first(t, open, rest, q, e);
    lemma_pop_clean(t, open, rest, q, e);
    lemma_basics(t, q);
    lemma_at(t, q, u);
    assert(once(rest)) by {
        reveal(once);
        assert forall|x: SmallestCostHolder| #![trigger rest.count(x)] rest.count(x) <= 1 by {
            assert(open.count(x) <= 1);
        }
    }
    assert forall|i: int| 0 <= i < t.len() && i != u implies pending(t, rest, q, i) == pending(t, open, q, i) by {
        lemma_pop_pending(t, open, rest, q, e, i);
    }
    assert(parents_closed(t, rest, q)) by {
        reveal(parents_closed);
        assert forall|i: int| 1 <= i < t.len() implies #[trigger] closed_above(t, rest, q, i) by {
            assert(closed_above(t, open, q, i));
            lemma_at(t, q, i);
        }
    }
    assert(blocked(t, rest, q, u)) by {
        reveal(blocked);
        assert forall|y: int, x: int| 0 <= y < t.len() && 0 <= x < t.len() implies #[trigger] blocker_ok(
            t,
            rest,
            q,
            u,
            y,
            x,
        ) by {
            assert(blocker_ok(t, open, q, -1, y, x));
            if x >= 1 {
                lemma_at(t, q, x);
            }
        }
    }
    assert(guarded(t, rest, q, u)) by {
        reveal(guarded);
        assert forall|p: int, th: int, y: int|
            0 <= p < t.len() && 0 <= th < t.len() && 0 <= y < t.len() implies #[trigger] threat_ok(
            t,
            rest,
            q,
            u,
            p,
            th,
            y,
        ) by {
            assert(threat_ok(t, open, q, -1, p, th, y));
        }
    }
    assert(topped(t, rest, q, u, t.tick)) by {
        reveal(topped);
    }
    assert(fresh_under(t, u, t.tick)) by {
        reveal(fresh_under);
        assert forall|i: int| 0 <= i < t.len() implies #[trigger] under(t, u, t.tick, i) by {
            lemma_at(t, q, i);
        }
    }
}

/// The cost at a place with a clean way is the cost of the chain to it.
pub proof fn lemma_clean_cost(t: Tree, q: Query, i: int)
    requires
        t.shape(q),
        t.sound(q),
        exact(t, q),
        0 <= i < t.len(),
        forall|x: int| 1 <= x && anc(t, x, i) ==> tight(t, x),
    ensures
        q.walk_cost(chain(t, i)) == t.g(i),
    decreases t.g(i), t.stamps[i],
{
    lemma_basics(t, q);
    lemma_at(t, q, i);
    if i >= 1 {
        let p = t.parent(i);
        lemma_anc_up(t, q, i);
        lemma_clean_cost(t, q, p);
        assert(anc(t, i, i));
        assert(link_exact(t, q, i)) by {
            reveal(exact);
        }
        assert(chain(t, i).drop_last() =~= chain(t, p));
    } else {
        assert(chain(t, 0) =~= seq![q.start]);
    }
}

/// The cost of the entry that the open list hands out for a place whose
/// edge arrives at the end system is the cost of the chain to the place.
pub proof fn lemma_found_exact(
    t: Tree,
    open: Multiset<SmallestCostHolder>,
    rest: Multiset<SmallestCostHolder>,
    q: Query,
    e: SmallestCostHolder,
)
    requires
        inv(t, open, q, -1, 0),
        q.ids_name_edges(),
        extra(t, open, q, -1, 0),
        open == rest.insert(e),
        forall|other: SmallestCostHolder| open.count(other) > 0 ==> e.no_later(other),
        e.index < t.len(),
        q.is_goal(t.nodes[e.index as int]),
    ensures
        e.cost == t.g(e.index as int),
        q.walk_cost(chain(t, e.index as int)) == e.cost,
{
    let u = e.index as int;
    lemma_pop_open_ok(t, open, rest, q, e);
    lemma_at(t, q, u);
    assert(pending(t, open, q, u)) by {
        reveal(goals_wait);
    }
    assert(e.no_later(t.fresh(q, u)));
    lemma_pop_clean(t, open, rest, q, e);
    assert forall|x: int| 1 <= x && anc(t, x, u) implies tight(t, x) by {
        lemma_anc(t, q, x, u);
        assert(clean_at(t, u, x)) by {
            reveal(clean);
        }
    }
    lemma_clean_cost(t, q, u);
}

/// Every place under the place that has been expanded was reached after the
/// place last changed.
pub proof fn lemma_children_tight(t: Tree, open: Multiset<SmallestCostHolder>, q: Query, u: int, k: int, x: int)
    requires
        inv(t, open, q, u, k),
        q.ids_name_edges(),
        exact(t, q),
        0 <= u < t.len(),
        !pending(t, open, q, u),
        k >= q.edges(t.nodes[u].target).len(),
        1 <= x < t.len(),
        t.parent(x) == u,
    ensures
        tight(t, x),
{
    lemma_basics(t, q);
    lemma_at(t, q, x);
    if !tight(t, x) {
        assert(link_exact(t, q, x)) by {
            reveal(exact);
        }
        assert(t.step_ok(q, x)) by {
            reveal(Tree::sound);
        }
        let out = q.edges(t.nodes[u].target);
        let m = choose|m: int| 0 <= m < out.len() && out[m] == t.nodes[x];
        assert(t.relaxed_upto(q, u, k)) by {
            reveal(settled);
            assert(pending(t, open, q, u) || t.relaxed_upto(q, u, t.due(q, u, k, u)));
        }
        assert(t.reached(q, u, out[m])) by {
            reveal(Tree::relaxed_upto);
        }
        lemma_place(t, x);
    }
}

/// When every edge out of the place under expansion has been seen, what
/// holds beyond `inv` holds between expansions.
pub proof fn lemma_expanded_extra(t: Tree, open: Multiset<SmallestCostHolder>, q: Query, u: int, k: int, since: nat)
    requires
        inv(t, open, q, u, k),
        q.ids_name_edges(),
        extra(t, open, q, u, since),
        0 <= u < t.len(),
        k >= q.edges(t.nodes[u].target).len(),
    ensures
        extra(t, open, q, -1, 0),
{
    lemma_basics(t, q);
    assert(blocked(t, open, q, -1)) by {
        reveal(blocked);
        assert forall|y: int, x: int| 0 <= y < t.len() && 0 <= x < t.len() implies #[trigger] blocker_ok(
            t,
            open,
            q,
            -1,
            y,
            x,
        ) by {
            assert(blocker_ok(t, open, q, u, y, x));
            if x >= 1 && t.parent(x) == u {
                lemma_children_tight(t, open, q, u, k, x);
            }
        }
    }
    assert(guarded(t, open, q, -1)) by {
        reveal(guarded);
        assert forall|p: int, th: int, y: int|
            0 <= p < t.len() && 0 <= th < t.len() && 0 <= y < t.len() implies #[trigger] threat_ok(
            t,
            open,
            q,
            -1,
            p,
            th,
            y,
        ) by {
            if p != u {
                assert(threat_ok(t, open, q, u, p, th, y));
            } else if pending(t, open, q, th) && t.g(th) < t.g(u) {
                assert(under(t, u, since, th)) by {
                    reveal(fresh_under);
                }
                assert(top_ok(t, open, q, u, since, th)) by {
                    reveal(topped);
                }
                if t.stamps[th] >= since {
                    lemma_at(t, q, th);
                    assert(link_exact(t, q, th)) by {
                        reveal(exact);
                    }
                }
            }
        }
    }
}

/// The table after a place has been added for the `k`-th edge out of `u`.
pub open spec fn grown_at(t: Tree, q: Query, u: int, k: int) -> Tree {
    let s = q.edges(t.nodes[u].target)[k];
    t.grown(s, u, t.g(u) + q.cost(s))
}

/// The open list after the entry for that place has been added.
pub open spec fn grown_open(t: Tree, open: Multiset<SmallestCostHolder>, q: Query, u: int, k: int) -> Multiset<
    SmallestCostHolder,
> {
    open.insert(grown_at(t, q, u, k).fresh(q, t.len()))
}

/// What stays as it was at an older place when a place is added.
pub proof fn lemma_grow_old(t: Tree, open: Multiset<SmallestCostHolder>, q: Query, u: int, k: int, i: int)
    requires
        inv(t, open, q, u, k),
        0 <= u < t.len(),
        0 <= k < q.edges(t.nodes[u].target).len(),
        !t.knows(q.edges(t.nodes[u].target)[k].id),
        0 <= i < t.len(),
    ensures
        grown_at(t, q, u, k).shape(q),
        grown_at(t, q, u, k).len() == t.len() + 1,
        pending(grown_at(t, q, u, k), grown_open(t, open, q, u, k), q, i) == pending(t, open, q, i),
        f_at(grown_at(t, q, u, k), q, i) == f_at(t, q, i),
        grown_at(t, q, u, k).g(i) == t.g(i),
        grown_at(t, q, u, k).stamps[i] == t.stamps[i],
        grown_at(t, q, u, k).nodes[i] == t.nodes[i],
        i >= 1 ==> grown_at(t, q, u, k).parent(i) == t.parent(i) && tight(grown_at(t, q, u, k), i) == tight(
            t,
            i,
        ),
{
    let s = q.edges(t.nodes[u].target)[k];
    let cost = t.g(u) + q.cost(s);
    let t2 = grown_at(t, q, u, k);
    lemma_basics(t, q);
    lemma_grown_shape(t, q, u, k);
    lemma_grown_frame(t, q, s, u, cost, i);
    lemma_at(t, q, i);
    lemma_at(t2, q, t.len());
    if i >= 1 {
        lemma_grown_frame(t, q, s, u, cost, t.parent(i));
    }
}

/// What holds at the place that has been added.
pub proof fn lemma_grow_new(t: Tree, open: Multiset<SmallestCostHolder>, q: Query, u: int, k: int)
    requires
        inv(t, open, q, u, k),
        0 <= u < t.len(),
        0 <= k < q.edges(t.nodes[u].target).len(),
        !t.knows(q.edges(t.nodes[u].target)[k].id),
    ensures
        ({
            let t2 = grown_at(t, q, u, k);
            let n = t.len();
            &&& t2.shape(q)
            &&& t2.len() == n + 1
            &&& t2.parent(n) == u
            &&& t2.nodes[n] == q.edges(t.nodes[u].target)[k]
            &&& t2.g(n) == t.g(u) + q.cost(q.edges(t.nodes[u].target)[k])
            &&& t2.g(n) >= t.g(u)
            &&& t2.stamps[n] == t.tick
            &&& t2.tick == t.tick + 1
            &&& tight(t2, n)
            &&& pending(t2, grown_open(t, open, q, u, k), q, n)
            &&& open.count(t2.fresh(q, n)) == 0
        }),
{
    let s = q.edges(t.nodes[u].target)[k];
    let cost = t.g(u) + q.cost(s);
    let t2 = grown_at(t, q, u, k);
    let n = t.len();
    lemma_basics(t, q);
    lemma_grown_shape(t, q, u, k);
    lemma_grown_frame(t, q, s, u, cost, u);
    lemma_at(t, q, u);
    lemma_at(t2, q, n);
    assert(open.count(t2.fresh(q, n)) == 0) by {
        reveal(open_ok);
    }
}

/// Adding a place for an edge out of the place under expansion keeps what
/// holds beyond `inv`.
pub proof fn lemma_grow_extra(
    t: Tree,
    open: Multiset<SmallestCostHolder>,
    q: Query,
    u: int,
    k: int,
    since: nat,
)
    requires
        inv(t, open, q, u, k),
        q.ids_name_edges(),
        extra(t, open, q, u, since),
        0 <= u < t.len(),
        0 <= k < q.edges(t.nodes[u].target).len(),
        !t.knows(q.edges(t.nodes[u].target)[k].id),
    ensures
        extra(grown_at(t, q, u, k), grown_open(t, open, q, u, k), q, u, since),
{
    let s = q.edges(t.nodes[u].target)[k];
    let t2 = grown_at(t, q, u, k);
    let open2 = grown_open(t, open, q, u, k);
    let n = t.len();
    lemma_grow_new(t, open, q, u, k);
    lemma_grow_old(t, open, q, u, k, u);
    lemma_basics(t, q);
    assert(exact(t2, q)) by {
        reveal(exact);
        assert forall|i: int| 1 <= i < t2.len() implies #[trigger] link_exact(t2, q, i) by {
            if i < n {
                lemma_grow_old(t, open, q, u, k, i);
                lemma_at(t, q, i);
                lemma_grow_old(t, open, q, u, k, t.parent(i));
                assert(link_exact(t, q, i));
            }
        }
    }
    assert(once(open2)) by {
        reveal(once);
        assert forall|e: SmallestCostHolder| #![trigger open2.count(e)] open2.count(e) <= 1 by {
            assert(open.count(e) <= 1);
        }
    }
    assert(parents_closed(t2, open2, q)) by {
        reveal(parents_closed);
        assert forall|i: int| 1 <= i < t2.len() implies #[trigger] closed_above(t2, open2, q, i) by {
            if i < n {
                lemma_grow_old(t, open, q, u, k, i);
                lemma_at(t, q, i);
                lemma_grow_old(t, open, q, u, k, t.parent(i));
                assert(closed_above(t, open, q, i));
            }
        }
    }
    lemma_grow_blocked(t, open, q, u, k, since);
    lemma_grow_guarded(t, open, q, u, k, since);
    assert(clean(t2, u)) by {
        reveal(clean);
        assert forall|x: int| 0 <= x < t2.len() implies #[trigger] clean_at(t2, u, x) by {
            if 1 <= x && anc(t2, x, u) {
                lemma_anc_grown(t, q, s, u, t.g(u) + q.cost(s), x, u);
                lemma_anc(t, q, x, u);
                assert(clean_at(t, u, x));
                lemma_grow_old(t, open, q, u, k, x);
            }
        }
    }
    assert(topped(t2, open2, q, u, since)) by {
        reveal(topped);
        assert forall|i: int| 0 <= i < t2.len() implies #[trigger] top_ok(t2, open2, q, u, since, i) by {
            if i < n {
                lemma_grow_old(t, open, q, u, k, i);
                assert(top_ok(t, open, q, u, since, i));
            }
        }
    }
    assert(fresh_under(t2, u, since)) by {
        reveal(fresh_under);
        assert forall|i: int| 0 <= i < t2.len() implies #[trigger] under(t2, u, since, i) by {
            if i < n {
                lemma_grow_old(t, open, q, u, k, i);
                assert(under(t, u, since, i));
            }
        }
    }
}

/// Adding a place keeps `blocked`.
pub proof fn lemma_grow_blocked(
    t: Tree,
    open: Multiset<SmallestCostHolder>,
    q: Query,
    u: int,
    k: int,
    since: nat,
)
    requires
        inv(t, open, q, u, k),
        q.ids_name_edges(),
        extra(t, open, q, u, since),
        0 <= u < t.len(),
        0 <= k < q.edges(t.nodes[u].target).len(),
        !t.knows(q.edges(t.nodes[u].target)[k].id),
    ensures
        blocked(grown_at(t, q, u, k), grown_open(t, open, q, u, k), q, u),
{
    let s = q.edges(t.nodes[u].target)[k];
    let t2 = grown_at(t, q, u, k);
    let open2 = grown_open(t, open, q, u, k);
    let n = t.len();
    lemma_grow_new(t, open, q, u, k);
    lemma_basics(t, q);
    reveal(blocked);
    assert forall|y: int, x: int| 0 <= y < t2.len() && 0 <= x < t2.len() implies #[trigger] blocker_ok(
        t2,
        open2,
        q,
        u,
        y,
        x,
    ) by {
        if pending(t2, open2, q, y) && 1 <= x && anc(t2, x, y) && !tight(t2, x) {
            lemma_anc_grown(t, q, s, u, t.g(u) + q.cost(s), x, y);
            if y == n {
                lemma_anc(t, q, x, u);
                assert(clean_at(t, u, x)) by {
                    reveal(clean);
                }
                lemma_grow_old(t, open, q, u, k, x);
            } else {
                lemma_anc(t, q, x, y);
                lemma_grow_old(t, open, q, u, k, y);
                lemma_grow_old(t, open, q, u, k, x);
                lemma_at(t, q, x);
                lemma_grow_old(t, open, q, u, k, t.parent(x));
                assert(blocker_ok(t, open, q, u, y, x));
            }
        }
    }
}

/// Adding a place keeps `guarded`.
pub proof fn lemma_grow_guarded(
    t: Tree,
    open: Multiset<SmallestCostHolder>,
    q: Query,
    u: int,
    k: int,
    since: nat,
)
    requires
        inv(t, open, q, u, k),
        q.ids_name_edges(),
        extra(t, open, q, u, since),
        0 <= u < t.len(),
        0 <= k < q.edges(t.nodes[u].target).len(),
        !t.knows(q.edges(t.nodes[u].target)[k].id),
    ensures
        guarded(grown_at(t, q, u, k), grown_open(t, open, q, u, k), q, u),
{
    let s = q.edges(t.nodes[u].target)[k];
    let t2 = grown_at(t, q, u, k);
    let open2 = grown_open(t, open, q, u, k);
    let n = t.len();
    lemma_grow_new(t, open, q, u, k);
    lemma_grow_old(t, open, q, u, k, u);
    lemma_basics(t, q);
    reveal(guarded);
    assert forall|p: int, th: int, y: int|
        0 <= p < t2.len() && 0 <= th < t2.len() && 0 <= y < t2.len() implies #[trigger] threat_ok(
        t2,
        open2,
        q,
        u,
        p,
        th,
        y,
    ) by {
        if !active(t2, open2, q, u, p) && active(t2, open2, q, u, th) && t2.g(th) < t2.g(p) && active(
            t2,
            open2,
            q,
            u,
            y,
        ) && y != p && anc(t2, p, y) {
            assert(p < n);
            lemma_grow_old(t, open, q, u, k, p);
            lemma_anc_grown(t, q, s, u, t.g(u) + q.cost(s), p, y);
            if y == n {
                // the new place hangs under `u`, which `p` leads to
                lemma_anc(t, q, p, u);
                if th == n {
                } else {
                    lemma_grow_old(t, open, q, u, k, th);
                    lemma_above_u(t, open, q, u, since, p, th);
                }
            } else {
                lemma_anc(t, q, p, y);
                lemma_grow_old(t, open, q, u, k, y);
                if th == n {
                    // `u` was as much of a threat as the new place is
                    assert(threat_ok(t, open, q, u, p, u, y));
                    lemma_behind_u(t, open, q, u, since, p, y);
                } else {
                    lemma_grow_old(t, open, q, u, k, th);
                    assert(threat_ok(t, open, q, u, p, th, y));
                }
            }
        }
    }
}

/// For a place `p` that has been expanded and leads to the place `u` under
/// expansion: every place of smaller cost that waits, or is `u`, has an
/// estimate that is no smaller than that of `p`.
pub proof fn lemma_above_u(
    t: Tree,
    open: Multiset<SmallestCostHolder>,
    q: Query,
    u: int,
    since: nat,
    p: int,
    th: int,
)
    requires
        t.shape(q),
        extra(t, open, q, u, since),
        0 <= u < t.len(),
        0 <= p < t.len(),
        0 <= th < t.len(),
        !active(t, open, q, u, p),
        active(t, open, q, u, th),
        t.g(th) < t.g(p),
        anc(t, p, u),
    ensures
        f_at(t, q, th) >= f_at(t, q, p),
{
    lemma_anc(t, q, p, u);
    assert(threat_ok(t, open, q, u, p, th, u)) by {
        reveal(guarded);
    }
    if f_at(t, q, th) < f_at(t, q, p) {
        assert(f_at(t, q, u) >= f_at(t, q, p));
        assert(top_ok(t, open, q, u, since, th)) by {
            reveal(topped);
        }
        assert(under(t, u, since, th)) by {
            reveal(fresh_under);
        }
        if t.stamps[th] >= since {
            assert(link_exact(t, q, th)) by {
                reveal(exact);
            }
            lemma_at(t, q, th);
        }
    }
}

/// For a place `p` that has been expanded at a cost above that of the place
/// `u` under expansion: every place that `p` leads to and that waits has an
/// estimate that is no smaller than that of `p`.
pub proof fn lemma_behind_u(
    t: Tree,
    open: Multiset<SmallestCostHolder>,
    q: Query,
    u: int,
    since: nat,
    p: int,
    y: int,
)
    requires
        t.shape(q),
        extra(t, open, q, u, since),
        0 <= u < t.len(),
        0 <= p < t.len(),
        0 <= y < t.len(),
        !active(t, open, q, u, p),
        t.g(u) < t.g(p),
        active(t, open, q, u, y),
        y != p,
        anc(t, p, y),
    ensures
        f_at(t, q, y) >= f_at(t, q, p),
{
    assert(threat_ok(t, open, q, u, p, u, y)) by {
        reveal(guarded);
    }
    if f_at(t, q, y) < f_at(t, q, p) {
        assert(f_at(t, q, u) >= f_at(t, q, p));
        if y == u {
            lemma_anc(t, q, p, u);
        } else {
            assert(top_ok(t, open, q, u, since, y)) by {
                reveal(topped);
            }
            assert(under(t, u, since, y)) by {
                reveal(fresh_under);
            }
            if t.stamps[y] >= since {
                lemma_anc(t, q, p, y);
                lemma_anc(t, q, p, u);
            }
        }
    }
}

/// The table after place `j` has been put under `u` over the `k`-th edge
/// out of `u`.
pub open spec fn improved_at(t: Tree, q: Query, u: int, k: int, j: int) -> Tree {
    t.improved(j, u, t.g(u) + q.cost(q.edges(t.nodes[u].target)[k]))
}

/// The open list after the entry for that place has been added.
pub open spec fn improved_open(
    t: Tree,
    open: Multiset<SmallestCostHolder>,
    q: Query,
    u: int,
    k: int,
    j: int,
) -> Multiset<SmallestCostHolder> {
    open.insert(improved_at(t, q, u, k, j).fresh(q, j))
}

/// Whether place `j` can be put under `u` over the `k`-th edge out of `u`.
pub open spec fn improvable(t: Tree, open: Multiset<SmallestCostHolder>, q: Query, u: int, k: int, j: int) -> bool {
    &&& inv(t, open, q, u, k)
    &&& 0 <= u < t.len()
    &&& 0 <= j < t.len()
    &&& 0 <= k < q.edges(t.nodes[u].target).len()
    &&& t.slots[j].0 == q.edges(t.nodes[u].target)[k].id
    &&& t.g(u) + q.cost(q.edges(t.nodes[u].target)[k]) < t.g(j)
}

/// What holds at the place that has been put under `u`.
pub proof fn lemma_improve_new(t: Tree, open: Multiset<SmallestCostHolder>, q: Query, u: int, k: int, j: int)
    requires
        improvable(t, open, q, u, k, j),
    ensures
        ({
            let t3 = improved_at(t, q, u, k, j);
            &&& t3.shape(q)
            &&& t3.len() == t.len()
            &&& j >= 1
            &&& j != u
            &&& !anc(t, j, u)
            &&& t3.parent(j) == u
            &&& t3.g(j) == t.g(u) + q.cost(q.edges(t.nodes[u].target)[k])
            &&& t3.g(j) < t.g(j)
            &&& f_at(t3, q, j) < f_at(t, q, j)
            &&& t3.stamps[j] == t.tick
            &&& t3.tick == t.tick + 1
            &&& tight(t3, j)
            &&& pending(t3, improved_open(t, open, q, u, k, j), q, j)
            &&& open.count(t3.fresh(q, j)) == 0
            &&& q.ids_name_edges() ==> t.nodes[j] == q.edges(t.nodes[u].target)[k]
        }),
{
    let s = q.edges(t.nodes[u].target)[k];
    let cost = t.g(u) + q.cost(s);
    let t3 = improved_at(t, q, u, k, j);
    lemma_basics(t, q);
    lemma_at(t, q, u);
    lemma_at(t, q, j);
    lemma_improved_shape(t, q, u, j, cost);
    lemma_improved_frame(t, q, j, u, cost, j);
    lemma_improved_frame(t, q, j, u, cost, u);
    lemma_at(t3, q, j);
    if anc(t, j, u) {
        lemma_anc(t, q, j, u);
    }
    assert(open.count(t3.fresh(q, j)) == 0) by {
        reveal(open_ok);
    }
    if q.ids_name_edges() {
        assert(q.offers(s));
        assert(q.offers(t.nodes[j]));
    }
}

/// What stays as it was at another place when place `j` is put under `u`.
pub proof fn lemma_improve_old(
    t: Tree,
    open: Multiset<SmallestCostHolder>,
    q: Query,
    u: int,
    k: int,
    j: int,
    i: int,
)
    requires
        improvable(t, open, q, u, k, j),
        0 <= i < t.len(),
        i != j,
    ensures
        pending(improved_at(t, q, u, k, j), improved_open(t, open, q, u, k, j), q, i) == pending(t, open, q, i),
        f_at(improved_at(t, q, u, k, j), q, i) == f_at(t, q, i),
        improved_at(t, q, u, k, j).g(i) == t.g(i),
        improved_at(t, q, u, k, j).stamps[i] == t.stamps[i],
        t.stamps[i] < t.tick,
        improved_at(t, q, u, k, j).nodes[i] == t.nodes[i],
        i >= 1 ==> improved_at(t, q, u, k, j).parent(i) == t.parent(i) && 0 <= t.parent(i) < t.len(),
        i >= 1 && t.parent(i) != j ==> tight(improved_at(t, q, u, k, j), i) == tight(t, i),
        i >= 1 && t.parent(i) == j ==> !tight(improved_at(t, q, u, k, j), i),
{
    let s = q.edges(t.nodes[u].target)[k];
    let cost = t.g(u) + q.cost(s);
    let t3 = improved_at(t, q, u, k, j);
    lemma_basics(t, q);
    lemma_improve_new(t, open, q, u, k, j);
    lemma_improved_frame(t, q, j, u, cost, i);
    lemma_improved_frame(t, q, j, u, cost, j);
    lemma_at(t, q, i);
    lemma_at(t3, q, j);
    if i >= 1 {
        lemma_improved_frame(t, q, j, u, cost, t.parent(i));
    }
}

/// Two places that lead to each other are one place.
pub proof fn lemma_anc_both(t: Tree, q: Query, a: int, b: int)
    requires
        t.shape(q),
        0 <= a < t.len(),
        0 <= b < t.len(),
        anc(t, a, b),
        anc(t, b, a),
    ensures
        a == b,
{
    lemma_anc(t, q, a, b);
    lemma_anc(t, q, b, a);
}

/// Putting a place under the place under expansion keeps `blocked`.
pub proof fn lemma_improve_blocked(
    t: Tree,
    open: Multiset<SmallestCostHolder>,
    q: Query,
    u: int,
    k: int,
    j: int,
    since: nat,
)
    requires
        improvable(t, open, q, u, k, j),
        q.ids_name_edges(),
        extra(t, open, q, u, since),
    ensures
        blocked(improved_at(t, q, u, k, j), improved_open(t, open, q, u, k, j), q, u),
{
    let cost = t.g(u) + q.cost(q.edges(t.nodes[u].target)[k]);
    let t3 = improved_at(t, q, u, k, j);
    let open3 = improved_open(t, open, q, u, k, j);
    lemma_improve_new(t, open, q, u, k, j);
    lemma_basics(t, q);
    reveal(blocked);
    assert forall|y: int, x: int| 0 <= y < t3.len() && 0 <= x < t3.len() implies #[trigger] blocker_ok(
        t3,
        open3,
        q,
        u,
        y,
        x,
    ) by {
        if pending(t3, open3, q, y) && 1 <= x && anc(t3, x, y) && !tight(t3, x) {
            lemma_anc_improved(t, q, j, u, cost, x, y);
            if !anc(t, j, y) {
                lemma_anc_parent(t, q, x, y);
                lemma_improve_old(t, open, q, u, k, j, y);
                lemma_improve_old(t, open, q, u, k, j, x);
                lemma_improve_old(t, open, q, u, k, j, t.parent(x));
                assert(blocker_ok(t, open, q, u, y, x));
            } else if anc(t, x, u) {
                lemma_anc_parent(t, q, x, u);
                assert(clean_at(t, u, x)) by {
                    reveal(clean);
                }
                lemma_improve_old(t, open, q, u, k, j, x);
            } else if x != j {
                if y == j {
                    lemma_anc_both(t, q, x, j);
                }
                lemma_improve_old(t, open, q, u, k, j, y);
                lemma_improve_old(t, open, q, u, k, j, x);
                if t.parent(x) == j {
                    if pending(t, open, q, j) {
                        assert(closed_above(t, open, q, x)) by {
                            reveal(parents_closed);
                        }
                        assert(blocker_ok(t, open, q, u, y, x));
                    } else {
                        lemma_behind_u(t, open, q, u, since, j, y);
                    }
                } else {
                    lemma_improve_old(t, open, q, u, k, j, t.parent(x));
                    assert(blocker_ok(t, open, q, u, y, x));
                }
            }
        }
    }
}

/// Putting a place under the place under expansion keeps `guarded`.
pub proof fn lemma_improve_guarded(
    t: Tree,
    open: Multiset<SmallestCostHolder>,
    q: Query,
    u: int,
    k: int,
    j: int,
    since: nat,
)
    requires
        improvable(t, open, q, u, k, j),
        q.ids_name_edges(),
        extra(t, open, q, u, since),
    ensures
        guarded(improved_at(t, q, u, k, j), improved_open(t, open, q, u, k, j), q, u),
{
    let cost = t.g(u) + q.cost(q.edges(t.nodes[u].target)[k]);
    let t3 = improved_at(t, q, u, k, j);
    let open3 = improved_open(t, open, q, u, k, j);
    lemma_improve_new(t, open, q, u, k, j);
    lemma_improve_old(t, open, q, u, k, j, u);
    lemma_basics(t, q);
    reveal(guarded);
    assert forall|p: int, th: int, y: int|
        0 <= p < t3.len() && 0 <= th < t3.len() && 0 <= y < t3.len() implies #[trigger] threat_ok(
        t3,
        open3,
        q,
        u,
        p,
        th,
        y,
    ) by {
        if !active(t3, open3, q, u, p) && active(t3, open3, q, u, th) && t3.g(th) < t3.g(p) && active(
            t3,
            open3,
            q,
            u,
            y,
        ) && y != p && anc(t3, p, y) {
            assert(p != j);
            lemma_improve_old(t, open, q, u, k, j, p);
            lemma_anc_improved(t, q, j, u, cost, p, y);
            if y == j && !anc(t, p, u) {
                lemma_anc_both(t, q, p, j);
            }
            if y == j || (anc(t, j, y) && anc(t, p, u)) {
                // `p` leads to `u`
                lemma_anc(t, q, p, u);
                if y != j {
                    lemma_improve_old(t, open, q, u, k, j, y);
                }
                if th != j {
                    lemma_improve_old(t, open, q, u, k, j, th);
                    lemma_above_u(t, open, q, u, since, p, th);
                }
            } else {
                lemma_improve_old(t, open, q, u, k, j, y);
                if th == j {
                    lemma_behind_u(t, open, q, u, since, p, y);
                } else {
                    lemma_improve_old(t, open, q, u, k, j, th);
                    assert(threat_ok(t, open, q, u, p, th, y));
                }
            }
        }
    }
}

/// Putting a place under the place under expansion keeps what holds beyond
/// `inv`.
pub proof fn lemma_improve_extra(
    t: Tree,
    open: Multiset<SmallestCostHolder>,
    q: Query,
    u: int,
    k: int,
    j: int,
    since: nat,
)
    requires
        improvable(t, open, q, u, k, j),
        q.ids_name_edges(),
        extra(t, open, q, u, since),
    ensures
        extra(improved_at(t, q, u, k, j), improved_open(t, open, q, u, k, j), q, u, since),
{
    let cost = t.g(u) + q.cost(q.edges(t.nodes[u].target)[k]);
    let t3 = improved_at(t, q, u, k, j);
    let open3 = improved_open(t, open, q, u, k, j);
    lemma_improve_new(t, open, q, u, k, j);
    lemma_improve_old(t, open, q, u, k, j, u);
    lemma_basics(t, q);
    assert(exact(t3, q)) by {
        reveal(exact);
        assert forall|i: int| 1 <= i < t3.len() implies #[trigger] link_exact(t3, q, i) by {
            if i != j {
                lemma_improve_old(t, open, q, u, k, j, i);
                assert(link_exact(t, q, i));
                if t.parent(i) != j {
                    lemma_improve_old(t, open, q, u, k, j, t.parent(i));
                }
            }
        }
    }
    assert(once(open3)) by {
        reveal(once);
        assert forall|e: SmallestCostHolder| #![trigger open3.count(e)] open3.count(e) <= 1 by {
            assert(open.count(e) <= 1);
        }
    }
    assert(parents_closed(t3, open3, q)) by {
        reveal(parents_closed);
        assert forall|i: int| 1 <= i < t3.len() implies #[trigger] closed_above(t3, open3, q, i) by {
            if i != j {
                lemma_improve_old(t, open, q, u, k, j, i);
                if t.parent(i) != j {
                    lemma_improve_old(t, open, q, u, k, j, t.parent(i));
                    assert(closed_above(t, open, q, i));
                }
            }
        }
    }
    lemma_improve_blocked(t, open, q, u, k, j, since);
    lemma_improve_guarded(t, open, q, u, k, j, since);
    assert(clean(t3, u)) by {
        reveal(clean);
        assert forall|x: int| 0 <= x < t3.len() implies #[trigger] clean_at(t3, u, x) by {
            if 1 <= x && anc(t3, x, u) {
                lemma_anc_improved(t, q, j, u, cost, x, u);
                lemma_anc_parent(t, q, x, u);
                assert(clean_at(t, u, x));
                lemma_improve_old(t, open, q, u, k, j, x);
            }
        }
    }
    assert(topped(t3, open3, q, u, since)) by {
        reveal(topped);
        assert forall|i: int| 0 <= i < t3.len() implies #[trigger] top_ok(t3, open3, q, u, since, i) by {
            if i != j {
                lemma_improve_old(t, open, q, u, k, j, i);
                assert(top_ok(t, open, q, u, since, i));
            }
        }
    }
    assert(fresh_under(t3, u, since)) by {
        reveal(fresh_under);
        assert forall|i: int| 0 <= i < t3.len() implies #[trigger] under(t3, u, since, i) by {
            if i != j {
                lemma_improve_old(t, open, q, u, k, j, i);
                assert(under(t, u, since, i));
            }
        }
    }
}

} // verus!
