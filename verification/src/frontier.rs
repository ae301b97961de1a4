//! The table of a search and the entries of its open list, as values to
//! reason about: what holds of them at every moment of a search, and why
//! each step of the search keeps it.

use crate::data::Connection;
use crate::open::SmallestCostHolder;
use crate::path::Query;
use vstd::multiset::Multiset;
use vstd::prelude::*;

verus! {

/// The table of a search at one moment: the reached identifiers in
/// insertion order, each with the place of its parent and its cost, the edge
/// stored at each place, the moment at which each place last changed, and
/// the next moment.
pub struct Tree {
    pub slots: Seq<(u32, (usize, i64))>,
    pub nodes: Seq<Connection>,
    pub stamps: Seq<nat>,
    pub tick: nat,
}

impl Tree {
    /// The number of places.
    pub open spec fn len(self) -> int {
        self.nodes.len() as int
    }

    /// The place of the parent of place `i`.
    pub open spec fn parent(self, i: int) -> int {
        self.slots[i].1.0 as int
    }

    /// The cost at place `i`.
    pub open spec fn g(self, i: int) -> int {
        self.slots[i].1.1 as int
    }

    /// The estimate that the open list adds to the cost at place `i`: none
    /// for the start, which enters the list with an estimate of 0.
    pub open spec fn est_at(self, q: Query, i: int) -> int {
        if i == 0 {
            0
        } else {
            q.est(self.nodes[i])
        }
    }

    /// The entry that the open list holds for place `i` at its present cost.
    pub open spec fn fresh(self, q: Query, i: int) -> SmallestCostHolder {
        SmallestCostHolder {
            estimated_cost: (self.g(i) + self.est_at(q, i)) as i64,
            cost: self.g(i) as i64,
            index: i as usize,
        }
    }

    /// Whether some place holds the identifier `id`.
    pub open spec fn knows(self, id: u32) -> bool {
        exists|j: int| 0 <= j < self.slots.len() && (#[trigger] self.slots[j]).0 == id
    }

    /// A place that holds the identifier `id`, where one does.
    pub open spec fn place(self, id: u32) -> int {
        choose|j: int| 0 <= j < self.slots.len() && (#[trigger] self.slots[j]).0 == id
    }

    /// Whether the table holds the identifier of `s` at a cost that going
    /// over `s` from place `i` would not improve.
    pub open spec fn reached(self, q: Query, i: int, s: Connection) -> bool {
        self.knows(s.id) && self.g(self.place(s.id)) <= self.g(i) + q.cost(s)
    }

    /// Whether the first `k` edges out of place `i` are reached.
    #[verifier::opaque]
    pub open spec fn relaxed_upto(self, q: Query, i: int, k: int) -> bool {
        forall|m: int|
            0 <= m < k && m < q.edges(self.nodes[i].target).len() ==> self.reached(
                q,
                i,
                #[trigger] q.edges(self.nodes[i].target)[m],
            )
    }

    /// How far place `i` must be relaxed while place `u` is expanded up to
    /// its `k`-th edge: all the way, but for `u` itself.
    pub open spec fn due(self, q: Query, u: int, k: int, i: int) -> int {
        if i == u {
            k
        } else {
            q.edges(self.nodes[i].target).len() as int
        }
    }

    /// Whether the parent of place `i` is a place of smaller rank: of
    /// smaller cost, or of equal cost and changed earlier.
    pub open spec fn link_ok(self, i: int) -> bool {
        &&& 0 <= self.parent(i) < self.len()
        &&& 0 <= self.g(self.parent(i)) <= self.g(i)
        &&& self.g(self.parent(i)) == self.g(i) ==> self.stamps[self.parent(i)] < self.stamps[i]
    }

    /// No identifier stands at two places.
    #[verifier::opaque]
    pub open spec fn distinct(self) -> bool {
        forall|i: int, j: int|
            0 <= i < self.slots.len() && 0 <= j < self.slots.len() && i != j ==> (#[trigger] self.slots[i]).0
                != (#[trigger] self.slots[j]).0
    }

    /// The table, the stored edges and the moments fit together.
    #[verifier::opaque]
    pub open spec fn shape(self, q: Query) -> bool {
        &&& self.slots.len() == self.nodes.len()
        &&& self.stamps.len() == self.nodes.len()
        &&& 1 <= self.nodes.len() <= 0x1_0000_0000
        &&& self.nodes[0] == q.start
        &&& self.slots[0].1 == (usize::MAX, 0i64)
        &&& self.distinct()
        &&& forall|i: int| 0 <= i < self.len() ==> (#[trigger] self.slots[i]).0 == self.nodes[i].id
        &&& forall|i: int| 0 <= i < self.len() ==> (#[trigger] self.stamps[i]) < self.tick
        &&& forall|i: int| 0 <= i < self.len() ==> 0 <= #[trigger] self.g(i) <= 0xffff * (self.len() - 1)
        &&& forall|i: int| 1 <= i < self.len() ==> #[trigger] self.link_ok(i)
        &&& forall|i: int| 1 <= i < self.len() ==> q.offers(#[trigger] self.nodes[i])
    }

    /// Whether the edge at place `i` leaves the target of its parent, and its
    /// cost covers that of its parent and its own.
    pub open spec fn step_ok(self, q: Query, i: int) -> bool {
        &&& q.edges(self.nodes[self.parent(i)].target).contains(self.nodes[i])
        &&& self.g(self.parent(i)) + q.cost(self.nodes[i]) <= self.g(i)
    }

    /// Every stored edge but the start leaves the target of its parent, and
    /// its cost covers that of its parent and its own.
    #[verifier::opaque]
    pub open spec fn sound(self, q: Query) -> bool {
        forall|i: int| 1 <= i < self.len() ==> #[trigger] self.step_ok(q, i)
    }

    /// The table after a new identifier has been added for the edge `s`,
    /// reached from place `u` at cost `cost`.
    pub open spec fn grown(self, s: Connection, u: int, cost: int) -> Tree {
        Tree {
            slots: self.slots.push((s.id, (u as usize, cost as i64))),
            nodes: self.nodes.push(s),
            stamps: self.stamps.push(self.tick),
            tick: self.tick + 1,
        }
    }

    /// The table after place `j` has been given the parent `u` and the cost
    /// `cost`.
    pub open spec fn improved(self, j: int, u: int, cost: int) -> Tree {
        Tree {
            slots: self.slots.update(j, (self.slots[j].0, (u as usize, cost as i64))),
            nodes: self.nodes,
            stamps: self.stamps.update(j, self.tick),
            tick: self.tick + 1,
        }
    }
}

/// Whether place `i` waits in the open list at its present cost.
pub open spec fn pending(t: Tree, open: Multiset<SmallestCostHolder>, q: Query, i: int) -> bool {
    open.count(t.fresh(q, i)) > 0
}

/// Every entry of the open list names a place, at a cost that is no smaller
/// than the present one, with the estimate of that place added.
#[verifier::opaque]
pub open spec fn open_ok(t: Tree, open: Multiset<SmallestCostHolder>, q: Query) -> bool {
    forall|e: SmallestCostHolder|
        #![trigger open.count(e)]
        open.count(e) > 0 ==> {
            &&& e.index < t.len()
            &&& t.g(e.index as int) <= e.cost
            &&& e.estimated_cost == e.cost + t.est_at(q, e.index as int)
        }
}

/// Every place waits in the open list or is relaxed as far as is due.
#[verifier::opaque]
pub open spec fn settled(t: Tree, open: Multiset<SmallestCostHolder>, q: Query, u: int, k: int) -> bool {
    forall|i: int|
        0 <= i < t.len() ==> #[trigger] pending(t, open, q, i) || t.relaxed_upto(q, i, t.due(q, u, k, i))
}

/// Every place whose edge arrives at the end system waits in the open list.
#[verifier::opaque]
pub open spec fn goals_wait(t: Tree, open: Multiset<SmallestCostHolder>, q: Query) -> bool {
    forall|i: int| 0 <= i < t.len() && q.is_goal(t.nodes[i]) ==> #[trigger] pending(t, open, q, i)
}

/// All that holds of a search while place `u` is expanded up to its `k`-th
/// edge; with `u` below 0, between expansions.
pub open spec fn inv(t: Tree, open: Multiset<SmallestCostHolder>, q: Query, u: int, k: int) -> bool {
    &&& t.shape(q)
    &&& open_ok(t, open, q)
    &&& settled(t, open, q, u, k)
    &&& goals_wait(t, open, q)
    &&& q.ids_name_edges() ==> t.sound(q)
}

/// A place that holds an identifier is the place of that identifier.
pub proof fn lemma_place(t: Tree, j: int)
    requires
        t.distinct(),
        0 <= j < t.slots.len(),
    ensures
        t.knows(t.slots[j].0),
        t.place(t.slots[j].0) == j,
{
    reveal(Tree::distinct);
    let id = t.slots[j].0;
    assert(t.knows(id));
    let p = t.place(id);
    assert(t.slots[p].0 == id);
}

/// What `shape` says of the table as a whole.
pub proof fn lemma_basics(t: Tree, q: Query)
    requires
        t.shape(q),
    ensures
        t.slots.len() == t.nodes.len(),
        t.stamps.len() == t.nodes.len(),
        1 <= t.len() <= 0x1_0000_0000,
        t.nodes[0] == q.start,
        t.slots[0] == (q.start.id, (usize::MAX, 0i64)),
        t.g(0) == 0,
        t.distinct(),
{
    reveal(Tree::shape);
}

/// What `shape` says of one place.
pub proof fn lemma_at(t: Tree, q: Query, i: int)
    requires
        t.shape(q),
        0 <= i < t.len(),
    ensures
        t.slots[i].0 == t.nodes[i].id,
        t.stamps[i] < t.tick,
        0 <= t.g(i) <= 0xffff * (t.len() - 1),
        t.fresh(q, i).index == i,
        t.fresh(q, i).cost == t.g(i),
        t.fresh(q, i).estimated_cost == t.g(i) + t.est_at(q, i),
        0 <= t.est_at(q, i) <= 0xffff_ffff,
        i >= 1 ==> t.link_ok(i) && q.offers(t.nodes[i]),
{
    reveal(Tree::shape);
}

/// A table of distinct 32-bit identifiers has at most 2^32 places.
pub proof fn lemma_table_bound(t: Tree)
    requires
        t.distinct(),
    ensures
        t.slots.len() <= 0x1_0000_0000,
{
    reveal(Tree::distinct);
    let ids = Seq::new(t.slots.len(), |i: int| t.slots[i].0 as int);
    assert(ids.no_duplicates()) by {
        assert forall|i: int, j: int| 0 <= i < ids.len() && 0 <= j < ids.len() && i != j implies ids[i]
            != ids[j] by {
            assert(t.slots[i].0 != t.slots[j].0);
        }
    }
    ids.unique_seq_to_set();
    let all = vstd::set_lib::set_int_range(0, 0x1_0000_0000);
    vstd::set_lib::lemma_int_range(0, 0x1_0000_0000);
    assert forall|x: int| ids.to_set().contains(x) implies all.contains(x) by {
        let i = choose|i: int| 0 <= i < ids.len() && ids[i] == x;
        assert(ids[i] == t.slots[i].0 as int);
    }
    vstd::set_lib::lemma_len_subset(ids.to_set(), all);
}

/// The table with which a search begins: the start edge at place 0, at cost
/// 0 and without a parent.
pub open spec fn seed(q: Query) -> Tree {
    Tree { slots: seq![(q.start.id, (usize::MAX, 0i64))], nodes: seq![q.start], stamps: seq![0nat], tick: 1 }
}

/// The entry with which the open list begins.
pub open spec fn first_entry() -> SmallestCostHolder {
    SmallestCostHolder { estimated_cost: 0, cost: 0, index: 0 }
}

/// At its beginning a search is between expansions.
pub proof fn lemma_seed(q: Query)
    ensures
        inv(seed(q), Multiset::empty().insert(first_entry()), q, -1, 0),
{
    let t = seed(q);
    let open = Multiset::empty().insert(first_entry());
    reveal(Tree::shape);
    reveal(Tree::distinct);
    reveal(Tree::sound);
    reveal(open_ok);
    reveal(settled);
    reveal(goals_wait);
    assert(t.fresh(q, 0) == first_entry());
    assert(pending(t, open, q, 0));
    assert forall|e: SmallestCostHolder| #![trigger open.count(e)] open.count(e) > 0 implies e
        == first_entry() by {}
}

/// Taking an entry out of the open list leaves a list that is in order.
pub proof fn lemma_pop_open_ok(
    t: Tree,
    open: Multiset<SmallestCostHolder>,
    rest: Multiset<SmallestCostHolder>,
    q: Query,
    e: SmallestCostHolder,
)
    requires
        open_ok(t, open, q),
        open == rest.insert(e),
    ensures
        open_ok(t, rest, q),
        e.index < t.len(),
        t.g(e.index as int) <= e.cost,
        e.estimated_cost == e.cost + t.est_at(q, e.index as int),
{
    reveal(open_ok);
    assert(open.count(e) > 0);
    assert forall|x: SmallestCostHolder| #![trigger rest.count(x)] rest.count(x) > 0 implies open.count(x)
        > 0 by {}
}

/// A place that waits in the open list still does after another entry has
/// been taken out.
pub proof fn lemma_pop_keeps_pending(
    t: Tree,
    open: Multiset<SmallestCostHolder>,
    rest: Multiset<SmallestCostHolder>,
    q: Query,
    e: SmallestCostHolder,
    i: int,
)
    requires
        t.shape(q),
        open == rest.insert(e),
        0 <= i < t.len(),
        pending(t, open, q, i),
        e.index != i || e.cost != t.g(i),
    ensures
        pending(t, rest, q, i),
{
    lemma_at(t, q, i);
}

/// After an entry has been taken out whose cost is above the present cost of
/// its place, the search is between expansions as before.
pub proof fn lemma_pop_stale(
    t: Tree,
    open: Multiset<SmallestCostHolder>,
    rest: Multiset<SmallestCostHolder>,
    q: Query,
    e: SmallestCostHolder,
)
    requires
        inv(t, open, q, -1, 0),
        open == rest.insert(e),
        e.cost > t.g(e.index as int),
    ensures
        inv(t, rest, q, -1, 0),
{
    lemma_pop_open_ok(t, open, rest, q, e);
    assert(settled(t, rest, q, -1, 0)) by {
        reveal(settled);
        assert forall|i: int| 0 <= i < t.len() implies #[trigger] pending(t, rest, q, i) || t.relaxed_upto(
            q,
            i,
            t.due(q, -1, 0, i),
        ) by {
            if pending(t, open, q, i) {
                lemma_pop_keeps_pending(t, open, rest, q, e, i);
            }
        }
    }
    assert(goals_wait(t, rest, q)) by {
        reveal(goals_wait);
        assert forall|i: int| 0 <= i < t.len() && q.is_goal(t.nodes[i]) implies #[trigger] pending(
            t,
            rest,
            q,
            i,
        ) by {
            assert(pending(t, open, q, i));
            lemma_pop_keeps_pending(t, open, rest, q, e, i);
        }
    }
}

/// After the entry of a place at its present cost has been taken out, and
/// the edge of the place does not arrive at the end system, the search is
/// ready to expand the place.
pub proof fn lemma_pop_fresh(
    t: Tree,
    open: Multiset<SmallestCostHolder>,
    rest: Multiset<SmallestCostHolder>,
    q: Query,
    e: SmallestCostHolder,
)
    requires
        inv(t, open, q, -1, 0),
        open == rest.insert(e),
        e.index < t.len(),
        !q.is_goal(t.nodes[e.index as int]),
    ensures
        inv(t, rest, q, e.index as int, 0),
{
    let u = e.index as int;
    lemma_pop_open_ok(t, open, rest, q, e);
    assert(settled(t, rest, q, u, 0)) by {
        reveal(settled);
        assert forall|i: int| 0 <= i < t.len() implies #[trigger] pending(t, rest, q, i) || t.relaxed_upto(
            q,
            i,
            t.due(q, u, 0, i),
        ) by {
            if i == u {
                reveal(Tree::relaxed_upto);
            } else {
                assert(pending(t, open, q, i) || t.relaxed_upto(q, i, t.due(q, -1, 0, i)));
                if pending(t, open, q, i) {
                    lemma_pop_keeps_pending(t, open, rest, q, e, i);
                }
            }
        }
    }
    assert(goals_wait(t, rest, q)) by {
        reveal(goals_wait);
        assert forall|i: int| 0 <= i < t.len() && q.is_goal(t.nodes[i]) implies #[trigger] pending(
            t,
            rest,
            q,
            i,
        ) by {
            assert(pending(t, open, q, i));
            lemma_pop_keeps_pending(t, open, rest, q, e, i);
        }
    }
}

/// When every edge out of the place under expansion has been seen, the
/// search is between expansions.
pub proof fn lemma_expanded(t: Tree, open: Multiset<SmallestCostHolder>, q: Query, u: int, k: int)
    requires
        inv(t, open, q, u, k),
        0 <= u < t.len(),
        k >= q.edges(t.nodes[u].target).len(),
    ensures
        inv(t, open, q, -1, 0),
{
    reveal(settled);
    assert forall|i: int| 0 <= i < t.len() implies #[trigger] pending(t, open, q, i) || t.relaxed_upto(
        q,
        i,
        t.due(q, -1, 0, i),
    ) by {
        assert(pending(t, open, q, i) || t.relaxed_upto(q, i, t.due(q, u, k, i)));
        if i == u && t.relaxed_upto(q, i, k) {
            reveal(Tree::relaxed_upto);
        }
    }
}

/// An edge out of the place under expansion whose identifier the table
/// holds at a cost that is no larger than the one on offer needs no change.
pub proof fn lemma_skip(t: Tree, open: Multiset<SmallestCostHolder>, q: Query, u: int, k: int, j: int)
    requires
        inv(t, open, q, u, k),
        0 <= u < t.len(),
        0 <= k < q.edges(t.nodes[u].target).len(),
        0 <= j < t.len(),
        t.slots[j].0 == q.edges(t.nodes[u].target)[k].id,
        t.g(j) <= t.g(u) + q.cost(q.edges(t.nodes[u].target)[k]),
    ensures
        inv(t, open, q, u, k + 1),
{
    reveal(settled);
    lemma_basics(t, q);
    lemma_place(t, j);
    assert forall|i: int| 0 <= i < t.len() implies #[trigger] pending(t, open, q, i) || t.relaxed_upto(
        q,
        i,
        t.due(q, u, k + 1, i),
    ) by {
        assert(pending(t, open, q, i) || t.relaxed_upto(q, i, t.due(q, u, k, i)));
        if i == u && t.relaxed_upto(q, i, k) {
            reveal(Tree::relaxed_upto);
        }
    }
}

/// Adding a place leaves the places before it as they were.
pub proof fn lemma_grown_frame(t: Tree, q: Query, s: Connection, u: int, cost: int, i: int)
    requires
        t.slots.len() == t.nodes.len(),
        0 <= i < t.len(),
    ensures
        ({
            let t2 = t.grown(s, u, cost);
            &&& t2.len() == t.len() + 1
            &&& t2.slots[i] == t.slots[i]
            &&& t2.nodes[i] == t.nodes[i]
            &&& t2.g(i) == t.g(i)
            &&& t2.parent(i) == t.parent(i)
            &&& t2.est_at(q, i) == t.est_at(q, i)
            &&& t2.fresh(q, i) == t.fresh(q, i)
        }),
{
}

/// Adding a place for an identifier that the table did not hold keeps the
/// identifiers apart.
pub proof fn lemma_grown_distinct(t: Tree, s: Connection, u: int, cost: int)
    requires
        t.distinct(),
        !t.knows(s.id),
    ensures
        t.grown(s, u, cost).distinct(),
{
    reveal(Tree::distinct);
    let t2 = t.grown(s, u, cost);
    assert forall|a: int, b: int|
        0 <= a < t2.slots.len() && 0 <= b < t2.slots.len() && a != b implies (#[trigger] t2.slots[a]).0 != (
    #[trigger] t2.slots[b]).0 by {
        if a < t.slots.len() && b < t.slots.len() {
            assert(t.slots[a].0 != t.slots[b].0);
        } else if a < t.slots.len() {
            assert(t.slots[a].0 != s.id);
        } else {
            assert(t.slots[b].0 != s.id);
        }
    }
}

/// An identifier that the table held keeps its place when a place is added.
pub proof fn lemma_grown_place(t: Tree, s: Connection, u: int, cost: int, id: u32)
    requires
        t.distinct(),
        !t.knows(s.id),
        t.knows(id),
    ensures
        0 <= t.place(id) < t.slots.len(),
        t.grown(s, u, cost).knows(id),
        t.grown(s, u, cost).place(id) == t.place(id),
{
    let t2 = t.grown(s, u, cost);
    let j = t.place(id);
    assert(t2.slots[j] == t.slots[j]);
    lemma_grown_distinct(t, s, u, cost);
    lemma_place(t2, j);
}

/// What was relaxed stays relaxed when a place is added.
pub proof fn lemma_grown_relaxed(t: Tree, q: Query, s: Connection, u: int, cost: int, i: int, k: int)
    requires
        t.shape(q),
        !t.knows(s.id),
        0 <= i < t.len(),
        t.relaxed_upto(q, i, k),
    ensures
        t.grown(s, u, cost).relaxed_upto(q, i, k),
{
    reveal(Tree::relaxed_upto);
    lemma_basics(t, q);
    let t2 = t.grown(s, u, cost);
    lemma_grown_frame(t, q, s, u, cost, i);
    assert forall|m: int| 0 <= m < k && m < q.edges(t2.nodes[i].target).len() implies t2.reached(
        q,
        i,
        #[trigger] q.edges(t2.nodes[i].target)[m],
    ) by {
        let x = q.edges(t.nodes[i].target)[m];
        assert(t.reached(q, i, x));
        lemma_grown_place(t, s, u, cost, x.id);
        lemma_grown_frame(t, q, s, u, cost, t.place(x.id));
    }
}

/// Adding a place for an edge out of place `u` keeps the table in shape.
pub proof fn lemma_grown_shape(t: Tree, q: Query, u: int, k: int)
    requires
        t.shape(q),
        0 <= u < t.len(),
        0 <= k < q.edges(t.nodes[u].target).len(),
        !t.knows(q.edges(t.nodes[u].target)[k].id),
    ensures
        ({
            let s = q.edges(t.nodes[u].target)[k];
            t.grown(s, u, t.g(u) + q.cost(s)).shape(q)
        }),
{
    let s = q.edges(t.nodes[u].target)[k];
    let cost = t.g(u) + q.cost(s);
    let t2 = t.grown(s, u, cost);
    let n = t.len();
    lemma_basics(t, q);
    lemma_at(t, q, u);
    lemma_grown_distinct(t, s, u, cost);
    lemma_table_bound(t2);
    assert(q.offers(s));
    lemma_grown_frame(t, q, s, u, cost, u);
    lemma_grown_frame(t, q, s, u, cost, 0);
    assert(t2.link_ok(n));
    assert(t2.g(n) == cost);
    assert forall|i: int| 0 <= i < t2.len() implies (#[trigger] t2.slots[i]).0 == t2.nodes[i].id by {
        if i < n {
            lemma_at(t, q, i);
        }
    }
    assert forall|i: int| 0 <= i < t2.len() implies (#[trigger] t2.stamps[i]) < t2.tick by {
        if i < n {
            lemma_at(t, q, i);
        }
    }
    assert forall|i: int| 0 <= i < t2.len() implies 0 <= #[trigger] t2.g(i) <= 0xffff * (t2.len() - 1) by {
        if i < n {
            lemma_at(t, q, i);
            lemma_grown_frame(t, q, s, u, cost, i);
        }
    }
    assert forall|i: int| 1 <= i < t2.len() implies #[trigger] t2.link_ok(i) by {
        if i < n {
            lemma_at(t, q, i);
            lemma_grown_frame(t, q, s, u, cost, i);
            lemma_grown_frame(t, q, s, u, cost, t.parent(i));
        }
    }
    assert forall|i: int| 1 <= i < t2.len() implies q.offers(#[trigger] t2.nodes[i]) by {
        if i < n {
            lemma_at(t, q, i);
        }
    }
    reveal(Tree::shape);
}

/// The entry for a place that has been added keeps the open list in order.
pub proof fn lemma_grow_open_ok(
    t: Tree,
    open: Multiset<SmallestCostHolder>,
    q: Query,
    s: Connection,
    u: int,
    cost: int,
)
    requires
        t.shape(q),
        t.grown(s, u, cost).shape(q),
        open_ok(t, open, q),
    ensures
        open_ok(t.grown(s, u, cost), open.insert(t.grown(s, u, cost).fresh(q, t.len())), q),
{
    let t2 = t.grown(s, u, cost);
    let n = t.len();
    let entry = t2.fresh(q, n);
    let open2 = open.insert(entry);
    lemma_basics(t, q);
    lemma_basics(t2, q);
    lemma_at(t2, q, n);
    reveal(open_ok);
    assert forall|e: SmallestCostHolder| #![trigger open2.count(e)] open2.count(e) > 0 implies e.index
        < t2.len() && t2.g(e.index as int) <= e.cost && e.estimated_cost == e.cost + t2.est_at(
        q,
        e.index as int,
    ) by {
        if e != entry {
            assert(open.count(e) > 0);
            lemma_grown_frame(t, q, s, u, cost, e.index as int);
        }
    }
}

/// A place that waits in the open list still does after a place and its
/// entry have been added.
pub proof fn lemma_grow_keeps_pending(
    t: Tree,
    open: Multiset<SmallestCostHolder>,
    q: Query,
    s: Connection,
    u: int,
    cost: int,
    i: int,
)
    requires
        t.slots.len() == t.nodes.len(),
        0 <= i < t.len(),
        pending(t, open, q, i),
    ensures
        pending(t.grown(s, u, cost), open.insert(t.grown(s, u, cost).fresh(q, t.len())), q, i),
{
    lemma_grown_frame(t, q, s, u, cost, i);
}

/// After a place has been added for the `k`-th edge out of place `u`, every
/// place waits or is relaxed as far as is due, one edge further for `u`.
pub proof fn lemma_grow_settled(t: Tree, open: Multiset<SmallestCostHolder>, q: Query, u: int, k: int)
    requires
        t.shape(q),
        settled(t, open, q, u, k),
        0 <= u < t.len(),
        0 <= k < q.edges(t.nodes[u].target).len(),
        !t.knows(q.edges(t.nodes[u].target)[k].id),
    ensures
        ({
            let s = q.edges(t.nodes[u].target)[k];
            let t2 = t.grown(s, u, t.g(u) + q.cost(s));
            settled(t2, open.insert(t2.fresh(q, t.len())), q, u, k + 1)
        }),
{
    let s = q.edges(t.nodes[u].target)[k];
    let cost = t.g(u) + q.cost(s);
    let t2 = t.grown(s, u, cost);
    let n = t.len();
    let open2 = open.insert(t2.fresh(q, n));
    lemma_basics(t, q);
    lemma_grown_shape(t, q, u, k);
    lemma_basics(t2, q);
    reveal(settled);
    assert forall|i: int| 0 <= i < t2.len() implies #[trigger] pending(t2, open2, q, i) || t2.relaxed_upto(
        q,
        i,
        t2.due(q, u, k + 1, i),
    ) by {
        if i < n {
            lemma_grown_frame(t, q, s, u, cost, i);
            assert(pending(t, open, q, i) || t.relaxed_upto(q, i, t.due(q, u, k, i)));
            if pending(t, open, q, i) {
                lemma_grow_keeps_pending(t, open, q, s, u, cost, i);
            } else if i == u {
                lemma_grown_relaxed(t, q, s, u, cost, u, k);
                lemma_place(t2, n);
                assert(t2.reached(q, u, s));
                assert(t2.relaxed_upto(q, u, k + 1)) by {
                    reveal(Tree::relaxed_upto);
                }
            } else {
                lemma_grown_relaxed(t, q, s, u, cost, i, t.due(q, u, k, i));
            }
        }
    }
}

/// After a place and its entry have been added, every place whose edge
/// arrives at the end system waits in the open list.
pub proof fn lemma_grow_goals(
    t: Tree,
    open: Multiset<SmallestCostHolder>,
    q: Query,
    s: Connection,
    u: int,
    cost: int,
)
    requires
        t.slots.len() == t.nodes.len(),
        goals_wait(t, open, q),
    ensures
        goals_wait(t.grown(s, u, cost), open.insert(t.grown(s, u, cost).fresh(q, t.len())), q),
{
    let t2 = t.grown(s, u, cost);
    let open2 = open.insert(t2.fresh(q, t.len()));
    reveal(goals_wait);
    assert forall|i: int| 0 <= i < t2.len() && q.is_goal(t2.nodes[i]) implies #[trigger] pending(
        t2,
        open2,
        q,
        i,
    ) by {
        if i < t.len() {
            lemma_grown_frame(t, q, s, u, cost, i);
            assert(pending(t, open, q, i));
        }
    }
}

/// A place added for an edge out of place `u`, at the cost of `u` and the
/// edge, keeps the table sound.
pub proof fn lemma_grow_sound(t: Tree, q: Query, u: int, k: int)
    requires
        t.shape(q),
        t.sound(q),
        0 <= u < t.len(),
        0 <= k < q.edges(t.nodes[u].target).len(),
    ensures
        ({
            let s = q.edges(t.nodes[u].target)[k];
            t.grown(s, u, t.g(u) + q.cost(s)).sound(q)
        }),
{
    let s = q.edges(t.nodes[u].target)[k];
    let cost = t.g(u) + q.cost(s);
    let t2 = t.grown(s, u, cost);
    let n = t.len();
    lemma_basics(t, q);
    lemma_at(t, q, u);
    reveal(Tree::sound);
    assert forall|i: int| 1 <= i < t2.len() implies #[trigger] t2.step_ok(q, i) by {
        if i < n {
            lemma_at(t, q, i);
            lemma_grown_frame(t, q, s, u, cost, i);
            lemma_grown_frame(t, q, s, u, cost, t.parent(i));
            assert(t.step_ok(q, i));
        } else {
            lemma_grown_frame(t, q, s, u, cost, u);
        }
    }
}

/// Adding a place for the `k`-th edge out of the place under expansion,
/// whose identifier the table did not hold, and an entry for it to the open
/// list.
pub proof fn lemma_grow(t: Tree, open: Multiset<SmallestCostHolder>, q: Query, u: int, k: int)
    requires
        inv(t, open, q, u, k),
        0 <= u < t.len(),
        0 <= k < q.edges(t.nodes[u].target).len(),
        !t.knows(q.edges(t.nodes[u].target)[k].id),
    ensures
        ({
            let s = q.edges(t.nodes[u].target)[k];
            let t2 = t.grown(s, u, t.g(u) + q.cost(s));
            inv(t2, open.insert(t2.fresh(q, t.len())), q, u, k + 1)
        }),
{
    let s = q.edges(t.nodes[u].target)[k];
    let cost = t.g(u) + q.cost(s);
    lemma_basics(t, q);
    lemma_grown_shape(t, q, u, k);
    lemma_grow_open_ok(t, open, q, s, u, cost);
    lemma_grow_settled(t, open, q, u, k);
    lemma_grow_goals(t, open, q, s, u, cost);
    if q.ids_name_edges() {
        lemma_grow_sound(t, q, u, k);
    }
}

/// Giving place `j` a new parent and cost leaves the other places as they
/// were, and every identifier and stored edge.
pub proof fn lemma_improved_frame(t: Tree, q: Query, j: int, u: int, cost: int, i: int)
    requires
        t.slots.len() == t.nodes.len(),
        t.stamps.len() == t.nodes.len(),
        0 <= i < t.len(),
        0 <= j < t.len(),
    ensures
        ({
            let t3 = t.improved(j, u, cost);
            &&& t3.len() == t.len()
            &&& t3.nodes == t.nodes
            &&& t3.slots.len() == t.slots.len()
            &&& t3.slots[i].0 == t.slots[i].0
            &&& t3.est_at(q, i) == t.est_at(q, i)
            &&& i != j ==> t3.slots[i] == t.slots[i] && t3.g(i) == t.g(i) && t3.parent(i) == t.parent(i)
                && t3.fresh(q, i) == t.fresh(q, i) && t3.stamps[i] == t.stamps[i]
            &&& i == j ==> t3.slots[j].1 == (u as usize, cost as i64) && t3.stamps[j] == t.tick
        }),
{
}

/// Giving a place a new parent and cost keeps the identifiers apart.
pub proof fn lemma_improved_distinct(t: Tree, j: int, u: int, cost: int)
    requires
        t.distinct(),
        0 <= j < t.slots.len(),
    ensures
        t.improved(j, u, cost).distinct(),
{
    reveal(Tree::distinct);
    let t3 = t.improved(j, u, cost);
    assert forall|a: int, b: int|
        0 <= a < t3.slots.len() && 0 <= b < t3.slots.len() && a != b implies (#[trigger] t3.slots[a]).0 != (
    #[trigger] t3.slots[b]).0 by {
        assert(t.slots[a].0 != t.slots[b].0);
    }
}

/// Every identifier keeps its place when a place is given a new parent and
/// cost.
pub proof fn lemma_improved_place(t: Tree, j: int, u: int, cost: int, id: u32)
    requires
        t.distinct(),
        0 <= j < t.slots.len(),
        t.knows(id),
    ensures
        0 <= t.place(id) < t.slots.len(),
        t.improved(j, u, cost).knows(id),
        t.improved(j, u, cost).place(id) == t.place(id),
{
    let t3 = t.improved(j, u, cost);
    let p = t.place(id);
    assert(t3.slots[p].0 == t.slots[p].0);
    lemma_improved_distinct(t, j, u, cost);
    lemma_place(t3, p);
}

/// What was relaxed at another place stays relaxed when the cost of place
/// `j` goes down.
pub proof fn lemma_improved_relaxed(t: Tree, q: Query, j: int, u: int, cost: int, i: int, k: int)
    requires
        t.shape(q),
        0 <= j < t.len(),
        0 <= cost <= t.g(j),
        0 <= i < t.len(),
        i != j,
        t.relaxed_upto(q, i, k),
    ensures
        t.improved(j, u, cost).relaxed_upto(q, i, k),
{
    reveal(Tree::relaxed_upto);
    lemma_basics(t, q);
    lemma_at(t, q, j);
    let t3 = t.improved(j, u, cost);
    lemma_improved_frame(t, q, j, u, cost, i);
    assert forall|m: int| 0 <= m < k && m < q.edges(t3.nodes[i].target).len() implies t3.reached(
        q,
        i,
        #[trigger] q.edges(t3.nodes[i].target)[m],
    ) by {
        let x = q.edges(t.nodes[i].target)[m];
        assert(t.reached(q, i, x));
        lemma_improved_place(t, j, u, cost, x.id);
        lemma_improved_frame(t, q, j, u, cost, t.place(x.id));
    }
}

/// Giving place `j` the parent `u` and a cost that is smaller than before
/// and covers that of `u` keeps the table in shape.
pub proof fn lemma_improved_shape(t: Tree, q: Query, u: int, j: int, cost: int)
    requires
        t.shape(q),
        0 <= u < t.len(),
        0 <= j < t.len(),
        t.g(u) <= cost < t.g(j),
    ensures
        t.improved(j, u, cost).shape(q),
        j != 0,
        j != u,
{
    let t3 = t.improved(j, u, cost);
    lemma_basics(t, q);
    lemma_at(t, q, u);
    lemma_at(t, q, j);
    lemma_improved_distinct(t, j, u, cost);
    lemma_improved_frame(t, q, j, u, cost, 0);
    lemma_improved_frame(t, q, j, u, cost, u);
    lemma_improved_frame(t, q, j, u, cost, j);
    assert forall|i: int| 0 <= i < t3.len() implies (#[trigger] t3.slots[i]).0 == t3.nodes[i].id by {
        lemma_at(t, q, i);
        lemma_improved_frame(t, q, j, u, cost, i);
    }
    assert forall|i: int| 0 <= i < t3.len() implies (#[trigger] t3.stamps[i]) < t3.tick by {
        lemma_at(t, q, i);
        lemma_improved_frame(t, q, j, u, cost, i);
    }
    assert forall|i: int| 0 <= i < t3.len() implies 0 <= #[trigger] t3.g(i) <= 0xffff * (t3.len() - 1) by {
        lemma_at(t, q, i);
        lemma_improved_frame(t, q, j, u, cost, i);
    }
    assert forall|i: int| 1 <= i < t3.len() implies #[trigger] t3.link_ok(i) by {
        lemma_at(t, q, i);
        lemma_improved_frame(t, q, j, u, cost, i);
        if i != j {
            lemma_improved_frame(t, q, j, u, cost, t.parent(i));
        }
    }
    assert forall|i: int| 1 <= i < t3.len() implies q.offers(#[trigger] t3.nodes[i]) by {
        lemma_at(t, q, i);
    }
    reveal(Tree::shape);
}

/// The entry for a place whose cost has gone down keeps the open list in
/// order.
pub proof fn lemma_improve_open_ok(
    t: Tree,
    open: Multiset<SmallestCostHolder>,
    q: Query,
    j: int,
    u: int,
    cost: int,
)
    requires
        t.shape(q),
        t.improved(j, u, cost).shape(q),
        open_ok(t, open, q),
        0 <= j < t.len(),
        0 <= cost <= t.g(j),
    ensures
        open_ok(t.improved(j, u, cost), open.insert(t.improved(j, u, cost).fresh(q, j)), q),
{
    let t3 = t.improved(j, u, cost);
    let entry = t3.fresh(q, j);
    let open3 = open.insert(entry);
    lemma_basics(t, q);
    lemma_at(t, q, j);
    lemma_improved_frame(t, q, j, u, cost, j);
    lemma_at(t3, q, j);
    reveal(open_ok);
    assert forall|e: SmallestCostHolder| #![trigger open3.count(e)] open3.count(e) > 0 implies e.index
        < t3.len() && t3.g(e.index as int) <= e.cost && e.estimated_cost == e.cost + t3.est_at(
        q,
        e.index as int,
    ) by {
        if e != entry {
            assert(open.count(e) > 0);
            lemma_improved_frame(t, q, j, u, cost, e.index as int);
        }
    }
}

/// After the cost of place `j` has gone down over the `k`-th edge out of
/// place `u`, every place waits or is relaxed as far as is due, one edge
/// further for `u`.
pub proof fn lemma_improve_settled(t: Tree, open: Multiset<SmallestCostHolder>, q: Query, u: int, k: int, j: int)
    requires
        t.shape(q),
        settled(t, open, q, u, k),
        0 <= u < t.len(),
        0 <= j < t.len(),
        0 <= k < q.edges(t.nodes[u].target).len(),
        t.slots[j].0 == q.edges(t.nodes[u].target)[k].id,
        t.g(u) + q.cost(q.edges(t.nodes[u].target)[k]) < t.g(j),
    ensures
        ({
            let t3 = t.improved(j, u, t.g(u) + q.cost(q.edges(t.nodes[u].target)[k]));
            settled(t3, open.insert(t3.fresh(q, j)), q, u, k + 1)
        }),
{
    let s = q.edges(t.nodes[u].target)[k];
    let cost = t.g(u) + q.cost(s);
    let t3 = t.improved(j, u, cost);
    let open3 = open.insert(t3.fresh(q, j));
    lemma_basics(t, q);
    lemma_at(t, q, u);
    lemma_improved_shape(t, q, u, j, cost);
    lemma_basics(t3, q);
    lemma_improved_frame(t, q, j, u, cost, j);
    lemma_improved_frame(t, q, j, u, cost, u);
    reveal(settled);
    assert forall|i: int| 0 <= i < t3.len() implies #[trigger] pending(t3, open3, q, i) || t3.relaxed_upto(
        q,
        i,
        t3.due(q, u, k + 1, i),
    ) by {
        if i != j {
            lemma_improved_frame(t, q, j, u, cost, i);
            assert(pending(t, open, q, i) || t.relaxed_upto(q, i, t.due(q, u, k, i)));
            if pending(t, open, q, i) {
            } else if i == u {
                lemma_improved_relaxed(t, q, j, u, cost, u, k);
                lemma_place(t3, j);
                assert(t3.reached(q, u, s));
                assert(t3.relaxed_upto(q, u, k + 1)) by {
                    reveal(Tree::relaxed_upto);
                }
            } else {
                lemma_improved_relaxed(t, q, j, u, cost, i, t.due(q, u, k, i));
            }
        }
    }
}

/// After the cost of a place has gone down and its entry has been added,
/// every place whose edge arrives at the end system waits in the open list.
pub proof fn lemma_improve_goals(
    t: Tree,
    open: Multiset<SmallestCostHolder>,
    q: Query,
    j: int,
    u: int,
    cost: int,
)
    requires
        t.slots.len() == t.nodes.len(),
        t.stamps.len() == t.nodes.len(),
        0 <= j < t.len(),
        goals_wait(t, open, q),
    ensures
        goals_wait(t.improved(j, u, cost), open.insert(t.improved(j, u, cost).fresh(q, j)), q),
{
    let t3 = t.improved(j, u, cost);
    let open3 = open.insert(t3.fresh(q, j));
    reveal(goals_wait);
    assert forall|i: int| 0 <= i < t3.len() && q.is_goal(t3.nodes[i]) implies #[trigger] pending(
        t3,
        open3,
        q,
        i,
    ) by {
        lemma_improved_frame(t, q, j, u, cost, i);
        if i != j {
            assert(pending(t, open, q, i));
        }
    }
}

/// Where identifiers name edges, giving place `j` the parent `u` over an
/// edge out of `u` that carries the identifier of `j` keeps the table sound.
pub proof fn lemma_improve_sound(t: Tree, q: Query, u: int, k: int, j: int)
    requires
        t.shape(q),
        t.sound(q),
        q.ids_name_edges(),
        0 <= u < t.len(),
        0 <= j < t.len(),
        0 <= k < q.edges(t.nodes[u].target).len(),
        t.slots[j].0 == q.edges(t.nodes[u].target)[k].id,
        t.g(u) + q.cost(q.edges(t.nodes[u].target)[k]) < t.g(j),
    ensures
        t.improved(j, u, t.g(u) + q.cost(q.edges(t.nodes[u].target)[k])).sound(q),
{
    let s = q.edges(t.nodes[u].target)[k];
    let cost = t.g(u) + q.cost(s);
    let t3 = t.improved(j, u, cost);
    lemma_basics(t, q);
    lemma_at(t, q, u);
    lemma_at(t, q, j);
    lemma_improved_shape(t, q, u, j, cost);
    lemma_improved_frame(t, q, j, u, cost, j);
    lemma_improved_frame(t, q, j, u, cost, u);
    assert(q.offers(s));
    assert(q.offers(t.nodes[j]));
    assert(t.nodes[j] == s);
    reveal(Tree::sound);
    assert forall|i: int| 1 <= i < t3.len() implies #[trigger] t3.step_ok(q, i) by {
        lemma_improved_frame(t, q, j, u, cost, i);
        if i != j {
            lemma_at(t, q, i);
            lemma_improved_frame(t, q, j, u, cost, t.parent(i));
            assert(t.step_ok(q, i));
        }
    }
}

/// Giving the place that holds the identifier of the `k`-th edge out of the
/// place under expansion a smaller cost over that edge, and adding an entry
/// for it to the open list.
pub proof fn lemma_improve(t: Tree, open: Multiset<SmallestCostHolder>, q: Query, u: int, k: int, j: int)
    requires
        inv(t, open, q, u, k),
        0 <= u < t.len(),
        0 <= j < t.len(),
        0 <= k < q.edges(t.nodes[u].target).len(),
        t.slots[j].0 == q.edges(t.nodes[u].target)[k].id,
        t.g(u) + q.cost(q.edges(t.nodes[u].target)[k]) < t.g(j),
    ensures
        ({
            let t3 = t.improved(j, u, t.g(u) + q.cost(q.edges(t.nodes[u].target)[k]));
            inv(t3, open.insert(t3.fresh(q, j)), q, u, k + 1)
        }),
{
    let s = q.edges(t.nodes[u].target)[k];
    let cost = t.g(u) + q.cost(s);
    lemma_basics(t, q);
    lemma_at(t, q, u);
    lemma_improved_shape(t, q, u, j, cost);
    lemma_improve_open_ok(t, open, q, j, u, cost);
    lemma_improve_settled(t, open, q, u, k, j);
    lemma_improve_goals(t, open, q, j, u, cost);
    if q.ids_name_edges() {
        lemma_improve_sound(t, q, u, k, j);
    }
}

/// Sum of the costs in the table.
pub open spec fn total(slots: Seq<(u32, (usize, i64))>) -> int
    decreases slots.len(),
{
    if slots.len() == 0 {
        0
    } else {
        total(slots.drop_last()) + slots.last().1.1
    }
}

/// Adding a place adds its cost to the sum.
pub proof fn lemma_total_push(slots: Seq<(u32, (usize, i64))>, v: (u32, (usize, i64)))
    ensures
        total(slots.push(v)) == total(slots) + v.1.1,
{
    assert(slots.push(v).drop_last() =~= slots);
}

/// Changing a place changes the sum by as much as the cost of the place.
pub proof fn lemma_total_update(slots: Seq<(u32, (usize, i64))>, j: int, v: (u32, (usize, i64)))
    requires
        0 <= j < slots.len(),
    ensures
        total(slots.update(j, v)) == total(slots) - slots[j].1.1 + v.1.1,
    decreases slots.len(),
{
    if j == slots.len() - 1 {
        assert(slots.update(j, v).drop_last() =~= slots.drop_last());
    } else {
        lemma_total_update(slots.drop_last(), j, v);
        assert(slots.update(j, v).drop_last() =~= slots.drop_last().update(j, v));
    }
}

/// A sum of costs that are 0 or more is 0 or more.
pub proof fn lemma_total_nonneg(slots: Seq<(u32, (usize, i64))>)
    requires
        forall|i: int| 0 <= i < slots.len() ==> (#[trigger] slots[i]).1.1 >= 0,
    ensures
        total(slots) >= 0,
    decreases slots.len(),
{
    if slots.len() > 0 {
        assert forall|i: int| 0 <= i < slots.drop_last().len() implies (#[trigger] slots.drop_last()[i]).1.1
            >= 0 by {
            assert(slots.drop_last()[i] == slots[i]);
        }
        lemma_total_nonneg(slots.drop_last());
    }
}

/// The sum of the costs of a table in shape is 0 or more.
pub proof fn lemma_shape_total(t: Tree, q: Query)
    requires
        t.shape(q),
    ensures
        total(t.slots) >= 0,
{
    lemma_basics(t, q);
    assert forall|i: int| 0 <= i < t.slots.len() implies (#[trigger] t.slots[i]).1.1 >= 0 by {
        lemma_at(t, q, i);
    }
    lemma_total_nonneg(t.slots);
}

/// Whether the search at `t` with `n` entries in the open list has moved on
/// from `t0` with `n0` entries, or stands where it stood: the table has
/// grown, or has kept its length and lost cost, or neither and the open
/// list has as many entries as before.
pub open spec fn advanced(t0: Tree, n0: nat, t: Tree, n: nat) -> bool {
    ||| t.len() > t0.len()
    ||| (t.len() == t0.len() && total(t.slots) < total(t0.slots))
    ||| (t.len() == t0.len() && total(t.slots) == total(t0.slots) && n == n0)
}

/// The edges from the start to place `i`, along the parents.
pub open spec fn chain(t: Tree, i: int) -> Seq<Connection>
    decreases t.g(i), t.stamps[i],
{
    if 1 <= i < t.len() && t.link_ok(i) {
        chain(t, t.parent(i)).push(t.nodes[i])
    } else {
        seq![t.nodes[i]]
    }
}

/// The chain to a place begins with the start edge and ends with the edge of
/// the place; each of its other edges is on offer and does not carry the
/// identifier of the start edge; where the table is sound, it is a walk that
/// costs no more than the place.
pub proof fn lemma_chain(t: Tree, q: Query, i: int)
    requires
        t.shape(q),
        0 <= i < t.len(),
    ensures
        chain(t, i).len() >= 1,
        chain(t, i)[0] == q.start,
        chain(t, i).last() == t.nodes[i],
        forall|k: int|
            1 <= k < chain(t, i).len() ==> q.offers(#[trigger] chain(t, i)[k]) && chain(t, i)[k].id
                != q.start.id,
        t.sound(q) ==> q.is_walk(chain(t, i)) && q.walk_cost(chain(t, i)) <= t.g(i),
    decreases t.g(i), t.stamps[i],
{
    lemma_basics(t, q);
    lemma_at(t, q, i);
    let c = chain(t, i);
    if i >= 1 {
        let p = t.parent(i);
        let b = chain(t, p);
        lemma_chain(t, q, p);
        assert(c == b.push(t.nodes[i]));
        assert(t.nodes[i].id != q.start.id) by {
            lemma_place(t, i);
            lemma_place(t, 0);
        }
        assert forall|k: int| 1 <= k < c.len() implies q.offers(#[trigger] c[k]) && c[k].id
            != q.start.id by {
            if k < b.len() {
                assert(c[k] == b[k]);
            }
        }
        if t.sound(q) {
            assert(t.step_ok(q, i)) by {
                reveal(Tree::sound);
            }
            assert forall|k: int| 1 <= k < c.len() implies q.steps(c[k - 1], #[trigger] c[k]) by {
                if k < b.len() {
                    assert(c[k] == b[k]);
                    assert(c[k - 1] == b[k - 1]);
                } else {
                    assert(c[k - 1] == b.last());
                }
            }
            assert(c.drop_last() =~= b);
        }
    } else {
        assert(c =~= seq![q.start]);
    }
}

/// The cost of a walk is that of its part up to an edge and that of its
/// part from that edge on.
pub proof fn lemma_walk_split(q: Query, p: Seq<Connection>, m: int)
    requires
        0 <= m < p.len(),
    ensures
        q.walk_cost(p) == q.walk_cost(p.take(m + 1)) + q.walk_cost(p.skip(m)),
    decreases p.len(),
{
    if m == p.len() - 1 {
        assert(p.take(m + 1) =~= p);
        assert(p.skip(m).len() == 1);
    } else {
        let front = p.drop_last();
        lemma_walk_split(q, front, m);
        assert(front.take(m + 1) =~= p.take(m + 1));
        assert(p.skip(m).drop_last() =~= front.skip(m));
        assert(p.skip(m).last() == p.last());
    }
}

/// Along a route, up to its `k`-th edge: the position returned is at most
/// `k`; the table holds the edge there at a cost that is no larger than that
/// of the route up to it; and where the position is before `k`, the place of
/// that edge waits in the open list.
pub proof fn lemma_route_front(
    t: Tree,
    open: Multiset<SmallestCostHolder>,
    q: Query,
    p: Seq<Connection>,
    k: int,
) -> (m: int)
    requires
        inv(t, open, q, -1, 0),
        q.ids_name_edges(),
        q.is_route(p),
        0 <= k < p.len(),
    ensures
        0 <= m <= k,
        t.knows(p[m].id),
        0 <= t.place(p[m].id) < t.len(),
        t.nodes[t.place(p[m].id)] == p[m],
        t.g(t.place(p[m].id)) <= q.walk_cost(p.take(m + 1)),
        m < k ==> pending(t, open, q, t.place(p[m].id)),
    decreases k,
{
    lemma_basics(t, q);
    if k == 0 {
        lemma_place(t, 0);
        assert(p.take(1).len() == 1);
        return 0;
    }
    let before = lemma_route_front(t, open, q, p, k - 1);
    if before < k - 1 {
        return before;
    }
    let j = t.place(p[k - 1].id);
    if pending(t, open, q, j) {
        return k - 1;
    }
    let out = q.edges(t.nodes[j].target);
    assert(t.relaxed_upto(q, j, out.len() as int)) by {
        reveal(settled);
        assert(pending(t, open, q, j) || t.relaxed_upto(q, j, t.due(q, -1, 0, j)));
    }
    assert(q.steps(p[k - 1], p[k]));
    let at = choose|at: int| 0 <= at < out.len() && out[at] == p[k];
    assert(t.reached(q, j, out[at])) by {
        reveal(Tree::relaxed_upto);
    }
    let j2 = t.place(p[k].id);
    assert(0 <= j2 < t.len() && t.slots[j2].0 == p[k].id);
    lemma_at(t, q, j2);
    assert(j2 != 0);
    assert(q.offers(p[k]));
    assert(t.nodes[j2] == p[k]);
    assert(p.take(k + 1).drop_last() =~= p.take(k));
    assert(p.take(k + 1).last() == p[k]);
    k
}

/// Where the open list is empty, no route arrives at the end system.
pub proof fn lemma_not_found(t: Tree, open: Multiset<SmallestCostHolder>, q: Query, p: Seq<Connection>)
    requires
        inv(t, open, q, -1, 0),
        open.len() == 0,
        q.ids_name_edges(),
        q.is_route(p),
    ensures
        !q.is_goal(p.last()),
{
    let m = lemma_route_front(t, open, q, p, p.len() - 1);
    let j = t.place(p[m].id);
    assert(!pending(t, open, q, j)) by {
        if open.count(t.fresh(q, j)) > 0 {
            assert(open.len() > 0) by {
                broadcast use vstd::multiset::group_multiset_axioms;

                assert(open.remove(t.fresh(q, j)).len() >= 0);
            }
        }
    }
    if q.is_goal(p.last()) {
        reveal(goals_wait);
        assert(pending(t, open, q, j));
    }
}

/// Where the estimate is admissible, an entry that the open list hands out
/// costs no more than any route that arrives at the end system.
pub proof fn lemma_best(
    t: Tree,
    open: Multiset<SmallestCostHolder>,
    q: Query,
    e: SmallestCostHolder,
    p: Seq<Connection>,
)
    requires
        inv(t, open, q, -1, 0),
        open.count(e) > 0,
        forall|other: SmallestCostHolder| open.count(other) > 0 ==> e.no_later(other),
        q.ids_name_edges(),
        q.admissible(),
        q.is_answer(p),
    ensures
        e.cost <= q.walk_cost(p),
{
    let m = lemma_route_front(t, open, q, p, p.len() - 1);
    let j = t.place(p[m].id);
    assert(pending(t, open, q, j)) by {
        if m == p.len() - 1 {
            reveal(goals_wait);
        }
    }
    lemma_at(t, q, j);
    assert(e.no_later(t.fresh(q, j)));
    assert(e.estimated_cost >= e.cost) by {
        reveal(open_ok);
        lemma_at(t, q, e.index as int);
    }
    let rest = p.skip(m);
    assert(q.is_walk(rest)) by {
        assert forall|k: int| 1 <= k < rest.len() implies q.steps(rest[k - 1], #[trigger] rest[k]) by {
            assert(q.steps(p[m + k - 1], p[m + k]));
        }
    }
    assert(q.est(rest[0]) <= q.walk_cost(rest));
    lemma_walk_split(q, p, m);
}

} // verus!
