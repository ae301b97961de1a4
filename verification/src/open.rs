//! The open list of the search: a binary heap that hands out the entry with
//! the smallest estimated total cost first and, among entries with equal
//! estimates, the one with the larger cost so far.

use vstd::multiset::Multiset;
use vstd::prelude::*;

verus! {

/// An entry of the open list: the estimated total cost of a path through a
/// node, the cost of reaching the node, and the node's place in the table
/// of the search.
#[derive(Debug, Clone, Copy, PartialEq, Eq, Structural)]
pub struct SmallestCostHolder {
    pub estimated_cost: i64,
    pub cost: i64,
    pub index: usize,
}

impl SmallestCostHolder {
    /// Whether the open list may hand out `self` before `other`: its
    /// estimate is smaller, or equal with a cost that is no smaller.
    pub open spec fn no_later(self, other: SmallestCostHolder) -> bool {
        ||| self.estimated_cost < other.estimated_cost
        ||| (self.estimated_cost == other.estimated_cost && self.cost >= other.cost)
    }

    /// Whether the open list may hand out `self` before `other`.
    pub fn comes_no_later(&self, other: &SmallestCostHolder) -> (r: bool)
        ensures
            r == self.no_later(*other),
    {
        self.estimated_cost < other.estimated_cost || (self.estimated_cost == other.estimated_cost
            && self.cost >= other.cost)
    }
}

/// Whether every entry of `items` but the first has its heap parent no
/// later than itself.
pub open spec fn is_heap(items: Seq<SmallestCostHolder>) -> bool {
    forall|i: int| 0 < i < items.len() ==> items[(i - 1) / 2].no_later(#[trigger] items[i])
}

/// As `is_heap`, but for the place `hole`, whose entry may come before its
/// parent; the parent of `hole` is still no later than the children of
/// `hole`.
spec fn is_heap_but_up(items: Seq<SmallestCostHolder>, hole: int) -> bool {
    &&& forall|i: int| 0 < i < items.len() && i != hole ==> items[(i - 1) / 2].no_later(#[trigger] items[i])
    &&& forall|i: int|
        0 < i < items.len() && (i - 1) / 2 == hole && hole > 0 ==> items[(hole - 1) / 2].no_later(
            #[trigger] items[i],
        )
}

/// As `is_heap`, but for the children of the place `hole`, which may come
/// before the entry at `hole`; the parent of `hole` is still no later than
/// the children of `hole`.
spec fn is_heap_but_down(items: Seq<SmallestCostHolder>, hole: int) -> bool {
    &&& forall|i: int|
        0 < i < items.len() && (i - 1) / 2 != hole ==> items[(i - 1) / 2].no_later(#[trigger] items[i])
    &&& forall|i: int|
        0 < i < items.len() && (i - 1) / 2 == hole && hole > 0 ==> items[(hole - 1) / 2].no_later(
            #[trigger] items[i],
        )
}

/// In a heap the first entry is no later than any other.
proof fn lemma_heap_first(items: Seq<SmallestCostHolder>, i: int)
    requires
        is_heap(items),
        0 <= i < items.len(),
    ensures
        items[0].no_later(items[i]),
    decreases i,
{
    if i > 0 {
        lemma_heap_first(items, (i - 1) / 2);
        assert(items[(i - 1) / 2].no_later(items[i]));
    }
}

/// Exchanging two entries keeps the collection of entries.
proof fn lemma_exchange(items: Seq<SmallestCostHolder>, i: int, j: int)
    requires
        0 <= i < items.len(),
        0 <= j < items.len(),
    ensures
        items.update(i, items[j]).update(j, items[i]).to_multiset() == items.to_multiset(),
{
    broadcast use vstd::seq_lib::group_to_multiset_ensures;

    let a = items[i];
    let b = items[j];
    let mid = items.update(i, b);
    vstd::seq_lib::to_multiset_update(items, i, b);
    vstd::seq_lib::to_multiset_update(mid, j, a);
    assert(items.to_multiset().count(a) > 0) by {
        assert(items.contains(a));
    }
    assert(items.to_multiset().count(b) > 0) by {
        assert(items.contains(b));
    }
    assert(mid.update(j, a).to_multiset() =~= items.to_multiset());
}

/// The open list.
pub struct OpenList {
    items: Vec<SmallestCostHolder>,
}

impl OpenList {
    /// The entries that the list holds, each as often as it was pushed and
    /// not yet handed out.
    pub closed spec fn entries(&self) -> Multiset<SmallestCostHolder> {
        self.items@.to_multiset()
    }

    /// The list's internal order is intact.
    pub closed spec fn wf(&self) -> bool {
        is_heap(self.items@)
    }

    /// The number of entries.
    pub closed spec fn spec_len(&self) -> nat {
        self.items@.len()
    }

    /// The number of entries is that of the collection `entries`.
    pub proof fn lemma_len(&self)
        ensures
            self.spec_len() == self.entries().len(),
    {
        broadcast use vstd::seq_lib::group_to_multiset_ensures;

    }

    /// An empty list.
    pub fn new() -> (r: OpenList)
        ensures
            r.wf(),
            r.entries() == Multiset::<SmallestCostHolder>::empty(),
            r.spec_len() == 0,
    {
        let r = OpenList { items: Vec::new() };
        proof {
            broadcast use vstd::seq_lib::group_to_multiset_ensures;

            assert(r.items@.to_multiset().len() == 0);
            assert(r.items@.to_multiset() =~= Multiset::<SmallestCostHolder>::empty());
        }
        r
    }

    /// The number of entries.
    pub fn len(&self) -> (n: usize)
        ensures
            n == self.spec_len(),
    {
        self.items.len()
    }

    /// Adds an entry.
    pub fn push(&mut self, entry: SmallestCostHolder)
        requires
            old(self).wf(),
        ensures
            final(self).wf(),
            final(self).entries() == old(self).entries().insert(entry),
            final(self).spec_len() == old(self).spec_len() + 1,
    {
        let ghost before = self.items@;
        self.items.push(entry);
        proof {
            vstd::seq_lib::to_multiset_build(before, entry);
            assert forall|i: int| 0 < i < self.items@.len() && i != self.items@.len() - 1 implies self.items@[(i
                - 1) / 2].no_later(#[trigger] self.items@[i]) by {
                assert(before[(i - 1) / 2].no_later(before[i]));
            }
        }
        let mut hole: usize = self.items.len() - 1;
        while hole > 0
            invariant
                0 <= hole < self.items@.len(),
                self.items@.len() == before.len() + 1,
                is_heap_but_up(self.items@, hole as int),
                self.items@.to_multiset() == before.to_multiset().insert(entry),
            ensures
                is_heap(self.items@),
            decreases hole,
        {
            let up: usize = (hole - 1) / 2;
            let above: SmallestCostHolder = self.items[up];
            let here: SmallestCostHolder = self.items[hole];
            if above.comes_no_later(&here) {
                proof {
                    let now = self.items@;
                    assert forall|i: int| 0 < i < now.len() implies now[(i - 1) / 2].no_later(#[trigger] now[i]) by {
                        if i == hole {
                        }
                    }
                }
                break ;
            }
            let ghost items = self.items@;
            self.items.set(up, here);
            self.items.set(hole, above);
            proof {
                lemma_exchange(items, up as int, hole as int);
                let now = self.items@;
                assert(now =~= items.update(up as int, items[hole as int]).update(hole as int, items[up as int]));
                assert(here.no_later(above));
                assert forall|i: int| 0 < i < now.len() && i != up implies now[(i - 1) / 2].no_later(
                    #[trigger] now[i],
                ) by {
                    if i == hole {
                    } else if (i - 1) / 2 == hole {
                        assert(items[up as int].no_later(items[i]));
                    } else if (i - 1) / 2 == up {
                        assert(items[up as int].no_later(items[i]));
                    } else {
                        assert(items[(i - 1) / 2].no_later(items[i]));
                    }
                }
                assert forall|i: int| 0 < i < now.len() && (i - 1) / 2 == up && up > 0 implies now[(up - 1)
                    / 2].no_later(#[trigger] now[i]) by {
                    assert(items[(up - 1) / 2].no_later(items[up as int]));
                    if i == hole {
                    } else {
                        assert(items[up as int].no_later(items[i]));
                    }
                }
            }
            hole = up;
        }
    }

    /// Takes out an entry that is no later than every other, if the list
    /// holds any.
    pub fn pop(&mut self) -> (r: Option<SmallestCostHolder>)
        requires
            old(self).wf(),
        ensures
            final(self).wf(),
            match r {
                Some(entry) => {
                    &&& old(self).entries() == final(self).entries().insert(entry)
                    &&& old(self).spec_len() == final(self).spec_len() + 1
                    &&& forall|other: SmallestCostHolder|
                        old(self).entries().count(other) > 0 ==> entry.no_later(other)
                },
                None => old(self).spec_len() == 0 && final(self).entries() == old(self).entries()
                    && final(self).spec_len() == 0,
            },
    {
        let ghost before = self.items@;
        let n: usize = self.items.len();
        if n == 0 {
            return None;
        }
        let first: SmallestCostHolder = self.items[0];
        let last: SmallestCostHolder = self.items[n - 1];
        proof {
            broadcast use vstd::seq_lib::group_to_multiset_ensures;

            assert forall|other: SmallestCostHolder| before.to_multiset().count(other) > 0 implies first.no_later(
                other,
            ) by {
                assert(before.contains(other));
                let i = choose|i: int| 0 <= i < before.len() && before[i] == other;
                lemma_heap_first(before, i);
            }
            lemma_exchange(before, 0, n - 1);
        }
        self.items.set(0, last);
        self.items.set(n - 1, first);
        let ghost swapped = self.items@;
        let taken = self.items.pop();
        proof {
            assert(swapped =~= before.update(0, before[n - 1]).update(n - 1, before[0]));
            assert(swapped =~= self.items@.push(first));
            vstd::seq_lib::to_multiset_build(self.items@, first);
            let now = self.items@;
            assert forall|i: int| 0 < i < now.len() && (i - 1) / 2 != 0 implies now[(i - 1) / 2].no_later(
                #[trigger] now[i],
            ) by {
                assert(before[(i - 1) / 2].no_later(before[i]));
            }
        }
        let ghost rest = self.items@.to_multiset();
        let m: usize = n - 1;
        let mut hole: usize = 0;
        loop
            invariant
                self.items@.len() == m,
                m < usize::MAX,
                hole <= m,
                is_heap_but_down(self.items@, hole as int),
                self.items@.to_multiset() == rest,
            ensures
                is_heap(self.items@),
                self.items@.len() == m,
                self.items@.to_multiset() == rest,
            decreases m - hole,
        {
            if hole >= m / 2 {
                proof {
                    let now = self.items@;
                    assert forall|i: int| 0 < i < now.len() implies now[(i - 1) / 2].no_later(#[trigger] now[i]) by {
                        if (i - 1) / 2 == hole {
                            assert(i >= 2 * hole + 1);
                        }
                    }
                }
                break ;
            }
            let left: usize = 2 * hole + 1;
            let right: usize = left + 1;
            let mut down: usize = left;
            if right < m {
                let l: SmallestCostHolder = self.items[left];
                let r: SmallestCostHolder = self.items[right];
                if !l.comes_no_later(&r) {
                    down = right;
                }
            }
            let here: SmallestCostHolder = self.items[hole];
            let below: SmallestCostHolder = self.items[down];
            if here.comes_no_later(&below) {
                proof {
                    let now = self.items@;
                    assert forall|i: int| 0 < i < now.len() implies now[(i - 1) / 2].no_later(#[trigger] now[i]) by {
                        if (i - 1) / 2 == hole {
                            assert(i == left || i == right);
                        }
                    }
                }
                break ;
            }
            let ghost items = self.items@;
            self.items.set(hole, below);
            self.items.set(down, here);
            proof {
                lemma_exchange(items, hole as int, down as int);
                let now = self.items@;
                assert(now =~= items.update(hole as int, items[down as int]).update(down as int, items[hole as int]));
                assert forall|i: int| 0 < i < now.len() && (i - 1) / 2 != down implies now[(i - 1) / 2].no_later(
                    #[trigger] now[i],
                ) by {
                    if (i - 1) / 2 == hole {
                        assert(i == left || i == right);
                    } else if i == hole {
                        assert(items[(hole - 1) / 2].no_later(items[down as int]));
                    } else {
                        assert(items[(i - 1) / 2].no_later(items[i]));
                    }
                }
                assert forall|i: int| 0 < i < now.len() && (i - 1) / 2 == down && down > 0 implies now[(down - 1)
                    / 2].no_later(#[trigger] now[i]) by {
                    assert(items[down as int].no_later(items[i]));
                }
            }
            hole = down;
        }
        Some(first)
    }
}

} // verus!
