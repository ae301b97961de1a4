use evedatacore_route_planner::open::{OpenList, SmallestCostHolder};

fn entry(estimated_cost: i64, cost: i64, index: usize) -> SmallestCostHolder {
    SmallestCostHolder { estimated_cost, cost, index }
}

#[test]
fn an_empty_open_list_hands_out_nothing() {
    let mut list = OpenList::new();
    assert_eq!(list.len(), 0);
    assert!(list.pop().is_none());
    assert_eq!(list.len(), 0);
}

#[test]
fn the_smallest_estimate_comes_first() {
    let mut list = OpenList::new();
    for (i, f) in [50i64, 10, 40, 30, 20, 60, 5, 45].iter().enumerate() {
        list.push(entry(*f, 0, i));
    }
    assert_eq!(list.len(), 8);
    let mut out = Vec::new();
    while let Some(e) = list.pop() {
        out.push(e.estimated_cost);
    }
    assert_eq!(out, vec![5, 10, 20, 30, 40, 45, 50, 60]);
}

#[test]
fn among_equal_estimates_the_larger_cost_comes_first() {
    let mut list = OpenList::new();
    list.push(entry(10, 2, 0));
    list.push(entry(10, 9, 1));
    list.push(entry(10, 5, 2));
    list.push(entry(9, 0, 3));
    let order: Vec<usize> = std::iter::from_fn(|| list.pop()).map(|e| e.index).collect();
    assert_eq!(order, vec![3, 1, 2, 0]);
}

#[test]
fn entries_that_are_pushed_twice_come_out_twice() {
    let mut list = OpenList::new();
    list.push(entry(3, 1, 7));
    list.push(entry(3, 1, 7));
    assert_eq!(list.pop(), Some(entry(3, 1, 7)));
    assert_eq!(list.pop(), Some(entry(3, 1, 7)));
    assert_eq!(list.pop(), None);
}

#[test]
fn the_open_list_orders_many_entries() {
    let mut list = OpenList::new();
    let mut state: u64 = 12345;
    let mut pushed = Vec::new();
    for i in 0..2000usize {
        state = state.wrapping_mul(6364136223846793005).wrapping_add(1442695040888963407);
        let f = ((state >> 33) % 500) as i64;
        let g = ((state >> 13) % 50) as i64;
        list.push(entry(f, g, i));
        pushed.push((f, -g));
    }
    pushed.sort();
    let mut popped = Vec::new();
    while let Some(e) = list.pop() {
        popped.push((e.estimated_cost, -e.cost));
    }
    assert_eq!(popped, pushed);
}

#[test]
fn comes_no_later_compares_estimate_then_cost() {
    assert!(entry(1, 0, 0).comes_no_later(&entry(2, 100, 0)));
    assert!(!entry(2, 100, 0).comes_no_later(&entry(1, 0, 0)));
    assert!(entry(2, 5, 0).comes_no_later(&entry(2, 5, 1)));
    assert!(entry(2, 6, 0).comes_no_later(&entry(2, 5, 1)));
    assert!(!entry(2, 4, 0).comes_no_later(&entry(2, 5, 1)));
}
