use shortest_paths::graph::Vertex;
use shortest_paths::priority_queue::build_priority_queue;

fn v(value: i64) -> Vertex {
    Vertex { value, id: 0 }
}

#[test]
fn pop_returns_values_in_ascending_order() {
    let mut pq = build_priority_queue(None, None);
    for x in [15, 2, 3, 9, 33, 5, 1] {
        pq.push(v(x));
    }
    let mut out: Vec<i64> = Vec::new();
    while let Some(top) = pq.pop() {
        out.push(top.value);
    }
    assert_eq!(out, vec![1, 2, 3, 5, 9, 15, 33]);
}

#[test]
fn pop_always_returns_current_minimum_interleaved() {
    let mut pq = build_priority_queue(None, None);
    pq.push(v(8));
    pq.push(v(3));
    assert_eq!(pq.pop().map(|x| x.value), Some(3));
    pq.push(v(10));
    pq.push(v(1));
    pq.push(v(6));
    assert_eq!(pq.pop().map(|x| x.value), Some(1));
    assert_eq!(pq.pop().map(|x| x.value), Some(6));
    pq.push(v(0));
    assert_eq!(pq.pop().map(|x| x.value), Some(0));
    assert_eq!(pq.pop().map(|x| x.value), Some(8));
    assert_eq!(pq.pop().map(|x| x.value), Some(10));
    assert!(pq.pop().is_none());
}

#[test]
fn pop_on_empty_is_none() {
    let mut pq = build_priority_queue(None, None);
    assert!(pq.pop().is_none());
    pq.push(v(4));
    assert_eq!(pq.pop().map(|x| x.value), Some(4));
    assert!(pq.pop().is_none());
}

#[test]
fn bounded_queue_evicts_exactly_the_minimum() {
    let mut pq = build_priority_queue(None, Some(3));
    pq.push(v(5));
    pq.push(v(1));
    pq.push(v(7));
    assert_eq!(pq.len(), 3);
    // Full: the next push first evicts the current minimum (1).
    pq.push(v(9));
    assert_eq!(pq.len(), 3);
    let mut out: Vec<i64> = Vec::new();
    while let Some(top) = pq.pop() {
        out.push(top.value);
    }
    assert_eq!(out, vec![5, 7, 9]);
}

#[test]
fn bounded_queue_size_never_exceeds_bound() {
    let mut pq = build_priority_queue(None, Some(2));
    for x in [9, 4, 6, 2, 8] {
        pq.push(v(x));
        assert!(pq.len() <= 2);
    }
    // Each push into the full queue evicted the then-minimum, so of
    // [9, 4], then [6, 9], then [2, 9], the final survivors are [8, 9].
    assert_eq!(pq.pop().map(|x| x.value), Some(8));
    assert_eq!(pq.pop().map(|x| x.value), Some(9));
    assert!(pq.pop().is_none());
}

#[test]
fn bound_of_zero_still_admits_the_fresh_element() {
    // Degenerate bound: there is nothing to evict, so the push goes in.
    let mut pq = build_priority_queue(None, Some(0));
    pq.push(v(5));
    assert_eq!(pq.len(), 1);
    assert_eq!(pq.pop().map(|x| x.value), Some(5));
}

#[test]
fn build_with_backing_storage_starts_logically_empty() {
    let backing = vec![v(42), v(7)];
    let mut pq = build_priority_queue(Some(backing), None);
    assert_eq!(pq.len(), 0);
    assert!(pq.pop().is_none());
    pq.push(v(3));
    pq.push(v(11));
    assert_eq!(pq.pop().map(|x| x.value), Some(3));
    assert_eq!(pq.pop().map(|x| x.value), Some(11));
    assert!(pq.pop().is_none());
}

#[test]
fn vertex_equality_and_order_ignore_id() {
    let a = Vertex { value: 5, id: 1 };
    let b = Vertex { value: 5, id: 2 };
    let c = Vertex { value: 6, id: 1 };
    assert!(a == b);
    assert!(a != c);
    assert!(a < c);
    assert!(c > b);
}

#[test]
fn entries_lists_live_elements() {
    let mut pq = build_priority_queue(None, None);
    pq.push(v(2));
    pq.push(v(1));
    let live = pq.entries();
    assert_eq!(live.len(), 2);
    assert_eq!(live[0].value, 1);
}
