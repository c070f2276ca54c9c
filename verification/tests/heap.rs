use train_navigation::min_heap::MinHeap;
use train_navigation::route::Route;

fn drain(heap: &mut MinHeap) -> Vec<(u64, usize)> {
    let mut out = vec![];
    while let Some(r) = heap.remove() {
        out.push((r.distance, r.to));
    }
    out
}

#[test]
fn empty_heap_gives_nothing() {
    let mut heap = MinHeap::new();
    assert_eq!(heap.len(), 0);
    assert_eq!(heap.remove(), None);
    assert_eq!(heap.len(), 0);
}

#[test]
fn entries_leave_by_distance() {
    let mut heap = MinHeap::new();
    for (distance, to) in [(7, 1), (3, 2), (9, 3), (1, 4), (5, 5), (8, 6), (2, 7)] {
        heap.add(Route { to, distance });
    }
    assert_eq!(heap.len(), 7);
    assert_eq!(
        drain(&mut heap),
        vec![(1, 4), (2, 7), (3, 2), (5, 5), (7, 1), (8, 6), (9, 3)]
    );
    assert_eq!(heap.len(), 0);
}

#[test]
fn equal_distances_leave_by_station() {
    let mut heap = MinHeap::new();
    for to in [5, 1, 4, 2, 3] {
        heap.add(Route { to, distance: 6 });
    }
    heap.add(Route { to: 9, distance: 0 });
    assert_eq!(drain(&mut heap), vec![(0, 9), (6, 1), (6, 2), (6, 3), (6, 4), (6, 5)]);
}

#[test]
fn equal_entries_are_all_kept() {
    let mut heap = MinHeap::new();
    for _ in 0..3 {
        heap.add(Route { to: 2, distance: 4 });
    }
    assert_eq!(drain(&mut heap), vec![(4, 2), (4, 2), (4, 2)]);
}

#[test]
fn order_of_keys() {
    let a = Route { to: 3, distance: 1 };
    let b = Route { to: 1, distance: 2 };
    let c = Route { to: 2, distance: 2 };
    assert!(MinHeap::less_or_equal(&a, &b));
    assert!(!MinHeap::less_or_equal(&b, &a));
    assert!(MinHeap::less_or_equal(&b, &c));
    assert!(!MinHeap::less_or_equal(&c, &b));
    assert!(MinHeap::less_or_equal(&c, &c));
}
