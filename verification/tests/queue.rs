use vortex_mesh::queue::{Entry, Queue};

#[test]
fn entries_come_out_by_rank_and_then_by_age() {
    let mut queue = Queue::new();
    assert!(queue.is_empty());
    assert_eq!(queue.pop(), None);
    let mut expected = Vec::new();
    let mut state = 7_u64;
    for sequence in 0..500 {
        state = state
            .wrapping_mul(6_364_136_223_846_793_005)
            .wrapping_add(1_442_695_040_888_963_407);
        let entry = Entry {
            rank: (state >> 60) as i64 - 8,
            sequence,
        };
        queue.push(entry);
        expected.push(entry);
    }
    expected.sort_by_key(|entry| (-entry.rank, entry.sequence));
    for entry in expected {
        assert!(!queue.is_empty());
        assert_eq!(queue.pop(), Some(entry));
    }
    assert!(queue.is_empty());
}

#[test]
fn pushing_and_popping_may_alternate() {
    let mut queue = Queue::new();
    let entry = |rank, sequence| Entry { rank, sequence };
    queue.push(entry(1, 0));
    queue.push(entry(5, 1));
    assert_eq!(queue.pop(), Some(entry(5, 1)));
    queue.push(entry(1, 2));
    queue.push(entry(0, 3));
    assert_eq!(queue.pop(), Some(entry(1, 0)));
    assert_eq!(queue.pop(), Some(entry(1, 2)));
    assert_eq!(queue.pop(), Some(entry(0, 3)));
    assert_eq!(queue.pop(), None);
    assert!(entry(2, 9).precedes(entry(1, 0)));
    assert!(entry(1, 0).precedes(entry(1, 1)));
    assert!(!entry(1, 1).precedes(entry(1, 1)));
}
