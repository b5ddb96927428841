use luna_front::arena::{Arena, Id};

#[test]
fn arena_capacity_rollover() {
    let mut arena: Arena<u32, 4> = Arena::new();
    let mut ids = Vec::new();
    for v in 0..7u32 {
        ids.push(arena.insert(v));
    }
    assert_eq!(arena.len(), 7);
    for (k, id) in ids.iter().enumerate() {
        assert_eq!(*arena.get(*id), k as u32);
    }
    let segments: Vec<u32> = ids.iter().map(|id| id.segment()).collect();
    assert_eq!(segments, vec![0, 0, 0, 0, 1, 1, 1]);
    let slots: Vec<u32> = ids.iter().map(|id| id.slot()).collect();
    assert_eq!(slots, vec![0, 1, 2, 3, 0, 1, 2]);
}

#[test]
fn arena_rollover_spans_three_segments() {
    // 2 * N + 3 values with N = 4
    let mut arena: Arena<String, 4> = Arena::new();
    let mut ids = Vec::new();
    for v in 0..11 {
        ids.push(arena.insert(format!("value {v}")));
    }
    for a in 0..ids.len() {
        for b in 0..ids.len() {
            assert_eq!(a == b, ids[a] == ids[b]);
        }
    }
    for (k, id) in ids.iter().enumerate() {
        assert_eq!(arena.get(*id), &format!("value {k}"));
    }
    assert_eq!(ids[10].segment(), 2);
    assert_eq!(ids[10].slot(), 2);
}

#[test]
fn arena_segment_of_one() {
    let mut arena: Arena<i64, 1> = Arena::new();
    let a = arena.insert(-5);
    let b = arena.insert(7);
    assert_eq!(a.segment(), 0);
    assert_eq!(b.segment(), 1);
    assert_eq!(b.slot(), 0);
    assert_eq!(*arena.get(a), -5);
    assert_eq!(*arena.get(b), 7);
}

#[test]
fn arena_empty_and_default_id() {
    let arena: Arena<u8, 8> = Arena::new();
    assert_eq!(arena.len(), 0);
    let id: Id<u8> = Id::default();
    assert_eq!(id.segment(), 0);
    assert_eq!(id.slot(), 0);
    let copy = id;
    assert!(copy == id);
}
