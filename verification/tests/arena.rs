use handle_arena::{Handle, StringArena};

fn text(s: &str) -> String {
    s.to_string()
}

#[test]
fn new_arena_holds_nothing() {
    let arena = StringArena::new();
    let h = Handle { index: 0, generation: 0 };
    assert!(!arena.contains(h));
    assert!(arena.get(h).is_none());
}

#[test]
fn inserted_value_is_found_at_once() {
    let mut arena = StringArena::new();
    for i in 0..20 {
        let value = format!("value {}", i);
        let h = arena.insert(value.clone());
        assert!(arena.contains(h));
        assert_eq!(arena.get(h), Some(&value));
    }
}

#[test]
fn new_slots_count_up_at_generation_zero() {
    let mut arena = StringArena::new();
    for i in 0..10 {
        let h = arena.insert(format!("{}", i));
        assert_eq!(h, Handle { index: i, generation: 0 });
    }
    for i in 0..10 {
        let h = Handle { index: i, generation: 0 };
        assert_eq!(arena.get(h), Some(&format!("{}", i)));
    }
    assert!(!arena.contains(Handle { index: 10, generation: 0 }));
}

#[test]
fn index_gives_the_first_of_three() {
    let mut arena = StringArena::new();
    let h1 = arena.insert(text("a"));
    let h2 = arena.insert(text("b"));
    let h3 = arena.insert(text("c"));
    assert_eq!(arena[h1], "a");
    assert_eq!(arena[h2], "b");
    assert_eq!(arena[h3], "c");
}

#[test]
fn reused_slot_gets_a_new_generation() {
    let mut arena = StringArena::new();
    let hx = arena.insert(text("x"));
    assert_eq!(arena.remove(hx), Some(text("x")));
    assert!(!arena.contains(hx));
    let hy = arena.insert(text("y"));
    assert!(arena.contains(hy));
    assert_eq!(hx.index, hy.index);
    assert_ne!(hx.generation, hy.generation);
    assert_eq!(hx, Handle { index: 0, generation: 0 });
    assert_eq!(hy, Handle { index: 0, generation: 1 });
    assert_eq!(arena.get(hx), None);
    assert_eq!(arena.get(hy), Some(&text("y")));
}

#[test]
fn write_through_get_mut_is_seen_by_get() {
    let mut arena = StringArena::new();
    let h = arena.insert(text("before"));
    match arena.get_mut(h) {
        Some(value) => value.push_str(" and after"),
        None => panic!("a fresh handle must be valid"),
    }
    assert_eq!(arena.get(h), Some(&text("before and after")));
    assert_eq!(arena.insert(text("next")), Handle { index: 1, generation: 0 });
}

#[test]
fn write_through_index_mut_is_seen_by_index() {
    let mut arena = StringArena::new();
    let h1 = arena.insert(text("one"));
    let h2 = arena.insert(text("two"));
    *arena.index_mut(h2) = text("deux");
    assert_eq!(arena[h1], "one");
    assert_eq!(arena[h2], "deux");
}

#[test]
fn remove_of_a_handle_never_issued_gives_nothing() {
    let mut arena = StringArena::new();
    let h = arena.insert(text("only"));
    assert_eq!(arena.remove(Handle { index: 1, generation: 0 }), None);
    assert_eq!(arena.remove(Handle { index: 99, generation: 0 }), None);
    assert_eq!(arena.remove(Handle { index: usize::MAX, generation: u64::MAX }), None);
    assert_eq!(arena.get(h), Some(&text("only")));
    assert_eq!(arena.insert(text("next")), Handle { index: 1, generation: 0 });
}

#[test]
fn remove_on_an_empty_arena_gives_nothing() {
    let mut arena = StringArena::new();
    assert_eq!(arena.remove(Handle { index: 0, generation: 0 }), None);
    assert_eq!(arena.try_remove(Handle { index: 0, generation: 0 }), None);
    assert_eq!(arena.insert(text("first")), Handle { index: 0, generation: 0 });
}

#[test]
fn second_remove_gives_nothing() {
    let mut arena = StringArena::new();
    let keep = arena.insert(text("keep"));
    let h = arena.insert(text("gone"));
    assert_eq!(arena.remove(h), Some(text("gone")));
    assert!(!arena.contains(h));
    assert_eq!(arena.get(h), None);
    assert_eq!(arena.remove(h), None);
    assert_eq!(arena.get(keep), Some(&text("keep")));
    assert_eq!(arena.insert(text("new")), Handle { index: 1, generation: 1 });
}

#[test]
fn invalid_handle_fails_the_same_way_every_time() {
    let mut arena = StringArena::new();
    let keep = arena.insert(text("keep"));
    let h = arena.insert(text("gone"));
    arena.remove(h);
    for _ in 0..5 {
        assert!(!arena.contains(h));
        assert_eq!(arena.get(h), None);
        assert!(arena.get_mut(h).is_none());
        assert_eq!(arena.remove(h), None);
        assert_eq!(arena.try_remove(h), None);
        assert_eq!(arena.get(keep), Some(&text("keep")));
    }
    assert_eq!(arena.insert(text("new")), Handle { index: 1, generation: 1 });
}

#[test]
fn wrong_generation_at_an_occupied_slot_is_invalid() {
    let mut arena = StringArena::new();
    let h = arena.insert(text("v"));
    let other = Handle { index: h.index, generation: h.generation + 1 };
    assert!(!arena.contains(other));
    assert_eq!(arena.get(other), None);
    assert_eq!(arena.remove(other), None);
    assert_eq!(arena.get(h), Some(&text("v")));
}

#[test]
fn freed_slots_are_reused_last_freed_first() {
    let mut arena = StringArena::new();
    let h1 = arena.insert(text("a"));
    let h2 = arena.insert(text("b"));
    let h3 = arena.insert(text("c"));
    assert_eq!(arena.remove(h1), Some(text("a")));
    assert_eq!(arena.remove(h2), Some(text("b")));
    assert_eq!(arena.insert(text("d")), Handle { index: 1, generation: 1 });
    assert_eq!(arena.get(h3), Some(&text("c")));
    assert_eq!(arena.insert(text("e")), Handle { index: 0, generation: 1 });
    assert_eq!(arena.get(h3), Some(&text("c")));
    assert_eq!(arena.insert(text("f")), Handle { index: 3, generation: 0 });
    assert_eq!(arena.get(h3), Some(&text("c")));
    assert_eq!(arena.get(Handle { index: 1, generation: 1 }), Some(&text("d")));
    assert_eq!(arena.get(Handle { index: 0, generation: 1 }), Some(&text("e")));
    assert_eq!(arena.get(Handle { index: 3, generation: 0 }), Some(&text("f")));
}

#[test]
fn new_slot_starts_at_generation_zero_after_removals() {
    let mut arena = StringArena::new();
    let first = arena.insert(text("first"));
    assert_eq!(arena.remove(first), Some(text("first")));
    assert_eq!(arena.insert(text("second")), Handle { index: 0, generation: 1 });
    assert_eq!(arena.insert(text("third")), Handle { index: 1, generation: 0 });
    assert_eq!(arena.get(Handle { index: 1, generation: 0 }), Some(&text("third")));
}

#[test]
fn each_slot_counts_its_own_removals() {
    let mut arena = StringArena::new();
    let a = arena.insert(text("a"));
    let b = arena.insert(text("b0"));
    let c = arena.insert(text("c"));
    for round in 0..3u64 {
        let h = Handle { index: b.index, generation: round };
        assert_eq!(arena.remove(h), Some(format!("b{}", round)));
        assert_eq!(arena.remove(h), None);
        let again = arena.insert(format!("b{}", round + 1));
        assert_eq!(again, Handle { index: b.index, generation: round + 1 });
    }
    assert_eq!(arena.remove(a), Some(text("a")));
    assert_eq!(arena.insert(text("a1")), Handle { index: a.index, generation: 1 });
    assert_eq!(arena.get(c), Some(&text("c")));
    assert_eq!(arena.remove(c), Some(text("c")));
    assert_eq!(arena.insert(text("c1")), Handle { index: c.index, generation: 1 });
    assert_eq!(arena.get(Handle { index: b.index, generation: 3 }), Some(&text("b3")));
}

#[test]
fn stale_handles_never_match_a_later_occupant() {
    let mut arena = StringArena::new();
    let mut old: Vec<Handle> = Vec::new();
    for round in 0..50u64 {
        let h = arena.insert(format!("round {}", round));
        assert_eq!(h.index, 0);
        assert_eq!(h.generation, round);
        for stale in old.iter() {
            assert_ne!(*stale, h);
            assert!(!arena.contains(*stale));
            assert_eq!(arena.get(*stale), None);
        }
        assert_eq!(arena.remove(h), Some(format!("round {}", round)));
        old.push(h);
    }
}

#[test]
fn stale_handle_cannot_write_to_the_new_occupant() {
    let mut arena = StringArena::new();
    let first = arena.insert(text("first"));
    arena.remove(first);
    let second = arena.insert(text("second"));
    assert_eq!(first.index, second.index);
    assert!(arena.get_mut(first).is_none());
    assert_eq!(arena.remove(first), None);
    assert_eq!(arena.get(second), Some(&text("second")));
}

#[test]
fn insert_and_remove_leave_the_other_values_alone() {
    let mut arena = StringArena::new();
    let a = arena.insert(text("a"));
    let b = arena.insert(text("b"));
    let c = arena.insert(text("c"));
    arena.remove(b);
    assert_eq!(arena.get(a), Some(&text("a")));
    assert_eq!(arena.get(c), Some(&text("c")));
    let d = arena.insert(text("d"));
    assert_eq!(d.index, b.index);
    assert_eq!(arena.get(a), Some(&text("a")));
    assert_eq!(arena.get(c), Some(&text("c")));
    assert_eq!(arena.get(d), Some(&text("d")));
    *arena.index_mut(c) = text("C");
    assert_eq!(arena.get(a), Some(&text("a")));
    assert_eq!(arena.get(d), Some(&text("d")));
    assert_eq!(arena.get(c), Some(&text("C")));
}

#[test]
fn try_remove_removes_like_remove() {
    let mut arena = StringArena::new();
    let a = arena.insert(text("a"));
    let b = arena.insert(text("b"));
    assert_eq!(arena.try_remove(a), Some(text("a")));
    assert_eq!(arena.try_remove(a), None);
    assert!(arena.contains(b));
    assert_eq!(arena.insert(text("c")), Handle { index: 0, generation: 1 });
}

#[test]
fn arena_grows_past_every_reserve() {
    let mut arena = StringArena::new();
    let mut handles: Vec<Handle> = Vec::new();
    for i in 0..100 {
        handles.push(arena.insert(format!("{}", i)));
    }
    for (i, h) in handles.iter().enumerate() {
        assert_eq!(*h, Handle { index: i, generation: 0 });
        assert_eq!(arena[*h], format!("{}", i));
    }
    for h in handles.iter() {
        assert!(arena.remove(*h).is_some());
    }
    assert_eq!(arena.insert(text("again")), Handle { index: 99, generation: 1 });
    assert_eq!(arena.insert(text("again")), Handle { index: 98, generation: 1 });
    for h in handles.iter() {
        assert!(!arena.contains(*h));
    }
}

#[test]
fn handles_are_plain_values() {
    let h = Handle { index: 3, generation: 7 };
    let copy = h;
    assert_eq!(h, copy);
    assert_ne!(h, Handle { index: 3, generation: 8 });
    assert_ne!(h, Handle { index: 4, generation: 7 });
    assert_eq!(format!("{:?}", h), "Handle { index: 3, generation: 7 }");
}

#[test]
fn handles_work_whatever_happened_in_other_slots() {
    let mut arena = StringArena::new();
    let busy = arena.insert(text("busy 0"));
    let quiet = arena.insert(text("quiet"));
    let mut last = busy;
    for round in 1..=5u64 {
        assert!(arena.remove(last).is_some());
        last = arena.insert(format!("busy {}", round));
        assert_eq!(last, Handle { index: busy.index, generation: round });
    }
    assert_eq!(arena.remove(quiet), Some(text("quiet")));
    let again = arena.insert(text("quiet again"));
    assert_eq!(again, Handle { index: quiet.index, generation: 1 });
    assert!(arena.contains(again));
    assert_eq!(arena.get(again), Some(&text("quiet again")));
    assert_eq!(arena[again], "quiet again");
    arena.index_mut(again).push('!');
    match arena.get_mut(again) {
        Some(value) => value.push('?'),
        None => panic!("a fresh handle must be valid"),
    }
    assert_eq!(arena.try_remove(again), Some(text("quiet again!?")));
    assert!(!arena.contains(again));
    assert_eq!(arena.get(last), Some(&text("busy 5")));
    assert_eq!(arena.insert(text("third")), Handle { index: quiet.index, generation: 2 });
    assert_eq!(arena.insert(text("fourth")), Handle { index: 2, generation: 0 });
}
