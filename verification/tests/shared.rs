use handle_arena::{Shared, StringArena};

#[test]
fn shared_hands_out_the_value_it_took() {
    let shared = Shared::new(41u32);
    assert_eq!(*shared.borrow(), 41);
    assert_eq!(*shared, 41);
}

#[test]
fn shared_keeps_what_was_written() {
    let mut shared = Shared::new(String::from("one"));
    shared.borrow_mut().push_str(", two");
    *shared.borrow_mut() += ", three";
    assert_eq!(shared.borrow().as_str(), "one, two, three");
}

#[test]
fn shared_gives_many_read_views() {
    let shared = Shared::new(vec![1, 2, 3]);
    let a = shared.borrow();
    let b = shared.borrow();
    assert_eq!(a, b);
    assert_eq!(a.len(), 3);
}

#[test]
fn arena_behind_a_shared_owner() {
    let mut ptr = Shared::new(StringArena::new());

    let rza = ptr.borrow_mut().insert("Robert Fitzgerald Diggs".to_string());
    let gza = ptr.borrow_mut().insert("Gary Grice".to_string());
    let bill = ptr.borrow_mut().insert("Bill Gates".to_string());

    assert_eq!(ptr.borrow()[rza], "Robert Fitzgerald Diggs");
    assert_eq!(ptr.borrow().get(gza), Some(&"Gary Grice".to_string()));

    if let Some(val) = ptr.borrow_mut().get_mut(bill) {
        *val = "Bill Gates doesn't belong in this set...".to_string();
    }
    assert_eq!(
        ptr.borrow_mut().remove(bill),
        Some("Bill Gates doesn't belong in this set...".to_string())
    );

    let murray = ptr.borrow_mut().insert("Bill Murray".to_string());

    assert!(!ptr.borrow().contains(bill));
    assert!(ptr.borrow().contains(murray));
    assert_eq!(bill.index, murray.index);
    assert_ne!(bill.generation, murray.generation);
}
