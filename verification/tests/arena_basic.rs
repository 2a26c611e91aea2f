use shawshank::string_arena_set;
use shawshank::Error;

#[test]
fn round_trip_string() {
    let mut p = string_arena_set();
    let id = p.intern(String::from("hello")).unwrap();
    assert_eq!(p.resolve(id).unwrap().as_str(), "hello");
}

#[test]
fn round_trip_bytes() {
    let mut p = shawshank::byte_arena_set();
    let id = p.intern(vec![1u8, 2, 3]).unwrap();
    assert_eq!(p.resolve(id).unwrap(), &vec![1u8, 2, 3]);
}

#[test]
fn sequential_ids() {
    let mut p = string_arena_set();
    assert_eq!(p.intern(String::from("hello")), Ok(0));
    assert_eq!(p.intern(String::from("world")), Ok(1));
    assert_eq!(p.count(), 2);
}

#[test]
fn intern_is_idempotent() {
    let mut p = string_arena_set();
    let first = p.intern(String::from("hello")).unwrap();
    let second = p.intern(String::from("hello")).unwrap();
    assert_eq!(first, second);
    assert_eq!(p.count(), 1);
}

#[test]
fn equal_content_same_id_different_allocation() {
    let mut p = string_arena_set();
    let a = String::from("shared");
    let b = a.clone();
    let id_a = p.intern(a).unwrap();
    let id_b = p.intern(b).unwrap();
    assert_eq!(id_a, id_b);
    assert_eq!(p.count(), 1);
}

#[test]
fn disintern_returns_value_and_invalidates() {
    let mut p = string_arena_set();
    assert_eq!(p.intern(String::from("hello")), Ok(0));
    assert_eq!(p.intern(String::from("world")), Ok(1));
    assert_eq!(p.disintern(0), Ok(String::from("hello")));
    assert_eq!(p.resolve(0), Err(Error::InvalidId));
    assert_eq!(p.count(), 1);
    assert_eq!(p.resolve(1).unwrap().as_str(), "world");
}

#[test]
fn disintern_twice_fails() {
    let mut p = string_arena_set();
    assert_eq!(p.intern(String::from("hello")), Ok(0));
    assert_eq!(p.disintern(0), Ok(String::from("hello")));
    assert_eq!(p.disintern(0), Err(Error::InvalidId));
}

#[test]
fn disintern_never_issued_fails() {
    let mut p = string_arena_set();
    assert_eq!(p.disintern(7), Err(Error::InvalidId));
    assert_eq!(p.resolve(7), Err(Error::InvalidId));
}

#[test]
fn slot_reuse_never_collides_with_live_ids() {
    let mut p = string_arena_set();
    let id_a = p.intern(String::from("a")).unwrap();
    let id_b = p.intern(String::from("b")).unwrap();
    let id_c = p.intern(String::from("c")).unwrap();
    assert_eq!(p.disintern(id_b), Ok(String::from("b")));
    let id_d = p.intern(String::from("d")).unwrap();
    assert_eq!(id_d, id_b);
    assert_ne!(id_d, id_a);
    assert_ne!(id_d, id_c);
    assert_eq!(p.resolve(id_a).unwrap().as_str(), "a");
    assert_eq!(p.resolve(id_c).unwrap().as_str(), "c");
    assert_eq!(p.resolve(id_d).unwrap().as_str(), "d");
}

#[test]
fn free_slots_reused_most_recent_first() {
    let mut p = string_arena_set();
    assert_eq!(p.intern(String::from("a")), Ok(0));
    assert_eq!(p.intern(String::from("b")), Ok(1));
    assert_eq!(p.intern(String::from("c")), Ok(2));
    assert_eq!(p.disintern(0), Ok(String::from("a")));
    assert_eq!(p.disintern(2), Ok(String::from("c")));
    assert_eq!(p.intern(String::from("d")), Ok(2));
    assert_eq!(p.intern(String::from("e")), Ok(0));
    assert_eq!(p.intern(String::from("f")), Ok(3));
}

#[test]
fn capacity_covers_count() {
    let mut p = string_arena_set();
    for i in 0..10 {
        p.intern(format!("value-{}", i)).unwrap();
    }
    assert_eq!(p.count(), 10);
    assert!(p.capacity() >= 10);
}
