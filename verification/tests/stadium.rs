use shawshank::byte_stadium_set;
use shawshank::string_stadium_set;
use shawshank::Builder;
use shawshank::Error;
use shawshank::MapBackend;
use shawshank::VecMap;
use std::sync::Arc;

#[test]
fn stadium_round_trip() {
    let mut p = string_stadium_set();
    assert_eq!(p.intern(String::from("hello")), Ok(0));
    let s: &Arc<String> = p.resolve(0).unwrap();
    assert_eq!(s.as_str(), "hello");
}

#[test]
fn stadium_idempotent() {
    let mut p = string_stadium_set();
    assert_eq!(p.intern(String::from("hello")), Ok(0));
    assert_eq!(p.intern(String::from("hello")), Ok(0));
    assert_eq!(p.0.count(), 1);
}

#[test]
fn stadium_disintern_unwraps_to_handle() {
    let mut p = string_stadium_set();
    assert_eq!(p.intern(String::from("hello")), Ok(0));
    let out: Arc<String> = p.disintern(0).unwrap();
    assert_eq!(out.as_str(), "hello");
    assert_eq!(p.resolve(0), Err(Error::InvalidId));
}

#[test]
fn stadium_bytes() {
    let mut p = byte_stadium_set();
    assert_eq!(p.intern(vec![1u8, 2, 3]), Ok(0));
    assert_eq!(p.intern(vec![1u8, 2, 3]), Ok(0));
    assert_eq!(p.intern(vec![4u8]), Ok(1));
    let v: &Arc<Vec<u8>> = p.resolve(0).unwrap();
    assert_eq!(v.as_slice(), &[1u8, 2, 3]);
}

#[test]
fn stadium_shrink() {
    let mut p = string_stadium_set();
    assert_eq!(p.intern(String::from("one")), Ok(0));
    assert_eq!(p.intern(String::from("two")), Ok(1));
    assert_eq!(p.disintern(0), Ok(Arc::new(String::from("one"))));
    let remap: VecMap<usize, usize> = p.shrink();
    assert_eq!(remap.get(&1), Some(&0));
    assert_eq!(p.resolve(0).unwrap().as_str(), "two");
}

#[test]
fn builder_picks_types() {
    let mut p1 = Builder::<String>::new().arena_set().unwrap();
    assert_eq!(p1.intern(String::from("hello")), Ok(0));
    assert_eq!(p1.resolve(0).unwrap().as_str(), "hello");

    let mut p2 = Builder::<Arc<String>, u8>::new().stadium_set().unwrap();
    assert_eq!(p2.intern(String::from("hello")), Ok(0u8));
    let s: &Arc<String> = p2.resolve(0u8).unwrap();
    assert_eq!(s.as_str(), "hello");
}

#[test]
fn builder_function_defaults_to_usize_ids() {
    let mut p = shawshank::builder::<Vec<u8>>().arena_set().unwrap();
    assert_eq!(p.intern(vec![9u8]), Ok(0));
    assert_eq!(p.count(), 1);
}
