use shawshank::string_arena_set;
use shawshank::Error;
use shawshank::MapBackend;
use shawshank::VecMap;

#[test]
fn shrink_renumbers_survivors() {
    let mut p = string_arena_set();
    assert_eq!(p.intern(String::from("one")), Ok(0));
    assert_eq!(p.intern(String::from("two")), Ok(1));
    assert_eq!(p.intern(String::from("three")), Ok(2));
    assert_eq!(p.disintern(1), Ok(String::from("two")));
    let remap: VecMap<usize, usize> = p.shrink();
    assert_eq!(remap.get(&2), Some(&1));
    assert_eq!(remap.get(&0), Some(&0));
    assert_eq!(remap.len(), 2);
    assert_eq!(p.count(), 2);
    assert_eq!(p.resolve(1).unwrap().as_str(), "three");
    assert_eq!(p.resolve(0).unwrap().as_str(), "one");
    assert_eq!(p.resolve(2), Err(Error::InvalidId));
}

#[test]
fn shrink_of_dense_arena_is_identity() {
    let mut p = string_arena_set();
    assert_eq!(p.intern(String::from("a")), Ok(0));
    assert_eq!(p.intern(String::from("b")), Ok(1));
    let remap: VecMap<usize, usize> = p.shrink();
    assert_eq!(remap.get(&0), Some(&0));
    assert_eq!(remap.get(&1), Some(&1));
    assert_eq!(p.count(), 2);
    assert_eq!(p.resolve(0).unwrap().as_str(), "a");
    assert_eq!(p.resolve(1).unwrap().as_str(), "b");
}

#[test]
fn shrink_updates_index_for_later_interning() {
    let mut p = string_arena_set();
    assert_eq!(p.intern(String::from("one")), Ok(0));
    assert_eq!(p.intern(String::from("two")), Ok(1));
    assert_eq!(p.intern(String::from("three")), Ok(2));
    assert_eq!(p.disintern(0), Ok(String::from("one")));
    let _remap: VecMap<usize, usize> = p.shrink();
    assert_eq!(p.intern(String::from("two")), Ok(0));
    assert_eq!(p.intern(String::from("three")), Ok(1));
    assert_eq!(p.intern(String::from("one")), Ok(2));
    assert_eq!(p.count(), 3);
}

#[test]
fn shrink_of_empty_arena() {
    let mut p = string_arena_set();
    let remap: VecMap<usize, usize> = p.shrink();
    assert_eq!(remap.len(), 0);
    assert_eq!(p.count(), 0);
    assert_eq!(p.intern(String::from("after")), Ok(0));
}

#[test]
fn vec_map_backend_behaves_as_a_map() {
    let mut m: VecMap<String, usize> = MapBackend::new();
    assert_eq!(m.len(), 0);
    assert_eq!(m.insert(String::from("k1"), 10), None);
    assert_eq!(m.insert(String::from("k2"), 20), None);
    assert_eq!(m.insert(String::from("k1"), 11), Some(10));
    assert_eq!(m.len(), 2);
    assert_eq!(m.get(&String::from("k1")), Some(&11));
    assert_eq!(m.get(&String::from("k3")), None);
    assert_eq!(m.remove(&String::from("k2")), Some(20));
    assert_eq!(m.remove(&String::from("k2")), None);
    assert_eq!(m.len(), 1);
    m.shrink_to_fit();
    assert_eq!(m.get(&String::from("k1")), Some(&11));
}
