use shawshank::ArenaSet;
use shawshank::Error;
use shawshank::MapBackend;
use shawshank::NonZeroU8Id;
use shawshank::VecMap;

#[test]
fn overflow_boundary_of_four() {
    let mut p: ArenaSet<String> = ArenaSet::bounded_with_capacity(3, 0).unwrap();
    assert_eq!(p.intern(String::from("one")), Ok(0));
    assert_eq!(p.intern(String::from("two")), Ok(1));
    assert_eq!(p.intern(String::from("three")), Ok(2));
    assert_eq!(p.intern(String::from("four")), Ok(3));
    assert_eq!(p.intern(String::from("five")), Err(Error::IdOverflow));
    assert_eq!(p.disintern(1), Ok(String::from("two")));
    assert_eq!(p.intern(String::from("five")), Ok(1));
    assert_eq!(p.resolve(1).unwrap().as_str(), "five");
}

#[test]
fn overflow_leaves_existing_items_alone() {
    let mut p: ArenaSet<String> = ArenaSet::bounded_with_capacity(0, 0).unwrap();
    assert_eq!(p.intern(String::from("only")), Ok(0));
    assert_eq!(p.intern(String::from("more")), Err(Error::IdOverflow));
    assert_eq!(p.count(), 1);
    assert_eq!(p.resolve(0).unwrap().as_str(), "only");
}

#[test]
fn interning_present_value_succeeds_when_full() {
    let mut p: ArenaSet<String> = ArenaSet::bounded_with_capacity(0, 0).unwrap();
    assert_eq!(p.intern(String::from("only")), Ok(0));
    assert_eq!(p.intern(String::from("only")), Ok(0));
}

#[test]
fn two_bit_id_domain() {
    let mut p: ArenaSet<String, u8> = ArenaSet::bounded_with_capacity(3, 0).unwrap();
    assert_eq!(p.intern(String::from("one")), Ok(0u8));
    assert_eq!(p.intern(String::from("two")), Ok(1u8));
    assert_eq!(p.intern(String::from("three")), Ok(2u8));
    assert_eq!(p.intern(String::from("four")), Ok(3u8));
    assert_eq!(p.intern(String::from("five")), Err(Error::IdOverflow));
    assert_eq!(p.disintern(0u8), Ok(String::from("one")));
    assert_eq!(p.intern(String::from("six")), Ok(0u8));
    assert_eq!(p.resolve(0u8).unwrap().as_str(), "six");
}

#[test]
fn bound_wider_than_id_type_is_rejected() {
    let r: Result<ArenaSet<String, u8>, Error> = ArenaSet::bounded_with_capacity(256, 0);
    match r {
        Err(e) => assert_eq!(e, Error::IdOverflow),
        Ok(_) => panic!("a bound of 256 must not fit u8 identifiers"),
    }
}

#[test]
fn u8_space_exhausts_at_256() {
    let mut p: ArenaSet<String, u8> = ArenaSet::new().unwrap();
    for i in 0..256 {
        assert_eq!(p.intern(format!("v{}", i)), Ok(i as u8));
    }
    assert_eq!(p.intern(String::from("v256")), Err(Error::IdOverflow));
    assert_eq!(p.count(), 256);
}

#[test]
fn niche_id_encodes_shifted_by_one() {
    let mut p: ArenaSet<String, NonZeroU8Id> = ArenaSet::new().unwrap();
    let id = p.intern(String::from("first")).unwrap();
    assert_eq!(id, NonZeroU8Id { raw: 1 });
    let id2 = p.intern(String::from("second")).unwrap();
    assert_eq!(id2, NonZeroU8Id { raw: 2 });
    assert_eq!(p.resolve(id).unwrap().as_str(), "first");
}

#[test]
fn niche_id_reserved_raw_fails_to_decode() {
    let mut p: ArenaSet<String, NonZeroU8Id> = ArenaSet::new().unwrap();
    p.intern(String::from("first")).unwrap();
    assert_eq!(p.resolve(NonZeroU8Id { raw: 0 }), Err(Error::FromIdFailed));
    assert_eq!(p.disintern(NonZeroU8Id { raw: 0 }), Err(Error::FromIdFailed));
}

#[test]
fn wider_id_types() {
    let mut p16: ArenaSet<String, u16> = ArenaSet::new().unwrap();
    assert_eq!(p16.intern(String::from("a")), Ok(0u16));
    assert_eq!(p16.intern(String::from("b")), Ok(1u16));
    assert_eq!(p16.resolve(1u16).unwrap().as_str(), "b");

    let mut p32: ArenaSet<String, u32> = ArenaSet::new().unwrap();
    assert_eq!(p32.intern(String::from("a")), Ok(0u32));
    assert_eq!(p32.disintern(0u32), Ok(String::from("a")));
    assert_eq!(p32.resolve(0u32), Err(Error::InvalidId));
}

#[test]
fn niche_id_shrink_remap() {
    let mut p: ArenaSet<String, NonZeroU8Id> = ArenaSet::new().unwrap();
    assert_eq!(p.intern(String::from("one")), Ok(NonZeroU8Id { raw: 1 }));
    assert_eq!(p.intern(String::from("two")), Ok(NonZeroU8Id { raw: 2 }));
    assert_eq!(p.disintern(NonZeroU8Id { raw: 1 }), Ok(String::from("one")));
    let remap: VecMap<NonZeroU8Id, NonZeroU8Id> = p.shrink();
    assert_eq!(remap.get(&NonZeroU8Id { raw: 2 }), Some(&NonZeroU8Id { raw: 1 }));
    assert_eq!(remap.len(), 1);
    assert_eq!(p.resolve(NonZeroU8Id { raw: 1 }).unwrap().as_str(), "two");
}

#[test]
fn niche_id_space_has_255_values() {
    let mut p: ArenaSet<String, NonZeroU8Id> = ArenaSet::new().unwrap();
    for i in 0..255 {
        let id = p.intern(format!("v{}", i)).unwrap();
        assert_eq!(id, NonZeroU8Id { raw: (i + 1) as u8 });
    }
    assert_eq!(p.intern(String::from("v255")), Err(Error::IdOverflow));
}
