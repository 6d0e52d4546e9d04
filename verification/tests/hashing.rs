use onebrc::fnv::{Fnv1aHashBuilder, Fnv1aHasher, FNV_OFFSET_BASIS};
use std::hash::{BuildHasher, Hasher};

#[test]
fn fnv1a_of_known_inputs() {
    let mut h = Fnv1aHasher::new();
    assert_eq!(h.finish(), FNV_OFFSET_BASIS);
    h.write(b"a");
    assert_eq!(h.finish(), 0xaf63dc4c8601ec8c);
    let mut h = Fnv1aHasher::default();
    Hasher::write(&mut h, b"hello");
    assert_eq!(Hasher::finish(&h), 0xa430d84680aabd0b);
}

#[test]
fn fnv1a_streams() {
    let mut a = Fnv1aHasher::new();
    a.write(b"hel");
    a.write(b"lo");
    let mut b = Fnv1aHashBuilder.build_hasher();
    b.write(b"hello");
    assert_eq!(a.finish(), b.finish());
}

#[test]
fn fnv1a_builds_a_hash_map() {
    let mut m: std::collections::HashMap<&[u8], i32, Fnv1aHashBuilder> =
        std::collections::HashMap::with_hasher(Fnv1aHashBuilder);
    m.insert(b"Oslo", 1);
    m.insert(b"Rome", 2);
    assert_eq!(m.get(&b"Oslo"[..]), Some(&1));
    assert_eq!(BuildHasher::build_hasher(&Fnv1aHashBuilder).finish(), FNV_OFFSET_BASIS);
}
