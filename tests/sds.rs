use toyredis::sds::{SmartString, MAX_PREALLOC, SDS};

#[test]
fn sds_basis() {
    let mut sds = SDS::empty();
    assert_eq!(sds.len(), 0);
    assert_eq!(sds.free(), 0);
    assert_eq!(sds.capacity(), 0);

    let piece = "little string".as_bytes();
    let mut last_len;
    let mut last_cap;
    sds.append(piece);
    assert_eq!(sds.len(), piece.len());
    assert_eq!(sds.capacity(), 2 * piece.len());
    assert_eq!(sds.free(), sds.capacity() - sds.len());

    assert_eq!(sds.val(), piece);

    last_len = sds.len();
    last_cap = sds.capacity();

    let append = " again".as_bytes();
    sds.append(append);
    assert_eq!(sds.len(), last_len + append.len());
    assert_eq!(sds.val(), [piece, append].concat());
    assert_eq!(sds.capacity(), last_cap);
    assert_eq!(sds.free(), sds.capacity() - sds.len());

    last_len = sds.len();

    sds.append("1234567890".as_bytes());
    assert_eq!(sds.len(), last_len + 10);
    assert_eq!(sds.capacity(), 2 * (last_len + 10));
    assert_eq!(sds.free(), sds.capacity() - sds.len());

    last_len = sds.len();

    sds.append(&vec![1u8; MAX_PREALLOC]);
    assert_eq!(sds.len(), last_len + MAX_PREALLOC);
    assert_eq!(sds.capacity(), sds.len() + MAX_PREALLOC);
    assert_eq!(sds.free(), sds.capacity() - sds.len());

    last_len = sds.len();
    sds.append(&vec![2u8; MAX_PREALLOC]);
    assert_eq!(sds.len(), last_len + MAX_PREALLOC);
    assert_eq!(sds.capacity(), sds.len());
    assert_eq!(sds.free(), sds.capacity() - sds.len());

    last_len = sds.len();
    last_cap = sds.capacity();
    println!("last len: {}, last_cap: {}", last_len, last_cap);
    sds.append(&vec![1]);
    assert_eq!(sds.len(), last_len + 1);
    assert_eq!(sds.capacity(), last_cap + 1 + MAX_PREALLOC);

    sds.clear();
    assert_eq!(sds.len(), 0);
    assert_eq!(sds.free(), 0);
    assert_eq!(sds.capacity(), 0);
}

#[test]
fn sds_new_sizes_by_growth_rule() {
    let s = SDS::new(b"abc");
    assert_eq!(s.value(), b"abc");
    assert_eq!(s.capacity(), 6);
    assert_eq!(s.free(), 3);
    let e = SDS::new(b"");
    assert_eq!(e.len(), 0);
    assert_eq!(e.capacity(), 0);
}

#[test]
fn sds_append_within_free_keeps_buffer() {
    let mut s = SDS::new(b"ab");
    assert_eq!(s.capacity(), 4);
    s.append_bytes(b"cd");
    assert_eq!(s.value(), b"abcd");
    assert_eq!(s.capacity(), 4);
    assert_eq!(s.free(), 0);
    s.append_bytes(b"e");
    assert_eq!(s.value(), b"abcde");
    assert_eq!(s.capacity(), 10);
}

#[test]
fn move_bytes() {
    let mut v = Vec::new();
    for i in 0..5 {
        v.push(i as u8);
    }
    v.copy_within(3.., 1);
    assert_eq!(v, vec![0, 3, 4, 3, 4]);
}

#[test]
fn sds_equality_ignores_spare_capacity() {
    let a = SDS::new(b"abcd");
    let mut b = SDS::new(b"ab");
    b.append_bytes(b"cd");
    assert_ne!(a.capacity(), b.capacity());
    assert!(a == b);
    let c = SDS::new(b"abce");
    assert!(a != c);
    assert!(SDS::empty() == SDS::new(b""));
}
