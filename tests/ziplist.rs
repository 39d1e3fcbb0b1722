use toyredis::error::ZLError;
use toyredis::ziplist::{Encoding, ZipEntry, ZipEntryValue, ZipList, ZIPLIST_HEADER_SIZE};

#[test]
fn push_and_pop() {
    let mut zl = ZipList::new();
    assert_eq!(zl.bytes_size(), ZIPLIST_HEADER_SIZE);
    assert_eq!(zl.get_entry_cnt(), 0);
    let mut last_bytes_size = zl.bytes_size();

    zl.push_tail_int(1).unwrap();
    let mut enc = Encoding::Integer(1);
    assert_eq!(zl.bytes_size(), last_bytes_size + 1 + enc.encoding_len_with_content());
    assert_eq!(zl.get_entry_cnt(), 1);
    assert_eq!(zl.tail_offset(), ZIPLIST_HEADER_SIZE);
    last_bytes_size = zl.bytes_size();
    let mut last_tail_offset = zl.tail_offset();
    let mut prevrawlen = 1 + enc.encoding_len_with_content();

    zl.push_tail_string(&vec![1u8; 253]).unwrap();
    enc = Encoding::String(253);
    assert_eq!(enc.encoding_len(), 2);
    assert_eq!(zl.bytes_size(), last_bytes_size + 1 + 2 + 253);
    assert_eq!(zl.get_entry_cnt(), 2);
    assert_eq!(zl.tail_offset(), last_tail_offset + prevrawlen);
    prevrawlen = zl.bytes_size() - last_bytes_size;
    last_bytes_size = zl.bytes_size();
    last_tail_offset = zl.tail_offset();

    zl.push_tail_string(&vec![2u8; 0xffff]).unwrap();
    assert_eq!(zl.bytes_size(), last_bytes_size + 5 + 5 + 0xffff);
    assert_eq!(zl.get_entry_cnt(), 3);
    assert_eq!(zl.tail_offset(), last_tail_offset + prevrawlen);

    let mut iter = zl.iter();
    let (offset, entry) = iter.next(&zl).unwrap();
    assert_eq!(offset, ZIPLIST_HEADER_SIZE);
    assert_eq!(entry.prevrawlen, 0);
}

fn pop_bytes(zl: &mut ZipList) -> Vec<u8> {
    match zl.pop_front() {
        Some(ZipEntryValue::Bytes(b)) => b,
        _ => panic!("expected a string entry"),
    }
}

fn pop_int(zl: &mut ZipList) -> i64 {
    match zl.pop_front() {
        Some(ZipEntryValue::Int(i)) => i,
        _ => panic!("expected an integer entry"),
    }
}

#[test]
fn new_list_then_one_int() {
    let mut zl = ZipList::new();
    assert_eq!(zl.get_entry_cnt(), 0);
    assert_eq!(zl.bytes_size(), 10);
    zl.push_tail_int(1).unwrap();
    assert_eq!(zl.get_entry_cnt(), 1);
}

#[test]
fn strings_round_trip_across_widths() {
    let lengths = [0usize, 63, 64, 16383, 16384, 70000];
    let header = [1usize, 1, 2, 2, 5, 5];
    let mut zl = ZipList::new();
    for (k, n) in lengths.iter().enumerate() {
        let before = zl.bytes_size();
        let content: Vec<u8> = (0..*n).map(|i| (i % 251) as u8).collect();
        zl.push_tail_string(&content).unwrap();
        assert_eq!(Encoding::String(*n).encoding_len(), header[k]);
        assert!(zl.bytes_size() > before + n);
    }
    assert_eq!(zl.get_entry_cnt(), lengths.len());
    for n in lengths.iter() {
        let content: Vec<u8> = (0..*n).map(|i| (i % 251) as u8).collect();
        assert_eq!(pop_bytes(&mut zl), content);
    }
    assert_eq!(zl.get_entry_cnt(), 0);
    assert_eq!(zl.bytes_size(), ZIPLIST_HEADER_SIZE);
    assert!(zl.pop_front().is_none());
}

#[test]
fn integers_round_trip_across_widths() {
    let values: Vec<i64> = vec![
        0, 12, 13, -1, 127, 128, -128, -129, 32767, 32768, -32768, -32769, 8388607, 8388608, -8388608,
        -8388609, 2147483647, 2147483648, -2147483648, -2147483649, i64::MAX, i64::MIN,
    ];
    let widths: Vec<usize> = vec![
        1, 1, 2, 2, 2, 3, 2, 3, 3, 4, 3, 4, 4, 5, 4, 5, 5, 9, 5, 9, 9, 9,
    ];
    let mut zl = ZipList::new();
    for (k, v) in values.iter().enumerate() {
        assert_eq!(Encoding::Integer(*v).encoding_len(), widths[k]);
        zl.push_tail_int(*v).unwrap();
    }
    let mut iter = zl.iter();
    for v in values.iter() {
        let (offset, _entry) = iter.next(&zl).unwrap();
        match zl.value_at(offset).unwrap() {
            ZipEntryValue::Int(i) => assert_eq!(i, *v),
            _ => panic!("expected an integer entry"),
        }
    }
    assert!(iter.next(&zl).is_none());
    for v in values.iter() {
        assert_eq!(pop_int(&mut zl), *v);
    }
}

#[test]
fn encoding_bytes() {
    assert_eq!(Encoding::String(5).encoding_bytes_by_index(0), Some(5));
    assert_eq!(Encoding::String(5).encoding_bytes_by_index(1), None);
    assert_eq!(Encoding::String(300).encoding_bytes_by_index(0), Some(0x41));
    assert_eq!(Encoding::String(300).encoding_bytes_by_index(1), Some(44));
    assert_eq!(Encoding::String(70000).encoding_bytes_by_index(0), Some(0x80));
    assert_eq!(Encoding::String(70000).encoding_bytes_by_index(2), Some(0x01));
    assert_eq!(Encoding::String(70000).encoding_bytes_by_index(4), Some(0x70));
    assert_eq!(Encoding::Integer(5).encoding_bytes_by_index(0), Some(0xf6));
    assert_eq!(Encoding::Integer(-1).encoding_bytes_by_index(0), Some(0xfe));
    assert_eq!(Encoding::Integer(-1).encoding_bytes_by_index(1), Some(0xff));
    assert_eq!(Encoding::Integer(300).encoding_bytes_by_index(0), Some(0xc0));
    assert_eq!(Encoding::Integer(300).encoding_bytes_by_index(1), Some(0x01));
    assert_eq!(Encoding::Integer(300).encoding_bytes_by_index(2), Some(0x2c));
    assert_eq!(Encoding::Integer(300).encoding_bytes_by_index(3), None);
}

#[test]
fn pop_front_cascades_prevrawlen_widths() {
    let mut zl = ZipList::new();
    zl.push_tail_string(&vec![7u8; 300]).unwrap();
    zl.push_tail_string(&vec![8u8; 250]).unwrap();
    zl.push_tail_int(42).unwrap();
    zl.push_tail_string(b"tail").unwrap();
    assert_eq!(zl.get_entry_cnt(), 4);
    let mut iter = zl.iter();
    let _ = iter.next(&zl).unwrap();
    let (_, second) = iter.next(&zl).unwrap();
    assert_eq!(second.prevrawlen_size, 5);
    let (_, third) = iter.next(&zl).unwrap();
    assert_eq!(third.prevrawlen, 5 + 2 + 250);
    assert_eq!(third.prevrawlen_size, 5);

    assert_eq!(pop_bytes(&mut zl), vec![7u8; 300]);
    assert_eq!(zl.get_entry_cnt(), 3);
    let mut iter = zl.iter();
    let (o1, first) = iter.next(&zl).unwrap();
    assert_eq!(o1, ZIPLIST_HEADER_SIZE);
    assert_eq!(first.prevrawlen, 0);
    assert_eq!(first.prevrawlen_size, 1);
    let (o2, second) = iter.next(&zl).unwrap();
    assert_eq!(second.prevrawlen, 1 + 2 + 250);
    assert_eq!(second.prevrawlen_size, 1);
    assert_eq!(o2, o1 + 253);
    let (o3, third) = iter.next(&zl).unwrap();
    assert_eq!(third.prevrawlen, 1 + 2);
    assert_eq!(zl.tail_offset(), o3);
    assert!(iter.next(&zl).is_none());
    assert_eq!(zl.bytes_size(), ZIPLIST_HEADER_SIZE + 253 + 3 + 6);

    assert_eq!(pop_bytes(&mut zl), vec![8u8; 250]);
    assert_eq!(pop_int(&mut zl), 42);
    assert_eq!(pop_bytes(&mut zl), b"tail".to_vec());
    assert_eq!(zl.get_entry_cnt(), 0);
}

#[test]
fn saturated_count_is_recomputed() {
    let mut zl = ZipList::new();
    for i in 0..65540i64 {
        zl.push_tail_int(i % 10).unwrap();
    }
    assert_eq!(zl.get_entry_cnt(), 65540);
    assert_eq!(pop_int(&mut zl), 0);
    assert_eq!(zl.get_entry_cnt(), 65539);
    for _ in 0..10 {
        zl.pop_front().unwrap();
    }
    assert_eq!(zl.get_entry_cnt(), 65529);
}

#[test]
fn parse_errors() {
    let bad_tag = vec![0u8, 0xff];
    assert!(matches!(ZipEntry::parse(&bad_tag, 0), Err(ZLError::InvalidEntryEncoding)));
    let truncated = vec![0u8, 0xfe];
    assert!(matches!(ZipEntry::parse(&truncated, 0), Err(ZLError::Zlend)));
    let short_content = vec![0u8, 3, b'a'];
    assert!(matches!(ZipEntry::parse(&short_content, 0), Err(ZLError::Zlend)));
    let zl = ZipList::new();
    assert!(matches!(zl.value_at(1000), Err(ZLError::OutOfRange(1000))));
    assert_eq!(ZLError::Zlend.message(), "unexpected end of buffer");
}

#[test]
fn value_accessors() {
    let b = ZipEntryValue::Bytes(vec![1, 2, 3]);
    assert_eq!(b.unwrap_bytes(), &[1u8, 2, 3][..]);
    let i = ZipEntryValue::Int(-7);
    assert_eq!(i.unwrap_int(), -7);
    assert!(Encoding::String(3).is_str());
    assert!(!Encoding::Integer(3).is_str());
    assert_eq!(Encoding::String(3).unwrap_str(), 3);
    assert_eq!(Encoding::Integer(-3).unwrap_int(), -3);
    assert_eq!(Encoding::String(70000).encoding_len_with_content(), 70005);
    assert_eq!(ZipEntry::prevrawlen_size(253), 1);
    assert_eq!(ZipEntry::prevrawlen_size(254), 5);
}

#[test]
fn error_messages() {
    assert_eq!(ZLError::Invalid("bad list".to_string()).message(), "bad list");
    assert_eq!(ZLError::InvalidEntry("bad entry".to_string()).message(), "bad entry");
    assert_eq!(ZLError::InvalidEntryEncoding.message(), "invalid entry encoding");
    assert_eq!(ZLError::OutOfRange(3).message(), "offset out of range");
    assert_eq!(ZLError::Unknown("other".to_string()).message(), "other");
}
