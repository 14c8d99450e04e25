//! The parts that a map is made of, on small values.

use ph::fmph::Function;
use persisted_hashmap::bytes::NativeOrder;
use persisted_hashmap::entry::{PartialEntry, PartialEntryKind};
use persisted_hashmap::header::Header;
use persisted_hashmap::key::{Key, KeyParse};
use persisted_hashmap::phf::{Phf, PhfFault};
use persisted_hashmap::sparse::parse_entry_offset;
use persisted_hashmap::universal_io::{
    uio_data_err, Access, ErrorKind, MemoryFile, ReadRange, UniversalRead,
};
use persisted_hashmap::value::Value;

#[test]
fn integers_are_read_in_native_order() {
    let order = NativeOrder::detect();
    assert_eq!(order.decode_u32(&0x0102_0304u32.to_ne_bytes()), 0x0102_0304);
    assert_eq!(order.decode_u64(&0x0102_0304_0506_0708u64.to_ne_bytes()), 0x0102_0304_0506_0708);
    let wide = 0x0102_0304_0506_0708_090A_0B0C_0D0E_0F10u128;
    assert_eq!(order.decode(&wide.to_ne_bytes()), wide);
    assert_eq!(order.decode(&[]), 0);
}

#[test]
fn values_are_read_from_their_stored_form() {
    let order = NativeOrder::detect();
    assert_eq!(<u32 as Value>::parse(&order, &77u32.to_ne_bytes()), 77);
    assert_eq!(<u64 as Value>::parse(&order, &u64::MAX.to_ne_bytes()), u64::MAX);
    assert_eq!(<u128 as Value>::parse(&order, &5u128.to_ne_bytes()), 5);
    assert_eq!(<u32 as Value>::byte_size(), 4);
    assert_eq!(<u64 as Value>::byte_size(), 8);
    assert_eq!(<u128 as Value>::byte_size(), 16);
}

fn parsed<O>(parse: KeyParse<O>) -> Option<(O, usize)> {
    match parse {
        KeyParse::Done(key, used) => Some((key, used)),
        _ => None,
    }
}

#[test]
fn number_keys_are_read_from_their_stored_form() {
    let order = NativeOrder::detect();
    for key in [0, 1, -1, i64::MIN, i64::MAX] {
        let mut bytes = key.to_ne_bytes().to_vec();
        assert!(matches!(<i64 as Key>::parse(&order, &bytes[..7]), KeyParse::NeedMore));
        bytes.push(0xEE);
        assert_eq!(parsed(<i64 as Key>::parse(&order, &bytes)), Some((key, 8)));
    }
    for key in [0, u128::MAX, 1 << 100] {
        let bytes = key.to_ne_bytes();
        assert!(matches!(<u128 as Key>::parse(&order, &bytes[..15]), KeyParse::NeedMore));
        assert_eq!(parsed(<u128 as Key>::parse(&order, &bytes)), Some((key, 16)));
    }
}

#[test]
fn text_keys_end_at_a_byte_that_no_text_holds() {
    let order = NativeOrder::detect();
    let key = "na\u{ef}ve \u{1F980}";
    let mut bytes = key.as_bytes().to_vec();
    assert!(matches!(<str as Key>::parse(&order, &bytes), KeyParse::NeedMore));
    bytes.push(0xFF);
    bytes.push(0xFF);
    assert_eq!(
        parsed(<str as Key>::parse(&order, &bytes)),
        Some((key.to_string(), key.len() + 1))
    );
    assert_eq!(parsed(<str as Key>::parse(&order, &[0xFF])), Some((String::new(), 1)));
    assert!(matches!(<str as Key>::parse(&order, &[0xC0, 0xFF]), KeyParse::Invalid));
}

#[test]
fn keys_know_their_names_and_sizes() {
    assert_eq!(&<str as Key>::key_type(), b"str\0\0\0\0\0");
    assert_eq!(&<i64 as Key>::key_type(), b"i64\0\0\0\0\0");
    assert_eq!(&<u128 as Key>::key_type(), b"u128\0\0\0\0");
    assert_eq!((<str as Key>::align(), <str as Key>::value_size_est()), (1, 512));
    assert_eq!((<i64 as Key>::align(), <i64 as Key>::value_size_est()), (8, 8));
    assert_eq!((<u128 as Key>::align(), <u128 as Key>::value_size_est()), (16, 16));
    assert!("a".is_key(&"a".to_string()) && !"a".is_key(&"b".to_string()));
    assert!(!"a".is_key(&"aa".to_string()));
    assert_eq!("key".to_owned_key(), "key");
    assert_eq!(<str as Key>::as_key(&"key".to_string()), "key");
}

#[test]
fn the_first_read_makes_room_for_what_is_wanted() {
    assert_eq!(PartialEntryKind::KeyOnly.estimated_size::<i64, u32>(), 8);
    assert_eq!(PartialEntryKind::KeyAndValuesLen.estimated_size::<i64, u32>(), 12);
    assert_eq!(PartialEntryKind::KeyAndValues.estimated_size::<i64, u32>(), 12 + 16 * 4);
    assert_eq!(PartialEntryKind::KeyAndValues.estimated_size::<i64, u128>(), 8 + 16 + 16 * 16);
    assert_eq!(PartialEntryKind::KeyOnly.estimated_size::<str, u64>(), 512);
    assert_eq!(PartialEntryKind::KeyAndValues.estimated_size::<str, u64>(), 512 + 8 + 16 * 8);
}

/// The entry of the text `ab` with the values 10 and 20, which takes 16 bytes.
fn text_entry() -> Vec<u8> {
    let mut bytes = vec![b'a', b'b', 0xFF, 0];
    bytes.extend_from_slice(&2u32.to_ne_bytes());
    bytes.extend_from_slice(&10u32.to_ne_bytes());
    bytes.extend_from_slice(&20u32.to_ne_bytes());
    bytes
}

type TextEntry = PartialEntry<str, u32>;

#[test]
fn an_entry_is_read_as_far_as_it_is_there() {
    let order = NativeOrder::detect();
    let bytes = text_entry();
    for n in 0..=bytes.len() {
        let entry = TextEntry::parse(&order, 0, &bytes[..n]).unwrap();
        assert_eq!(entry.key().is_some(), n >= 3);
        assert_eq!(entry.key().unwrap_or("ab"), "ab");
        assert_eq!(entry.values_len(), if n >= 8 { Some(2) } else { None });
        assert_eq!(entry.satisfies_kind(PartialEntryKind::KeyOnly), n >= 3);
        assert_eq!(entry.satisfies_kind(PartialEntryKind::KeyAndValuesLen), n >= 8);
        assert_eq!(entry.satisfies_kind(PartialEntryKind::KeyAndValues), n >= 16);
        assert_eq!(entry.has_other_key("ab"), false);
        assert_eq!(entry.has_other_key("ac"), n >= 3);
        assert_eq!(entry.values(), if n >= 16 { Some(vec![10, 20]) } else { None });
    }
}

#[test]
fn an_entry_says_where_it_ends() {
    let order = NativeOrder::detect();
    let mut bytes = text_entry();
    bytes.extend_from_slice(b"more");
    match TextEntry::parse(&order, 0, &bytes).unwrap() {
        PartialEntry::KeyAndValues(_, _, end) => assert_eq!(end, 16),
        _ => panic!("incomplete"),
    }
    assert!(TextEntry::parse(&order, 0, &[0x80, 0xFF]).is_err());
}

#[test]
fn the_padding_in_front_of_an_entry_is_skipped() {
    let order = NativeOrder::detect();
    let mut bytes = vec![0u8; 3];
    bytes.extend_from_slice(&9i64.to_ne_bytes());
    bytes.extend_from_slice(&1u32.to_ne_bytes());
    bytes.extend_from_slice(&7u32.to_ne_bytes());
    match PartialEntry::<i64, u32>::parse(&order, 21, &bytes).unwrap() {
        PartialEntry::KeyAndValues(key, values, end) => {
            assert_eq!((key, values, end), (9, vec![7], 19));
        }
        _ => panic!("incomplete"),
    }
    let short = PartialEntry::<i64, u32>::parse(&order, 21, &bytes[..2]).unwrap();
    assert!(matches!(short, PartialEntry::Incomplete));
}

#[test]
fn wide_values_start_at_a_multiple_of_their_size() {
    let order = NativeOrder::detect();
    let mut bytes = 9i64.to_ne_bytes().to_vec();
    bytes.extend_from_slice(&1u32.to_ne_bytes());
    bytes.extend_from_slice(&[0; 12]);
    bytes.extend_from_slice(&7u128.to_ne_bytes());
    let entry = PartialEntry::<i64, u128>::parse(&order, 0, &bytes).unwrap();
    assert_eq!(entry.values(), Some(vec![7]));
}

#[test]
fn the_header_is_read_from_the_front() {
    let order = NativeOrder::detect();
    let mut bytes = b"somekey1".to_vec();
    bytes.extend_from_slice(&1234u64.to_ne_bytes());
    bytes.extend_from_slice(&5678u64.to_ne_bytes());
    assert!(Header::read_from_prefix(&order, &bytes[..23]).is_none());
    assert!(Header::read_from_prefix(&order, &bytes[..15]).is_none());
    assert!(Header::read_from_prefix(&order, &bytes[..7]).is_none());
    bytes.push(1);
    let header = Header::read_from_prefix(&order, &bytes).unwrap();
    assert_eq!(&header.key_type, b"somekey1");
    assert_eq!((header.buckets_pos, header.buckets_count), (1234, 5678));
}

#[test]
fn a_bucket_offset_takes_eight_bytes() {
    let order = NativeOrder::detect();
    assert_eq!(parse_entry_offset(&order, &99u64.to_ne_bytes()).unwrap(), 99);
    for wrong in [0usize, 7, 9] {
        let e = parse_entry_offset(&order, &vec![0; wrong]).unwrap_err();
        assert_eq!(e.kind(), ErrorKind::InvalidData);
        assert_eq!(e.message(), "Can't read bucket offset");
    }
}

#[test]
fn bad_data_is_reported_with_a_message() {
    let e = uio_data_err("what is wrong");
    assert_eq!(e.kind(), ErrorKind::InvalidData);
    assert_eq!(e.message(), "what is wrong");
}

#[test]
fn ranges_are_cut_at_the_end_of_the_file() {
    assert_eq!(ReadRange::new(10, 5).clamp(20), ReadRange::new(10, 5));
    assert_eq!(ReadRange::new(10, 5).clamp(12), ReadRange::new(10, 2));
    assert_eq!(ReadRange::new(10, 5).clamp(10), ReadRange::new(10, 0));
    assert_eq!(ReadRange::new(10, 5).clamp(3), ReadRange::new(3, 0));
    assert_eq!(ReadRange::new(10, u64::MAX).clamp(100), ReadRange::new(10, 90));
}

#[test]
fn ranges_are_cut_into_parts() {
    let range = ReadRange::new(100, 40000);
    assert_eq!(range.autochunk(0), Some(ReadRange::new(100, 16384)));
    assert_eq!(range.autochunk(1), Some(ReadRange::new(16484, 16384)));
    assert_eq!(range.autochunk(2), Some(ReadRange::new(32868, 7232)));
    assert_eq!(range.autochunk(3), None);
    assert_eq!(range.autochunk(u64::MAX), None);
    assert_eq!(ReadRange::new(100, 0).autochunk(0), None);
}

#[test]
fn a_storage_in_memory_delivers_its_bytes() {
    let file = MemoryFile::new((0..100).collect());
    assert_eq!(file.len().unwrap(), 100);
    let range = ReadRange::new(10, 3);
    assert_eq!(file.read(Access::Random, range).unwrap(), vec![10, 11, 12]);
    let e = file.read(Access::Random, ReadRange::new(99, 2)).unwrap_err();
    assert_eq!(e.kind(), ErrorKind::UnexpectedEof);
    assert!(file.read(Access::Random, ReadRange::new(u64::MAX, 2)).is_err());

    let mut pipeline = MemoryFile::new_pipeline().unwrap();
    assert!(MemoryFile::wait(&mut pipeline).unwrap().is_none());
    assert!(MemoryFile::can_schedule(&pipeline));
    file.schedule(&mut pipeline, 7, Access::Random, range).unwrap();
    file.schedule(&mut pipeline, 3, Access::Random, ReadRange::new(0, 1)).unwrap();
    assert_eq!(MemoryFile::wait(&mut pipeline).unwrap(), Some((3, vec![0])));
    assert_eq!(MemoryFile::wait(&mut pipeline).unwrap(), Some((7, vec![10, 11, 12])));
    assert!(MemoryFile::wait(&mut pipeline).unwrap().is_none());
}

#[test]
fn a_storage_in_memory_takes_sixteen_reads_at_a_time() {
    let file = MemoryFile::new(vec![1, 2, 3]);
    let mut pipeline = MemoryFile::new_pipeline().unwrap();
    for tag in 0..16 {
        assert!(MemoryFile::can_schedule(&pipeline));
        file.schedule(&mut pipeline, tag, Access::Random, ReadRange::new(0, 1)).unwrap();
    }
    assert!(!MemoryFile::can_schedule(&pipeline));
    MemoryFile::wait(&mut pipeline).unwrap();
    assert!(MemoryFile::can_schedule(&pipeline));
}

#[test]
fn hash_functions_are_checked_before_they_are_read() {
    let order = NativeOrder::detect();
    let fault = |bytes: &[u8]| Phf::read(&order, bytes).err();
    assert!(fault(&[]) == Some(PhfFault::Truncated));
    assert!(fault(&[0]).is_none());
    assert!(fault(&[1]) == Some(PhfFault::Truncated));
    assert!(fault(&[1, 1, 0, 0, 0, 0, 0, 0, 0]) == Some(PhfFault::Truncated));
    assert!(fault(&[1, 1, 0, 0, 0, 0, 0, 0, 0, 0]).is_none());
    assert!(fault(&[1, 0]).is_none());
    assert!(fault(&[0xFF; 9]) == Some(PhfFault::Malformed));
    assert!(fault(&[0x80, 0x80]) == Some(PhfFault::Truncated));
    let empty = Phf::read(&order, &[0]).unwrap_or_else(|_| panic!("refused"));
    assert!(!empty.is_open_ended());
    assert_eq!(5i64.slot(&empty, &order), None);
    assert_eq!("five".slot(&empty, &order), None);
    assert_eq!(5u128.slot(&empty, &order), None);
}

#[test]
fn a_hash_function_is_truncated_unless_there_is_no_memory_for_its_words() {
    let order = NativeOrder::detect();
    let one_level_of_two_to_the = |exponent: u32| {
        let mut bytes = vec![1];
        bytes.resize(1 + (exponent / 7) as usize, 0x80);
        bytes.push(1 << (exponent % 7));
        Phf::read(&order, &bytes).err()
    };
    assert!(one_level_of_two_to_the(10) == Some(PhfFault::Truncated));
    assert!(one_level_of_two_to_the(usize::BITS - 5) == Some(PhfFault::Truncated));
    assert!(one_level_of_two_to_the(usize::BITS - 4) == Some(PhfFault::Malformed));
}

#[test]
fn empty_levels_at_the_end_of_a_hash_function_change_no_bucket() {
    let order = NativeOrder::detect();
    let keys: Vec<i64> = (0..1000).collect();
    let function = Function::from(keys.as_slice());
    let levels = function.level_sizes().len();
    assert!(levels < 100);
    let mut bytes = Vec::new();
    function.write(&mut bytes).unwrap();
    let words = 8 * function.level_sizes().iter().sum::<usize>();
    let head = bytes.len() - words;
    for more in [1usize, 2, 200] {
        let count = levels + more;
        // The number of levels, in one byte or in two.
        let mut longer = if count < 128 {
            vec![count as u8]
        } else {
            vec![(128 + count % 128) as u8, (count / 128) as u8]
        };
        longer.extend_from_slice(&bytes[1..head]);
        longer.extend_from_slice(&vec![0; more]);
        longer.extend_from_slice(&bytes[head..]);
        longer.extend_from_slice(b"padding");
        let phf = Phf::read(&order, &longer).unwrap_or_else(|_| panic!("refused"));
        assert!(phf.is_open_ended());
        for key in &keys {
            assert_eq!(key.slot(&phf, &order), function.get(key));
        }
        for key in 1000..2000i64 {
            assert_eq!(key.slot(&phf, &order), function.get(&key));
        }
    }
    let whole = Phf::read(&order, &bytes).unwrap_or_else(|_| panic!("refused"));
    assert!(!whole.is_open_ended());
    assert_eq!(7i64.slot(&whole, &order), function.get(&7i64));
}
