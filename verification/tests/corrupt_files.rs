//! Files that are no maps, or are corrupt in one place.

use ph::fmph::Function;
use persisted_hashmap::bytes::NativeOrder;
use persisted_hashmap::uio::UniversalHashMap;
use persisted_hashmap::universal_io::{ErrorKind, MemoryFile, UniversalIoError};

type IntMap = UniversalHashMap<i64, u32, MemoryFile>;
type TextMap = UniversalHashMap<str, u32, MemoryFile>;

const I64: [u8; 8] = *b"i64\0\0\0\0\0";
const STR: [u8; 8] = *b"str\0\0\0\0\0";

fn file(name: [u8; 8], phf: &[u8], table: &[u64], entries: &[u8]) -> Vec<u8> {
    let mut file = name.to_vec();
    file.extend_from_slice(&(24 + phf.len() as u64).to_ne_bytes());
    file.extend_from_slice(&(table.len() as u64).to_ne_bytes());
    file.extend_from_slice(phf);
    for offset in table {
        file.extend_from_slice(&offset.to_ne_bytes());
    }
    file.extend_from_slice(entries);
    file
}

/// A perfect hash function for one number, which is in bucket 0.
fn phf_of_number(key: i64) -> Vec<u8> {
    let mut bytes = Vec::new();
    Function::from([key].as_slice()).write(&mut bytes).unwrap();
    bytes
}

/// A perfect hash function for one text, which is in bucket 0.
fn phf_of_text(key: &str) -> Vec<u8> {
    let mut bytes = Vec::new();
    Function::from([key].as_slice()).write(&mut bytes).unwrap();
    bytes
}

fn number_entry(key: i64, values: &[u32]) -> Vec<u8> {
    let mut bytes = key.to_ne_bytes().to_vec();
    bytes.extend_from_slice(&(values.len() as u32).to_ne_bytes());
    for value in values {
        bytes.extend_from_slice(&value.to_ne_bytes());
    }
    bytes
}

fn open_int(bytes: Vec<u8>) -> Result<IntMap, UniversalIoError> {
    IntMap::from_storage(NativeOrder::detect(), MemoryFile::new(bytes))
}

fn open_error(bytes: Vec<u8>) -> UniversalIoError {
    match open_int(bytes) {
        Ok(_) => panic!("opened"),
        Err(e) => e,
    }
}

fn is_bad_data(e: UniversalIoError, message: &str) -> bool {
    e.kind() == ErrorKind::InvalidData && e.message() == message
}

#[test]
fn a_file_with_one_entry_is_read_back() {
    let map = open_int(file(I64, &phf_of_number(-7), &[0], &number_entry(-7, &[3, 1, 2]))).unwrap();
    assert_eq!(map.keys_count(), 1);
    assert_eq!(map.get(&-7).unwrap(), Some(vec![3, 1, 2]));
    assert_eq!(map.get_values_count(&-7).unwrap(), Some(3));
    assert_eq!(map.get(&7).unwrap(), None);
    assert_eq!(map.get_values_count(&7).unwrap(), None);
    map.populate().unwrap();
    map.clear_ram_cache().unwrap();
    assert_eq!(map.get(&-7).unwrap(), Some(vec![3, 1, 2]));
}

#[test]
fn an_entry_without_values_is_found() {
    let map = open_int(file(I64, &phf_of_number(5), &[0], &number_entry(5, &[]))).unwrap();
    assert_eq!(map.get(&5).unwrap(), Some(vec![]));
    assert_eq!(map.get_values_count(&5).unwrap(), Some(0));
}

#[test]
fn a_bucket_may_lead_behind_other_bytes() {
    let mut entries = vec![9u8; 16];
    entries.extend_from_slice(&number_entry(5, &[8]));
    let map = open_int(file(I64, &phf_of_number(5), &[16], &entries)).unwrap();
    assert_eq!(map.get(&5).unwrap(), Some(vec![8]));
}

#[test]
fn padding_behind_the_hash_function_is_ignored() {
    let mut phf = phf_of_number(5);
    phf.extend_from_slice(&[0xAB; 13]);
    let map = open_int(file(I64, &phf, &[0], &number_entry(5, &[8]))).unwrap();
    assert_eq!(map.get(&5).unwrap(), Some(vec![8]));
}

#[test]
fn a_file_that_ends_inside_the_header_is_refused() {
    let e = open_error(I64.to_vec());
    assert_eq!(e.kind(), ErrorKind::UnexpectedEof);
    assert_eq!(open_error(Vec::new()).kind(), ErrorKind::UnexpectedEof);
}

#[test]
fn keys_of_another_type_are_refused() {
    let bytes = file(STR, &phf_of_text("a"), &[0], b"");
    assert!(is_bad_data(open_error(bytes), "Key type mismatch"));
}

#[test]
fn a_bucket_table_inside_the_header_is_refused() {
    let mut bytes = I64.to_vec();
    bytes.extend_from_slice(&23u64.to_ne_bytes());
    bytes.extend_from_slice(&0u64.to_ne_bytes());
    assert!(is_bad_data(open_error(bytes), "buckets_pos before header end"));
}

#[test]
fn a_file_that_ends_before_the_bucket_table_is_refused() {
    let mut bytes = I64.to_vec();
    bytes.extend_from_slice(&100u64.to_ne_bytes());
    bytes.extend_from_slice(&0u64.to_ne_bytes());
    assert_eq!(open_error(bytes).kind(), ErrorKind::UnexpectedEof);
}

#[test]
fn a_hash_function_that_is_cut_short_is_refused() {
    let e = open_error(file(I64, &[], &[], b""));
    assert_eq!(e.kind(), ErrorKind::UnexpectedEof);
    assert_eq!(e.message(), "failed to fill whole buffer");
    let phf = phf_of_number(5);
    let e = open_error(file(I64, &phf[..phf.len() - 1], &[], b""));
    assert_eq!(e.kind(), ErrorKind::UnexpectedEof);
}

#[test]
fn a_hash_function_with_an_empty_last_level_answers_for_its_keys() {
    let phf = phf_of_number(5);
    let function = Function::from([5i64].as_slice());
    let levels = function.level_sizes().len();
    let head = phf.len() - 8 * function.level_sizes().iter().sum::<usize>();
    let mut longer = vec![levels as u8 + 1];
    longer.extend_from_slice(&phf[1..head]);
    longer.push(0);
    longer.extend_from_slice(&phf[head..]);
    let map = open_int(file(I64, &longer, &[0], &number_entry(5, &[1, 2]))).unwrap();
    assert_eq!(map.keys_count(), 1);
    assert_eq!(map.get(&5).unwrap(), Some(vec![1, 2]));
    let mut keys: Vec<i64> = Vec::new();
    map.for_each_key(&mut keys).unwrap();
    assert_eq!(keys, vec![5]);
    let mut entries: Vec<(i64, Vec<u32>)> = Vec::new();
    map.for_each_entry(&mut entries).unwrap();
    assert_eq!(entries, vec![(5, vec![1, 2])]);
    // A search that finds nothing runs into the empty level.
    let lost = (6..1000i64).find(|key| function.get(key).is_none()).unwrap();
    assert!(is_bad_data(map.get(&lost).unwrap_err(), "Hash function ends in an empty level"));
    let hit = (6..1000i64).find(|key| function.get(key).is_some()).unwrap();
    assert_eq!(map.get(&hit).unwrap(), None);
}

#[test]
fn a_hash_function_of_empty_levels_opens() {
    let map = open_int(file(I64, &[1, 0], &[], b"")).unwrap();
    assert_eq!(map.keys_count(), 0);
    let mut entries: Vec<(i64, Vec<u32>)> = Vec::new();
    map.for_each_entry(&mut entries).unwrap();
    assert!(entries.is_empty());
    let e = map.get_values_count(&1).unwrap_err();
    assert!(is_bad_data(e, "Hash function ends in an empty level"));
}

#[test]
fn a_hash_function_with_too_many_levels_is_refused() {
    let phf = [0xFF; 9];
    assert!(is_bad_data(open_error(file(I64, &phf, &[], b"")), "Malformed hash function"));
}

#[test]
fn a_bucket_table_that_is_too_long_is_refused() {
    let mut bytes = file(I64, &phf_of_number(5), &[], b"");
    bytes[16..24].copy_from_slice(&u64::MAX.to_ne_bytes());
    assert!(is_bad_data(open_error(bytes), "Bucket table out of range"));
    let mut bytes = file(I64, &phf_of_number(5), &[], b"");
    bytes[16..24].copy_from_slice(&(u64::MAX / 8).to_ne_bytes());
    assert!(is_bad_data(open_error(bytes), "Bucket table out of range"));
}

#[test]
fn a_bucket_beyond_the_file_is_reported() {
    let map = open_int(file(I64, &phf_of_number(5), &[], b"1234567")).unwrap();
    assert!(is_bad_data(map.get(&5).unwrap_err(), "Can't read bucket offset"));
    assert!(is_bad_data(map.get_values_count(&5).unwrap_err(), "Can't read bucket offset"));
}

#[test]
fn an_offset_out_of_range_is_reported() {
    let map = open_int(file(I64, &phf_of_number(5), &[u64::MAX], b"")).unwrap();
    assert!(is_bad_data(map.get(&5).unwrap_err(), "Entry offset out of range"));
    let mut keys: Vec<i64> = Vec::new();
    assert!(is_bad_data(map.for_each_key(&mut keys).unwrap_err(), "Entry offset out of range"));
    assert!(keys.is_empty());
}

#[test]
fn an_entry_beyond_the_file_is_reported() {
    let map = open_int(file(I64, &phf_of_number(5), &[1000], &number_entry(5, &[1]))).unwrap();
    assert!(is_bad_data(map.get(&5).unwrap_err(), "Entry beyond the end of the file"));
}

#[test]
fn an_entry_that_is_cut_short_is_reported_where_it_matters() {
    let entry = number_entry(5, &[1, 2, 3]);
    let cut = |n: usize| open_int(file(I64, &phf_of_number(5), &[0], &entry[..n])).unwrap();
    assert_eq!(cut(entry.len()).get(&5).unwrap(), Some(vec![1, 2, 3]));
    // Inside the values.
    let map = cut(entry.len() - 1);
    assert!(is_bad_data(map.get(&5).unwrap_err(), "Entry beyond the end of the file"));
    assert_eq!(map.get_values_count(&5).unwrap(), Some(3));
    // Inside the number of values.
    let map = cut(11);
    let e = map.get_values_count(&5).unwrap_err();
    assert!(is_bad_data(e, "Entry beyond the end of the file"));
    let mut keys: Vec<i64> = Vec::new();
    map.for_each_key(&mut keys).unwrap();
    assert_eq!(keys, vec![5]);
    // Inside the key.
    let map = cut(7);
    assert!(is_bad_data(map.for_each_key(&mut keys).unwrap_err(), "Entry beyond the end of the file"));
    assert_eq!(keys, vec![5]);
}

#[test]
fn the_keys_of_a_cut_bucket_table_cannot_be_read() {
    let mut bytes = file(I64, &phf_of_number(5), &[0], b"");
    bytes.pop();
    let map = open_int(bytes).unwrap();
    let mut keys: Vec<i64> = Vec::new();
    assert_eq!(map.for_each_key(&mut keys).unwrap_err().kind(), ErrorKind::UnexpectedEof);
    assert!(keys.is_empty());
    let mut entries: Vec<(i64, Vec<u32>)> = Vec::new();
    let e = map.for_each_entry(&mut entries).unwrap_err();
    assert!(is_bad_data(e, "Entries beyond the end of the file"));
    assert!(entries.is_empty());
}

#[test]
fn text_that_is_not_utf8_is_reported() {
    let mut entries = vec![b'a', 0xC0, 0xFF, 0];
    entries.extend_from_slice(&0u32.to_ne_bytes());
    let bytes = file(STR, &phf_of_text("a"), &[0], &entries);
    let map = TextMap::open(bytes, ()).unwrap();
    assert!(is_bad_data(map.get("a").unwrap_err(), "Invalid key"));
    let mut keys: Vec<String> = Vec::new();
    assert!(is_bad_data(map.for_each_key(&mut keys).unwrap_err(), "Invalid key"));
    let mut visited: Vec<(String, Vec<u32>)> = Vec::new();
    assert!(is_bad_data(map.for_each_entry(&mut visited).unwrap_err(), "Invalid key"));
    assert!(visited.is_empty());
}

#[test]
fn bytes_behind_the_last_entry_are_reported() {
    let mut entries = number_entry(5, &[1]);
    entries.extend_from_slice(&number_entry(6, &[2, 3])[..17]);
    let map = open_int(file(I64, &phf_of_number(5), &[0], &entries)).unwrap();
    let mut visited: Vec<(i64, Vec<u32>)> = Vec::new();
    let e = map.for_each_entry(&mut visited).unwrap_err();
    assert!(is_bad_data(e, "Trailing bytes left after parsing all entries"));
    assert_eq!(visited, vec![(5, vec![1])]);
}
