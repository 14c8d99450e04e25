//! What visitors are told, and how a visit ends.

use ph::fmph::Function;
use persisted_hashmap::key::Key;
use persisted_hashmap::uio::UniversalHashMap;
use persisted_hashmap::universal_io::{MemoryFile, UniversalIoError};
use persisted_hashmap::visit::{BatchHandler, EntryHandler, KeyHandler, Recorder};

type IntMap = UniversalHashMap<i64, u32, MemoryFile>;

/// A map of the numbers below `count`; the values of `n` are the numbers below `n % 5`.
fn small_map(count: i64) -> IntMap {
    let keys: Vec<i64> = (0..count).collect();
    let phf = Function::from(keys.as_slice());
    let mut table = vec![0u64; keys.len()];
    let mut entries: Vec<u8> = Vec::new();
    for key in &keys {
        while entries.len() % 8 != 0 {
            entries.push(0);
        }
        table[phf.get(key).unwrap() as usize] = entries.len() as u64;
        entries.extend_from_slice(&key.to_ne_bytes());
        let values = values_of(*key);
        entries.extend_from_slice(&(values.len() as u32).to_ne_bytes());
        for value in values {
            entries.extend_from_slice(&value.to_ne_bytes());
        }
    }
    let mut phf_bytes = Vec::new();
    phf.write(&mut phf_bytes).unwrap();
    let mut file = b"i64\0\0\0\0\0".to_vec();
    file.extend_from_slice(&(24 + phf_bytes.len() as u64).to_ne_bytes());
    file.extend_from_slice(&(count as u64).to_ne_bytes());
    file.extend_from_slice(&phf_bytes);
    for offset in table {
        file.extend_from_slice(&offset.to_ne_bytes());
    }
    file.extend_from_slice(&entries);
    IntMap::open(file, ()).unwrap()
}

fn values_of(key: i64) -> Vec<u32> {
    (0..(key % 5) as u32).collect()
}

/// An error of the caller's own.
#[derive(Debug, PartialEq)]
enum Stop {
    Here(i64),
    Io(String),
}

impl From<UniversalIoError> for Stop {
    fn from(e: UniversalIoError) -> Stop {
        Stop::Io(e.message().to_string())
    }
}

/// Counts calls, and fails at the one with the number `fail_at`.
struct FailAt {
    calls: i64,
    fail_at: i64,
}

impl FailAt {
    fn step(&mut self) -> Result<(), Stop> {
        self.calls += 1;
        if self.calls == self.fail_at {
            Err(Stop::Here(self.calls))
        } else {
            Ok(())
        }
    }
}

impl<K: Key + ?Sized> KeyHandler<K> for FailAt {
    type Error = Stop;

    fn handle(&mut self, _: &K) -> Result<(), Stop> {
        self.step()
    }
}

impl<K: Key + ?Sized, V> EntryHandler<K, V> for FailAt {
    type Error = Stop;

    fn handle(&mut self, _: &K, _: &[V]) -> Result<(), Stop> {
        self.step()
    }
}

impl<Meta, V> BatchHandler<Meta, V> for FailAt {
    type Error = Stop;

    fn handle(&mut self, _: Meta, _: Option<&[V]>) -> Result<(), Stop> {
        self.step()
    }
}

#[test]
fn entries_are_visited_in_the_order_of_the_file() {
    let map = small_map(30000);
    let mut entries: Vec<(i64, Vec<u32>)> = Vec::new();
    map.for_each_entry(&mut entries).unwrap();
    let expected: Vec<(i64, Vec<u32>)> = (0..30000).map(|key| (key, values_of(key))).collect();
    assert_eq!(entries, expected);
}

#[test]
fn an_entry_that_spans_many_parts_is_read_whole() {
    let values: Vec<u32> = (0..200_000).rev().collect();
    let phf = Function::from([5i64].as_slice());
    let mut phf_bytes = Vec::new();
    phf.write(&mut phf_bytes).unwrap();
    let mut file = b"i64\0\0\0\0\0".to_vec();
    file.extend_from_slice(&(24 + phf_bytes.len() as u64).to_ne_bytes());
    file.extend_from_slice(&1u64.to_ne_bytes());
    file.extend_from_slice(&phf_bytes);
    file.extend_from_slice(&0u64.to_ne_bytes());
    file.extend_from_slice(&5i64.to_ne_bytes());
    file.extend_from_slice(&(values.len() as u32).to_ne_bytes());
    for value in &values {
        file.extend_from_slice(&value.to_ne_bytes());
    }
    let map = IntMap::open(file, ()).unwrap();
    let mut entries: Vec<(i64, Vec<u32>)> = Vec::new();
    map.for_each_entry(&mut entries).unwrap();
    assert_eq!(entries, vec![(5, values.clone())]);
    assert_eq!(map.get(&5).unwrap(), Some(values));
    assert_eq!(map.get_values_count(&5).unwrap(), Some(200_000));
}

#[test]
fn keys_are_visited_once_each() {
    let map = small_map(500);
    let mut keys: Vec<i64> = Vec::new();
    map.for_each_key(&mut keys).unwrap();
    keys.sort();
    assert_eq!(keys, (0..500).collect::<Vec<i64>>());
    assert_eq!(map.keys_count(), 500);
}

#[test]
fn a_batch_is_answered_with_the_values_of_each_key() {
    let map = small_map(50);
    let asked: Vec<i64> = vec![7, 1000, 3, 7, -1, 49, 0];
    let keys: Vec<(usize, &i64)> = asked.iter().enumerate().collect();
    let mut answers: Vec<(usize, Option<Vec<u32>>)> = Vec::new();
    map.batch_with_entry(keys, &mut answers).unwrap();
    answers.sort();
    let expected: Vec<(usize, Option<Vec<u32>>)> = asked
        .iter()
        .map(|key| if (0..50).contains(key) { Some(values_of(*key)) } else { None })
        .enumerate()
        .collect();
    assert_eq!(answers, expected);
    for (i, values) in answers {
        assert_eq!(map.get(&asked[i]).unwrap(), values);
        assert_eq!(map.get_values_count(&asked[i]).unwrap(), values.map(|values| values.len()));
    }
}

#[test]
fn an_empty_batch_is_answered_with_nothing() {
    let map = small_map(5);
    let mut answers: Vec<((), Option<Vec<u32>>)> = Vec::new();
    map.batch_with_entry(Vec::new(), &mut answers).unwrap();
    assert!(answers.is_empty());
}

#[test]
fn a_list_keeps_what_it_held() {
    let map = small_map(2);
    let mut entries: Vec<(i64, Vec<u32>)> = vec![(77, vec![1])];
    map.for_each_entry(&mut entries).unwrap();
    assert_eq!(entries, vec![(77, vec![1]), (0, vec![]), (1, vec![0])]);
}

#[test]
fn a_visitor_that_fails_ends_the_visit() {
    let map = small_map(100);
    let mut visitor = Recorder::new(FailAt { calls: 0, fail_at: 7 });
    assert_eq!(map.for_each_key(&mut visitor), Err(Stop::Here(7)));
    assert_eq!(visitor.into_handler().calls, 7);

    let mut visitor = Recorder::new(FailAt { calls: 0, fail_at: 9 });
    assert_eq!(map.for_each_entry(&mut visitor), Err(Stop::Here(9)));
    assert_eq!(visitor.into_handler().calls, 9);

    let keys: Vec<i64> = (-50..50).collect();
    let batch: Vec<((), &i64)> = keys.iter().map(|key| ((), key)).collect();
    let mut visitor = Recorder::new(FailAt { calls: 0, fail_at: 3 });
    assert_eq!(map.batch_with_entry(batch, &mut visitor), Err(Stop::Here(3)));
    assert_eq!(visitor.into_handler().calls, 3);

    let mut visitor = Recorder::new(FailAt { calls: 0, fail_at: 1000 });
    assert_eq!(map.for_each_entry(&mut visitor), Ok(()));
    assert_eq!(visitor.into_handler().calls, 100);
}

#[test]
fn errors_of_the_file_are_converted() {
    let phf = Function::from([5i64].as_slice());
    let mut phf_bytes = Vec::new();
    phf.write(&mut phf_bytes).unwrap();
    let mut file = b"i64\0\0\0\0\0".to_vec();
    file.extend_from_slice(&(24 + phf_bytes.len() as u64).to_ne_bytes());
    file.extend_from_slice(&1u64.to_ne_bytes());
    file.extend_from_slice(&phf_bytes);
    file.extend_from_slice(&0u64.to_ne_bytes());
    file.push(1);
    let map = IntMap::open(file, ()).unwrap();
    let truncated = Err(Stop::Io("Entry beyond the end of the file".to_string()));
    let mut visitor = Recorder::new(FailAt { calls: 0, fail_at: 1000 });
    assert_eq!(map.for_each_key(&mut visitor), truncated);
    let mut visitor = Recorder::new(FailAt { calls: 0, fail_at: 1000 });
    assert_eq!(map.batch_with_entry(vec![((), &5)], &mut visitor), truncated);
    let mut visitor = Recorder::new(FailAt { calls: 0, fail_at: 1000 });
    let trailing = Err(Stop::Io("Trailing bytes left after parsing all entries".to_string()));
    assert_eq!(map.for_each_entry(&mut visitor), trailing);
}
