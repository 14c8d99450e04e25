//! Maps of random keys and values, written to memory and read back.

use ph::fmph::Function;
use persisted_hashmap::key::Key;
use persisted_hashmap::uio::UniversalHashMap;
use persisted_hashmap::universal_io::{MemoryFile, UniversalIoError};
use persisted_hashmap::value::Value;
use persisted_hashmap::visit::{EntryHandler, KeyHandler, Recorder};
use rand::rngs::StdRng;
use rand::{RngExt, SeedableRng};
use std::collections::{BTreeMap, BTreeSet};
use std::hash::Hash;

type UMap<K, V> = UniversalHashMap<K, V, MemoryFile>;

/// How a key is written.
trait WriteKey: Key {
    fn bytes(&self) -> Vec<u8>;
}

impl WriteKey for str {
    fn bytes(&self) -> Vec<u8> {
        let mut bytes = self.as_bytes().to_vec();
        bytes.push(0xFF);
        bytes
    }
}

impl WriteKey for i64 {
    fn bytes(&self) -> Vec<u8> {
        self.to_ne_bytes().to_vec()
    }
}

impl WriteKey for u128 {
    fn bytes(&self) -> Vec<u8> {
        self.to_ne_bytes().to_vec()
    }
}

/// How a value is written.
trait WriteValue: Value + Ord {
    fn bytes(&self) -> Vec<u8>;
}

impl WriteValue for u32 {
    fn bytes(&self) -> Vec<u8> {
        self.to_ne_bytes().to_vec()
    }
}

impl WriteValue for u64 {
    fn bytes(&self) -> Vec<u8> {
        self.to_ne_bytes().to_vec()
    }
}

impl WriteValue for u128 {
    fn bytes(&self) -> Vec<u8> {
        self.to_ne_bytes().to_vec()
    }
}

fn pad(bytes: &mut Vec<u8>, unit: usize) {
    while bytes.len() % unit != 0 {
        bytes.push(0);
    }
}

fn serialize<K: WriteKey + ?Sized, V: WriteValue, K1: Ord + Hash + Sync>(
    map: &BTreeMap<K1, BTreeSet<V>>,
    as_ref: impl Fn(&K1) -> &K,
) -> Vec<u8> {
    let keys: Vec<&K1> = map.keys().collect();
    let phf = Function::from(keys.as_slice());
    let mut table = vec![0u64; map.len()];
    let mut entries: Vec<u8> = Vec::new();
    for (key, values) in map {
        pad(&mut entries, K::align());
        table[phf.get(key).unwrap() as usize] = entries.len() as u64;
        let mut entry = as_ref(key).bytes();
        pad(&mut entry, 4);
        let mut count = (values.len() as u32).to_ne_bytes().to_vec();
        pad(&mut count, V::byte_size());
        entry.extend_from_slice(&count);
        for value in values {
            entry.extend_from_slice(&value.bytes());
        }
        entries.extend_from_slice(&entry);
    }
    let mut phf_bytes: Vec<u8> = Vec::new();
    phf.write(&mut phf_bytes).unwrap();
    pad(&mut phf_bytes, 64);
    let mut file = K::key_type().to_vec();
    file.extend_from_slice(&(24 + phf_bytes.len() as u64).to_ne_bytes());
    file.extend_from_slice(&(table.len() as u64).to_ne_bytes());
    file.extend_from_slice(&phf_bytes);
    for offset in table {
        file.extend_from_slice(&offset.to_ne_bytes());
    }
    file.extend_from_slice(&entries);
    file
}

fn write_and_open<K: WriteKey + ?Sized, V: WriteValue, K1: Ord + Hash + Sync>(
    map: &BTreeMap<K1, BTreeSet<V>>,
    as_ref: impl Fn(&K1) -> &K,
) -> UMap<K, V> {
    UMap::<K, V>::open(serialize(map, as_ref), ()).unwrap()
}

fn gen_ident(rng: &mut StdRng) -> String {
    (0..rng.random_range(5..=32)).map(|_| rng.random_range(b'a'..=b'z') as char).collect()
}

fn repeat_until<T>(mut f: impl FnMut() -> T, cond: impl Fn(&T) -> bool) -> T {
    loop {
        let value = f();
        if cond(&value) {
            return value;
        }
    }
}

fn gen_map<K1: Ord>(
    rng: &mut StdRng,
    generator: impl Fn(&mut StdRng) -> K1,
    count: usize,
) -> BTreeMap<K1, BTreeSet<u32>> {
    let mut map: BTreeMap<K1, BTreeSet<u32>> = BTreeMap::new();
    for _ in 0..count {
        let key = repeat_until(|| generator(rng), |key| !map.contains_key(key));
        let values = (0..rng.random_range(1..=100)).map(|_| rng.random_range(0..=1000)).collect();
        map.insert(key, values);
    }
    map
}

/// A handler that calls a function.
struct Call<F>(F);

impl<K: Key + ?Sized, F: FnMut(&K) -> Result<(), UniversalIoError>> KeyHandler<K> for Call<F> {
    type Error = UniversalIoError;

    fn handle(&mut self, key: &K) -> Result<(), UniversalIoError> {
        (self.0)(key)
    }
}

impl<K: Key + ?Sized, V, F: FnMut(&K, &[V]) -> Result<(), UniversalIoError>> EntryHandler<K, V>
    for Call<F>
{
    type Error = UniversalIoError;

    fn handle(&mut self, key: &K, values: &[V]) -> Result<(), UniversalIoError> {
        (self.0)(key, values)
    }
}

fn test_get_impl<K: WriteKey + ?Sized, K1: Ord + Hash + Sync>(
    generator: impl Clone + Fn(&mut StdRng) -> K1,
    as_ref: impl Fn(&K1) -> &K,
    count: usize,
) {
    let mut rng = StdRng::seed_from_u64(42);
    let map = gen_map(&mut rng, generator.clone(), count);
    let umap = write_and_open(&map, &as_ref);

    for (k, v) in &map {
        let got = umap.get(as_ref(k)).unwrap().unwrap();
        let expected: Vec<u32> = v.iter().copied().collect();
        assert_eq!(got, expected);
    }

    for _ in 0..100 {
        let key = repeat_until(|| generator(&mut rng), |key| !map.contains_key(key));
        assert!(umap.get(as_ref(&key)).unwrap().is_none());
    }
}

#[test]
fn test_get_str_keys() {
    test_get_impl(gen_ident, |s| s.as_str(), 200);
}

#[test]
fn test_get_i64_keys() {
    test_get_impl(|rng| rng.random::<i64>(), |i| i, 200);
}

#[test]
fn test_get_u128_keys() {
    test_get_impl(|rng| rng.random::<u128>(), |i| i, 200);
}

fn test_get_values_count_impl<K: WriteKey + ?Sized, K1: Ord + Hash + Sync>(
    generator: impl Clone + Fn(&mut StdRng) -> K1,
    as_ref: impl Fn(&K1) -> &K,
) {
    let mut rng = StdRng::seed_from_u64(77);
    let map = gen_map(&mut rng, generator.clone(), 150);
    let umap = write_and_open(&map, &as_ref);

    for (k, v) in &map {
        let count = umap.get_values_count(as_ref(k)).unwrap().unwrap();
        assert_eq!(count, v.len());
    }

    let missing = repeat_until(|| generator(&mut rng), |key| !map.contains_key(key));
    assert!(umap.get_values_count(as_ref(&missing)).unwrap().is_none());
}

#[test]
fn test_get_values_count_str() {
    test_get_values_count_impl(gen_ident, |s| s.as_str());
}

#[test]
fn test_get_values_count_i64() {
    test_get_values_count_impl(|rng| rng.random::<i64>(), |i| i);
}

#[test]
fn test_get_values_count_u128() {
    test_get_values_count_impl(|rng| rng.random::<u128>(), |i| i);
}

fn test_for_each_entry_impl<K: WriteKey + ?Sized, K1: Ord + Hash + Sync + Clone>(
    generator: impl Clone + Fn(&mut StdRng) -> K1,
    as_ref: impl Fn(&K1) -> &K,
    from_ref: impl Fn(&K) -> K1,
    count: usize,
) {
    let mut rng = StdRng::seed_from_u64(55);
    let map = gen_map(&mut rng, generator, count);
    let umap = write_and_open(&map, &as_ref);

    let mut visited: BTreeMap<K1, Vec<u32>> = BTreeMap::new();
    umap.for_each_entry(&mut Recorder::new(Call(|k: &K, vals: &[u32]| {
        visited.insert(from_ref(k), vals.to_vec());
        Ok(())
    })))
    .unwrap();

    assert_eq!(visited.len(), map.len());
    for (k, v) in &map {
        let expected: Vec<u32> = v.iter().copied().collect();
        assert_eq!(visited.get(k).unwrap(), &expected);
    }
}

#[test]
fn test_for_each_entry_str() {
    test_for_each_entry_impl(gen_ident, |s| s.as_str(), |s| s.to_owned(), 200);
}

#[test]
fn test_for_each_entry_i64() {
    test_for_each_entry_impl(|rng| rng.random::<i64>(), |i| i, |i| *i, 200);
}

#[test]
fn test_for_each_entry_u128() {
    test_for_each_entry_impl(|rng| rng.random::<u128>(), |i| i, |i| *i, 200);
}

fn test_for_each_key_impl<K: WriteKey + ?Sized, K1: Ord + Hash + Sync + Clone + std::fmt::Debug>(
    generator: impl Clone + Fn(&mut StdRng) -> K1,
    as_ref: impl Fn(&K1) -> &K,
    from_ref: impl Fn(&K) -> K1,
    count: usize,
) {
    let mut rng = StdRng::seed_from_u64(33);
    let map = gen_map(&mut rng, generator, count);
    let umap = write_and_open(&map, &as_ref);

    let mut keys: BTreeSet<K1> = BTreeSet::new();
    umap.for_each_key(&mut Recorder::new(Call(|k: &K| {
        keys.insert(from_ref(k));
        Ok(())
    })))
    .unwrap();

    let expected_keys: BTreeSet<K1> = map.keys().cloned().collect();
    assert_eq!(keys, expected_keys);
}

#[test]
fn test_for_each_key_str() {
    test_for_each_key_impl(gen_ident, |s| s.as_str(), |s| s.to_owned(), 200);
}

#[test]
fn test_for_each_key_i64() {
    test_for_each_key_impl(|rng| rng.random::<i64>(), |i| i, |i| *i, 200);
}

#[test]
fn test_for_each_key_u128() {
    test_for_each_key_impl(|rng| rng.random::<u128>(), |i| i, |i| *i, 200);
}

#[test]
fn test_keys_count() {
    let mut rng = StdRng::seed_from_u64(11);
    for count in [0, 1, 10, 500] {
        let map = gen_map(&mut rng, |rng| rng.random::<i64>(), count);
        let umap = write_and_open::<i64, u32, _>(&map, |k| k);
        assert_eq!(umap.keys_count(), count);
    }
}

#[test]
fn test_u64_values() {
    let mut rng = StdRng::seed_from_u64(88);

    let mut map: BTreeMap<i64, BTreeSet<u64>> = BTreeMap::new();
    for key in 0..50i64 {
        map.insert(key, (0..rng.random_range(1..=100)).map(|_| rng.random()).collect());
    }

    let umap = write_and_open::<i64, u64, _>(&map, |k| k);

    for (k, v) in &map {
        let got = umap.get(k).unwrap().unwrap();
        let expected: Vec<u64> = v.iter().copied().collect();
        assert_eq!(got, expected);
    }

    assert!(umap.get(&9999).unwrap().is_none());
}

#[test]
fn test_u128_values() {
    let mut rng = StdRng::seed_from_u64(77);

    let mut map: BTreeMap<u128, BTreeSet<u128>> = BTreeMap::new();
    for _ in 0..30 {
        let key = rng.random::<u128>();
        map.insert(key, (0..rng.random_range(1..=50)).map(|_| rng.random()).collect());
    }

    let umap = write_and_open::<u128, u128, _>(&map, |k| k);

    for (k, v) in &map {
        let got = umap.get(k).unwrap().unwrap();
        let expected: Vec<u128> = v.iter().copied().collect();
        assert_eq!(got, expected);
    }
}

#[test]
fn test_single_value_per_key() {
    let mut map: BTreeMap<i64, BTreeSet<u32>> = BTreeMap::new();
    for i in 0..100 {
        let mut s = BTreeSet::new();
        s.insert(i as u32);
        map.insert(i, s);
    }

    let umap = write_and_open::<i64, u32, _>(&map, |k| k);

    for (k, v) in &map {
        let got = umap.get(k).unwrap().unwrap();
        assert_eq!(got, vec![*v.iter().next().unwrap()]);
        assert_eq!(umap.get_values_count(k).unwrap().unwrap(), 1);
    }
}

#[test]
fn test_many_values_per_key() {
    let mut rng = StdRng::seed_from_u64(22);

    let mut map: BTreeMap<i64, BTreeSet<u32>> = BTreeMap::new();
    for i in 0..10 {
        map.insert(i, (0..1000).map(|_| rng.random_range(0..=100_000)).collect());
    }

    let umap = write_and_open::<i64, u32, _>(&map, |k| k);

    for (k, v) in &map {
        let got = umap.get(k).unwrap().unwrap();
        let expected: Vec<u32> = v.iter().copied().collect();
        assert_eq!(got, expected);
        assert_eq!(umap.get_values_count(k).unwrap().unwrap(), v.len());
    }
}

#[test]
fn test_empty_map() {
    let map: BTreeMap<i64, BTreeSet<u32>> = BTreeMap::new();
    let umap = write_and_open::<i64, u32, _>(&map, |k| k);

    assert_eq!(umap.keys_count(), 0);
    assert!(umap.get(&0).unwrap().is_none());
    assert!(umap.get_values_count(&0).unwrap().is_none());

    let mut count = 0;
    umap.for_each_entry(&mut Recorder::new(Call(|_: &i64, _: &[u32]| {
        count += 1;
        Ok(())
    })))
    .unwrap();
    assert_eq!(count, 0);

    umap.for_each_key(&mut Recorder::new(Call(|_: &i64| {
        count += 1;
        Ok(())
    })))
    .unwrap();
    assert_eq!(count, 0);
}

#[test]
fn test_long_string_keys() {
    let mut map: BTreeMap<String, BTreeSet<u32>> = BTreeMap::new();
    for i in 0..20 {
        // Keys longer than the first read of a key, so that another one follows.
        let key: String = std::iter::repeat_n('x', 600 + i).collect();
        let mut s = BTreeSet::new();
        s.insert(i as u32);
        map.insert(key, s);
    }

    let umap = write_and_open::<str, u32, _>(&map, |k| k.as_str());

    for (k, v) in &map {
        let got = umap.get(k.as_str()).unwrap().unwrap();
        let expected: Vec<u32> = v.iter().copied().collect();
        assert_eq!(got, expected);
    }

    let mut key_count = 0;
    umap.for_each_key(&mut Recorder::new(Call(|_: &str| {
        key_count += 1;
        Ok(())
    })))
    .unwrap();
    assert_eq!(key_count, map.len());

    let mut entry_count = 0;
    umap.for_each_entry(&mut Recorder::new(Call(|k: &str, _: &[u32]| {
        assert!(map.contains_key(k));
        entry_count += 1;
        Ok(())
    })))
    .unwrap();
    assert_eq!(entry_count, map.len());
}

#[test]
fn test_for_each_entry_exceeds_batch_size() {
    let mut rng = StdRng::seed_from_u64(44);
    let map = gen_map(&mut rng, |rng| rng.random::<i64>(), 300);
    let umap = write_and_open::<i64, u32, _>(&map, |k| k);

    let mut visited: BTreeMap<i64, Vec<u32>> = BTreeMap::new();
    umap.for_each_entry(&mut Recorder::new(Call(|k: &i64, vals: &[u32]| {
        visited.insert(*k, vals.to_vec());
        Ok(())
    })))
    .unwrap();

    assert_eq!(visited.len(), map.len());
    for (k, v) in &map {
        let expected: Vec<u32> = v.iter().copied().collect();
        assert_eq!(visited[k], expected);
    }
}
