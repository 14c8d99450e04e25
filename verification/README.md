# persisted_hashmap

A hash map from keys to lists of values in a file. The library reads ranges of a storage, and no
more of an entry than is asked for. It is verified with Verus: what each function returns is
stated over a mathematical model of the file.

A map file holds, one behind the other:

1. a header: the name of the key type (8 bytes), the position of the bucket table (`u64`) and
   the number of buckets (`u64`);
2. a perfect hash function (`ph::fmph::Function`) and padding;
3. the bucket table: for each bucket, the offset of an entry (`u64`), counted from the first one;
4. the entries: a key, the number of its values (`u32`), and the values.

Integers are in the byte order of the machine.

## Layout

| module | what it holds |
|---|---|
| `model` | what an opened file answers to a request, and what a scan of it finds |
| `format` | how a file is written, and the laws on what is read back from it |
| `uio` | `UniversalHashMap`: opening a map |
| `lookup` | `get`, `get_values_count`, `batch_with_entry`, `for_each_key` |
| `scan` | `for_each_entry` |
| `steps` | the steps of a request for an entry, and the laws on them |
| `pipeline` | what the calls on a pipeline of requests do, and the laws on them |
| `sparse` | requests for single entries, with many reads in flight |
| `chunks` | reading a range part by part, with many reads in flight |
| `entry`, `key`, `value`, `header`, `bytes`, `sum` | what the parts of a file say |
| `phf`, `buffer` | the perfect hash function, and the buffer for a scan |
| `universal_io` | storages, and a storage in memory |
| `visit` | visitors |

`app/` reads files on disk into a storage in memory, and lets closures visit the maps in them.
