//! The perfect hash function of a map file.
//!
//! The function itself is [`ph::fmph::Function`]. It is read from the bytes that
//! follow the header of a file and tells for a key which bucket the key is in.

use crate::bytes::{native_bytes, NativeOrder};
use crate::sum::sum;
use ph::fmph::Function;
use std::io::Cursor;
use vstd::arithmetic::power::pow;
use vstd::prelude::*;

verus! {

#[verifier::external_type_specification]
#[verifier::external_body]
#[verifier::reject_recursive_types(S)]
pub struct ExFunction<S>(ph::fmph::Function<S>);

#[verifier::external_type_specification]
#[verifier::external_body]
#[verifier::reject_recursive_types(BH)]
pub struct ExSeedable<BH: core::hash::BuildHasher + Clone>(ph::Seedable<BH>);

#[verifier::external_type_specification]
#[verifier::external_body]
#[verifier::reject_recursive_types(H)]
pub struct ExBuildHasherDefault<H>(core::hash::BuildHasherDefault<H>);

/// What a perfect hash function holds: for a key, given by the name of its type
/// and the bytes that it is stored in, the number that [`Function::get`] returns.
/// A key for which it returns nothing is not in the map.
pub uninterp spec fn phf_slots(function: Function) -> Map<(Seq<u8>, Seq<u8>), u64>;

/// What the perfect hash function holds that [`Function::read`] reads from `bytes`
/// on a machine that is little-endian iff `little`.
pub uninterp spec fn phf_table(little: bool, bytes: Seq<u8>) -> Map<(Seq<u8>, Seq<u8>), u64>;

/// The name of the key type `str` in a file, `str` followed by zeros.
pub open spec fn str_name() -> Seq<u8> {
    seq![115u8, 116, 114, 0, 0, 0, 0, 0]
}

/// The name of the key type `i64` in a file, `i64` followed by zeros.
pub open spec fn i64_name() -> Seq<u8> {
    seq![105u8, 54, 52, 0, 0, 0, 0, 0]
}

/// The name of the key type `u128` in a file, `u128` followed by zeros.
pub open spec fn u128_name() -> Seq<u8> {
    seq![117u8, 49, 50, 56, 0, 0, 0, 0]
}

/// The bits of a signed integer, read as an unsigned one.
pub open spec fn i64_bits(n: i64) -> nat {
    if n >= 0 {
        n as nat
    } else {
        (n + 0x1_0000_0000_0000_0000) as nat
    }
}

/// How a string is stored: its UTF-8 bytes and `0xFF`, which no UTF-8 text holds.
pub open spec fn str_stored(chars: Seq<char>) -> Seq<u8> {
    vstd::utf8::encode_utf8(chars).push(0xFFu8)
}

/// The names of the key types are their letters and zeros up to eight bytes, text is
/// stored as UTF-8 and `0xFF`, and the bits of a signed integer are those of two's
/// complement.
pub proof fn law_stored_forms(text: Seq<char>, n: i64)
    ensures
        str_name() == seq![115u8, 116u8, 114u8, 0u8, 0u8, 0u8, 0u8, 0u8],
        i64_name() == seq![105u8, 54u8, 52u8, 0u8, 0u8, 0u8, 0u8, 0u8],
        u128_name() == seq![117u8, 49u8, 50u8, 56u8, 0u8, 0u8, 0u8, 0u8],
        str_stored(text) == vstd::utf8::encode_utf8(text) + seq![0xFFu8],
        n >= 0 ==> i64_bits(n) == n,
        n < 0 ==> i64_bits(n) == n + 0x1_0000_0000_0000_0000,
{
}

/// The weight of the `k`-th byte of a number with seven bits to the byte.
pub open spec fn vbyte_unit(k: nat) -> nat
    decreases k,
{
    if k == 0 {
        1
    } else {
        128 * vbyte_unit((k - 1) as nat)
    }
}

/// The number that starts at `pos`, of which `k` bytes were read before, with the
/// value `acc`, and the position behind it. A byte holds seven bits and says
/// with its highest bit whether more follow; the ninth byte holds eight bits.
pub open spec fn vbyte(bytes: Seq<u8>, pos: int, k: nat, acc: nat) -> Option<(nat, int)>
    decreases 8 - k,
{
    if pos >= bytes.len() {
        None
    } else if bytes[pos] < 128 || k >= 8 {
        Some((acc + bytes[pos] as nat * vbyte_unit(k), pos + 1))
    } else {
        vbyte(bytes, pos + 1, k + 1, acc + (bytes[pos] - 128) as nat * vbyte_unit(k))
    }
}

/// Why a perfect hash function cannot be read from some bytes.
#[derive(Clone, Copy, PartialEq, Eq, Structural)]
pub enum PhfFault {
    /// The bytes end too early.
    Truncated,
    /// There is no memory for so many levels or words, or no `usize` for the number of
    /// their bits.
    Malformed,
}

/// The sizes of the `n` levels that start at `pos`, and the position behind them.
pub open spec fn level_sizes(bytes: Seq<u8>, pos: int, n: nat) -> Option<(Seq<nat>, int)>
    decreases n,
{
    if n == 0 {
        Some((Seq::empty(), pos))
    } else {
        match level_sizes(bytes, pos, (n - 1) as nat) {
            None => None,
            Some((sizes, at)) => match vbyte(bytes, at, 0, 0) {
                None => None,
                Some((size, next)) => Some((sizes.push(size), next)),
            },
        }
    }
}

/// The sizes of the `n` levels that start at `pos`, where they can be read.
pub open spec fn levels_list(bytes: Seq<u8>, pos: int, n: nat) -> Seq<nat> {
    match level_sizes(bytes, pos, n) {
        Some((sizes, _)) => sizes,
        None => Seq::empty(),
    }
}

/// The position behind the sizes of the `n` levels that start at `pos`, where they can
/// be read.
pub open spec fn levels_end(bytes: Seq<u8>, pos: int, n: nat) -> int {
    match level_sizes(bytes, pos, n) {
        Some((_, end)) => end,
        None => pos,
    }
}

/// How a perfect hash function stands in some bytes.
#[verifier::ext_equal]
pub ghost struct PhfLayout {
    /// The size of each level in words.
    pub sizes: Seq<nat>,
    /// Where the sizes stand, behind the number of levels.
    pub sizes_pos: int,
    /// Where the words of all levels stand.
    pub words_pos: int,
    /// Where the function ends.
    pub end: int,
}

/// The perfect hash function at the start of `bytes`: the number of its levels, the
/// size of each in words, and the words of all of them.
pub open spec fn phf_layout(bytes: Seq<u8>) -> Result<PhfLayout, PhfFault> {
    match vbyte(bytes, 0, 0, 0) {
        None => Err(PhfFault::Truncated),
        Some((n, sizes_pos)) => if 16 * n > usize::MAX {
            Err(PhfFault::Malformed)
        } else {
            match level_sizes(bytes, sizes_pos, n) {
                None => Err(PhfFault::Truncated),
                Some((sizes, words_pos)) => {
                    let end = words_pos + 8 * sum(sizes);
                    if 16 * sum(sizes) > usize::MAX {
                        Err(PhfFault::Malformed)
                    } else if end > bytes.len() {
                        Err(PhfFault::Truncated)
                    } else if 64 * sum(sizes) > usize::MAX {
                        Err(PhfFault::Malformed)
                    } else {
                        Ok(PhfLayout { sizes, sizes_pos, words_pos, end })
                    }
                },
            }
        },
    }
}

/// The number of levels up to the last one that is not empty.
pub open spec fn filled_levels(sizes: Seq<nat>) -> nat
    decreases sizes.len(),
{
    if sizes.len() == 0 {
        0
    } else if sizes.last() > 0 {
        sizes.len()
    } else {
        filled_levels(sizes.drop_last())
    }
}

/// Whether the last level of the function at the start of `bytes` is empty. A search
/// that gets there leaves the words of the function.
pub open spec fn is_open_ended(bytes: Seq<u8>) -> bool {
    let sizes = phf_layout(bytes)->Ok_0.sizes;
    filled_levels(sizes) < sizes.len()
}

/// How `n`, of which `k` bytes were written before, is written with seven bits to the
/// byte; see [`vbyte`].
pub open spec fn vbyte_bytes(n: nat, k: nat) -> Seq<u8>
    decreases 8 - k,
{
    if n < 128 || k >= 8 {
        seq![n as u8]
    } else {
        seq![(128 + n % 128) as u8] + vbyte_bytes(n / 128, k + 1)
    }
}

/// The function at the start of `bytes` without empty levels at its end, and without
/// what follows it. A search in it finds what a search in the other finds, and ends
/// without a result where that leaves the words.
pub open spec fn phf_core(bytes: Seq<u8>) -> Seq<u8> {
    let layout = phf_layout(bytes)->Ok_0;
    let n = filled_levels(layout.sizes);
    if n == layout.sizes.len() {
        bytes.take(layout.end)
    } else {
        let sizes_end = levels_end(bytes, layout.sizes_pos, n);
        vbyte_bytes(n, 0) + bytes.subrange(layout.sizes_pos, sizes_end) + bytes.subrange(
            layout.words_pos,
            layout.end,
        )
    }
}

proof fn lemma_vbyte_units(k: nat)
    requires
        k <= 8,
    ensures
        0 < vbyte_unit(k) <= 0x0100_0000_0000_0000,
        vbyte_unit(8) == 0x0100_0000_0000_0000,
{
    reveal_with_fuel(vbyte_unit, 9);
}

/// Reads the number at `pos`.
fn read_vbyte(bytes: &[u8], pos: usize) -> (r: Option<(u64, usize)>)
    ensures
        match (r, vbyte(bytes@, pos as int, 0, 0)) {
            (Some((value, next)), Some((n, end))) => value == n && next == end && pos < next
                <= bytes@.len(),
            (None, None) => true,
            _ => false,
        },
{
    let mut at: usize = pos;
    let mut k: usize = 0;
    let mut unit: u64 = 1;
    let mut acc: u64 = 0;
    loop
        invariant
            k <= 8,
            at == pos + k,
            unit == vbyte_unit(k as nat),
            acc < unit,
            vbyte(bytes@, pos as int, 0, 0) == vbyte(bytes@, at as int, k as nat, acc as nat),
        decreases 8 - k,
    {
        proof {
            lemma_vbyte_units(k as nat);
        }
        if at >= bytes.len() {
            return None;
        }
        let byte: u64 = bytes[at] as u64;
        if byte < 128 || k >= 8 {
            proof {
                if k < 8 {
                    lemma_vbyte_units((k + 1) as nat);
                }
                assert(byte * unit + acc <= u64::MAX) by (nonlinear_arith)
                    requires
                        acc < unit,
                        byte <= 255,
                        unit <= 0x0100_0000_0000_0000,
                ;
            }
            return Some((acc + byte * unit, at + 1));
        }
        let digit: u64 = byte - 128;
        proof {
            lemma_vbyte_units((k + 1) as nat);
            assert(acc + digit * unit < 128 * unit && digit * unit >= 0) by (nonlinear_arith)
                requires
                    acc < unit,
                    digit <= 127,
            ;
        }
        acc = acc + digit * unit;
        unit = unit * 128;
        at = at + 1;
        k = k + 1;
    }
}

proof fn lemma_vbyte_end(bytes: Seq<u8>, pos: int, k: nat, acc: nat)
    ensures
        vbyte(bytes, pos, k, acc) matches Some((_, end)) ==> pos < end <= bytes.len(),
    decreases 8 - k,
{
    if pos < bytes.len() && bytes[pos] >= 128 && k < 8 {
        lemma_vbyte_end(bytes, pos + 1, k + 1, acc + (bytes[pos] - 128) as nat * vbyte_unit(k));
    }
}

/// Whether `to` holds from `there` on the bytes of `from` between `pos` and `end`.
spec fn is_moved(from: Seq<u8>, pos: int, end: int, to: Seq<u8>, there: int) -> bool {
    &&& 0 <= pos <= end <= from.len()
    &&& 0 <= there <= there + (end - pos) <= to.len()
    &&& from.subrange(pos, end) == to.subrange(there, there + (end - pos))
}

/// A number is read from the same bytes at another place.
proof fn lemma_vbyte_moved(
    from: Seq<u8>,
    pos: int,
    to: Seq<u8>,
    there: int,
    k: nat,
    acc: nat,
    value: nat,
    end: int,
)
    requires
        vbyte(from, pos, k, acc) == Some((value, end)),
        is_moved(from, pos, end, to, there),
    ensures
        vbyte(to, there, k, acc) == Some((value, there + (end - pos))),
    decreases 8 - k,
{
    lemma_vbyte_end(from, pos, k, acc);
    let n = end - pos;
    assert(from.subrange(pos, end)[0] == to.subrange(there, there + n)[0]);
    assert(from[pos] == to[there]);
    if from[pos] >= 128 && k < 8 {
        let more = acc + (from[pos] - 128) as nat * vbyte_unit(k);
        lemma_vbyte_end(from, pos + 1, k + 1, more);
        assert(from.subrange(pos + 1, end) =~= from.subrange(pos, end).skip(1));
        assert(to.subrange(there + 1, there + n) =~= to.subrange(there, there + n).skip(1));
        lemma_vbyte_moved(from, pos + 1, to, there + 1, k + 1, more, value, end);
    }
}

proof fn lemma_level_sizes(bytes: Seq<u8>, pos: int, n: nat)
    ensures
        level_sizes(bytes, pos, n) matches Some((sizes, end)) ==> sizes.len() == n && pos + n <= end
            && (pos <= bytes.len() ==> end <= bytes.len()),
    decreases n,
{
    if n > 0 {
        lemma_level_sizes(bytes, pos, (n - 1) as nat);
        if let Some((_, at)) = level_sizes(bytes, pos, (n - 1) as nat) {
            lemma_vbyte_end(bytes, at, 0, 0);
        }
    }
}

/// The sizes of the first levels are the first sizes of more levels.
proof fn lemma_level_sizes_take(bytes: Seq<u8>, pos: int, m: nat, n: nat)
    requires
        m <= n,
        level_sizes(bytes, pos, n) is Some,
    ensures
        level_sizes(bytes, pos, m) is Some,
        levels_list(bytes, pos, m) == levels_list(bytes, pos, n).take(m as int),
        levels_end(bytes, pos, m) <= levels_end(bytes, pos, n),
    decreases n,
{
    lemma_level_sizes(bytes, pos, n);
    if m == n {
        let sizes = levels_list(bytes, pos, n);
        assert(sizes.take(m as int) =~= sizes);
    } else {
        let (front, at) = level_sizes(bytes, pos, (n - 1) as nat)->0;
        let sizes = levels_list(bytes, pos, n);
        lemma_level_sizes(bytes, pos, (n - 1) as nat);
        lemma_level_sizes_take(bytes, pos, m, (n - 1) as nat);
        lemma_vbyte_end(bytes, at, 0, 0);
        assert(front.take(m as int) =~= sizes.take(m as int));
    }
}

/// Sizes are read from the same bytes at another place.
proof fn lemma_level_sizes_moved(from: Seq<u8>, pos: int, to: Seq<u8>, there: int, n: nat)
    requires
        level_sizes(from, pos, n) is Some,
        is_moved(from, pos, levels_end(from, pos, n), to, there),
    ensures
        level_sizes(to, there, n) == Some(
            (
                levels_list(from, pos, n),
                there + (levels_end(from, pos, n) - pos),
            ),
        ),
    decreases n,
{
    if n > 0 {
        let end = levels_end(from, pos, n);
        let (front, at) = level_sizes(from, pos, (n - 1) as nat)->0;
        lemma_level_sizes(from, pos, (n - 1) as nat);
        lemma_vbyte_end(from, at, 0, 0);
        let here = from.subrange(pos, end);
        let copy = to.subrange(there, there + (end - pos));
        assert(from.subrange(pos, at) =~= here.take(at - pos));
        assert(to.subrange(there, there + (at - pos)) =~= copy.take(at - pos));
        lemma_level_sizes_moved(from, pos, to, there, (n - 1) as nat);
        assert(from.subrange(at, end) =~= here.skip(at - pos));
        assert(to.subrange(there + (at - pos), there + (end - pos)) =~= copy.skip(at - pos));
        let (size, next) = vbyte(from, at, 0, 0)->0;
        lemma_vbyte_moved(from, at, to, there + (at - pos), 0, 0, size, next);
    }
}

proof fn lemma_filled_levels(sizes: Seq<nat>)
    ensures
        filled_levels(sizes) <= sizes.len(),
        sum(sizes.take(filled_levels(sizes) as int)) == sum(sizes),
        filled_levels(sizes.take(filled_levels(sizes) as int)) == filled_levels(sizes),
    decreases sizes.len(),
{
    let n = filled_levels(sizes) as int;
    if sizes.len() == 0 || sizes.last() > 0 {
        assert(sizes.take(n) =~= sizes);
    } else {
        lemma_filled_levels(sizes.drop_last());
        assert(sizes.drop_last().take(n) =~= sizes.take(n));
    }
}

/// A number is read back from how it is written.
proof fn lemma_vbyte_written(bytes: Seq<u8>, pos: int, n: nat, k: nat, acc: nat)
    requires
        k <= 8,
        n * vbyte_unit(k) < 0x8000_0000_0000_0000,
        0 <= pos <= pos + vbyte_bytes(n, k).len() <= bytes.len(),
        bytes.subrange(pos, pos + vbyte_bytes(n, k).len()) == vbyte_bytes(n, k),
    ensures
        vbyte(bytes, pos, k, acc) == Some(
            (acc + n * vbyte_unit(k), pos + vbyte_bytes(n, k).len()),
        ),
    decreases 8 - k,
{
    let written = vbyte_bytes(n, k);
    let unit = vbyte_unit(k);
    lemma_vbyte_units(k);
    assert(bytes.subrange(pos, pos + written.len())[0] == bytes[pos]);
    if n < 128 || k >= 8 {
        if k >= 8 {
            assert(n < 128) by (nonlinear_arith)
                requires
                    n * unit < 0x8000_0000_0000_0000,
                    unit == 0x0100_0000_0000_0000,
            ;
        }
    } else {
        let rest = n / 128;
        let digit = n % 128;
        let tail = vbyte_bytes(rest, k + 1);
        assert(written.len() == 1 + tail.len());
        assert(bytes[pos] == 128 + digit);
        assert(bytes.subrange(pos + 1, pos + 1 + tail.len()) =~= written.skip(1)) by {
            assert(bytes.subrange(pos + 1, pos + 1 + tail.len()) =~= bytes.subrange(
                pos,
                pos + written.len(),
            ).skip(1));
        }
        assert(written.skip(1) =~= tail);
        assert(vbyte_unit(k + 1) == 128 * unit);
        assert(rest * (128 * unit) + digit * unit == n * unit) by (nonlinear_arith)
            requires
                n == 128 * rest + digit,
        ;
        assert(digit * unit >= 0) by (nonlinear_arith);
        lemma_vbyte_written(bytes, pos + 1, rest, k + 1, acc + digit * unit);
    }
}

proof fn lemma_vbyte_bytes_len(n: nat, k: nat)
    ensures
        0 < vbyte_bytes(n, k).len(),
    decreases 8 - k,
{
    if n >= 128 && k < 8 {
        lemma_vbyte_bytes_len(n / 128, k + 1);
    }
}

/// Without what is cut off, a function is complete, and its last level is not empty.
proof fn lemma_core(bytes: Seq<u8>)
    requires
        phf_layout(bytes) is Ok,
    ensures
        phf_layout(phf_core(bytes)) is Ok,
        phf_layout(phf_core(bytes))->Ok_0.end == phf_core(bytes).len(),
        !is_open_ended(phf_core(bytes)),
{
    let core = phf_core(bytes);
    let layout = phf_layout(bytes)->Ok_0;
    let sizes = layout.sizes;
    let (n, start) = vbyte(bytes, 0, 0, 0)->0;
    let kept = filled_levels(sizes);
    lemma_vbyte_end(bytes, 0, 0, 0);
    lemma_level_sizes(bytes, start, n);
    lemma_filled_levels(sizes);
    if kept == sizes.len() {
        assert(sizes.take(kept as int) =~= sizes);
        assert(core.subrange(0, start) =~= bytes.subrange(0, start));
        lemma_vbyte_moved(bytes, 0, core, 0, 0, 0, n, start);
        assert(core.subrange(start, layout.words_pos) =~= bytes.subrange(start, layout.words_pos));
        lemma_level_sizes_moved(bytes, start, core, start, n);
    } else {
        lemma_level_sizes_take(bytes, start, kept, n);
        lemma_level_sizes(bytes, start, kept);
        lemma_vbyte_bytes_len(kept, 0);
        let sizes_end = levels_end(bytes, start, kept);
        let head = vbyte_bytes(kept, 0);
        let at = head.len() as int;
        lemma_vbyte_units(0);
        assert(vbyte_unit(0) == 1);
        assert(core.subrange(0, at) =~= head);
        lemma_vbyte_written(core, 0, kept, 0, 0);
        assert(core.subrange(at, at + (sizes_end - start)) =~= bytes.subrange(start, sizes_end));
        lemma_level_sizes_moved(bytes, start, core, at, kept);
    }
}

/// What follows a perfect hash function, such as the padding behind it, is ignored.
pub proof fn law_phf_padding(bytes: Seq<u8>, padding: Seq<u8>)
    requires
        phf_layout(bytes) is Ok,
    ensures
        phf_layout(bytes + padding) == phf_layout(bytes),
        phf_core(bytes + padding) == phf_core(bytes),
        is_open_ended(bytes + padding) == is_open_ended(bytes),
{
    let all = bytes + padding;
    let layout = phf_layout(bytes)->Ok_0;
    let sizes = layout.sizes;
    let (n, start) = vbyte(bytes, 0, 0, 0)->0;
    lemma_vbyte_end(bytes, 0, 0, 0);
    lemma_level_sizes(bytes, start, n);
    assert(all.subrange(0, start) =~= bytes.subrange(0, start));
    lemma_vbyte_moved(bytes, 0, all, 0, 0, 0, n, start);
    assert(all.subrange(start, layout.words_pos) =~= bytes.subrange(start, layout.words_pos));
    lemma_level_sizes_moved(bytes, start, all, start, n);
    assert(all.take(layout.end) =~= bytes.take(layout.end));
    let kept = filled_levels(sizes);
    lemma_filled_levels(sizes);
    lemma_level_sizes_take(bytes, start, kept, n);
    lemma_level_sizes_take(all, start, kept, n);
    lemma_level_sizes(bytes, start, kept);
    let sizes_end = levels_end(bytes, start, kept);
    assert(all.subrange(start, sizes_end) =~= bytes.subrange(start, sizes_end));
    lemma_level_sizes_moved(bytes, start, all, start, kept);
    assert(all.subrange(layout.words_pos, layout.end) =~= bytes.subrange(
        layout.words_pos,
        layout.end,
    ));
}

/// The bytes of a written number are its digits in base 128.
proof fn lemma_vbyte_digits(n: nat, k: nat, i: nat)
    requires
        k <= 8,
        n < 256 * pow(128, (8 - k) as nat),
    ensures
        ({
            let b = vbyte_bytes(n, k);
            let last = (b.len() - 1) as nat;
            &&& 1 <= b.len() <= 9 - k
            &&& i < last ==> b[i as int] == 128 + (n as int / pow(128, i)) % 128
            &&& b[last as int] == n as int / pow(128, last)
            &&& last + k < 8 ==> b[last as int] < 128
            &&& last > 0 ==> n >= pow(128, last)
        }),
    decreases 8 - k,
{
    reveal(pow);
    let b = vbyte_bytes(n, k);
    assert(n as int / 1 == n);
    if n >= 128 && k < 8 {
        let rest = n / 128;
        let tail = vbyte_bytes(rest, k + 1);
        let last = (tail.len() - 1) as nat;
        assert(pow(128, (8 - k) as nat) == 128 * pow(128, (8 - (k + 1)) as nat));
        lemma_vbyte_digits(rest, k + 1, (i - 1) as nat);
        lemma_vbyte_digits(rest, k + 1, 0);
        assert(b =~= seq![(128 + n % 128) as u8] + tail);
        vstd::arithmetic::power::lemma_pow_positive(128, last);
        vstd::arithmetic::div_mod::lemma_div_denominator(n as int, 128, pow(128, last));
        assert(b[last as int + 1] == tail[last as int]);
        assert(pow(128, last + 1) == 128 * pow(128, last));
        if last == 0 {
            assert(n >= 128);
        }
        if 0 < i < b.len() - 1 {
            vstd::arithmetic::power::lemma_pow_positive(128, (i - 1) as nat);
            vstd::arithmetic::div_mod::lemma_div_denominator(
                n as int,
                128,
                pow(128, (i - 1) as nat),
            );
            assert(b[i as int] == tail[i - 1]);
        }
    }
}

/// A 64-bit number is written in its digits in base 128, the least significant one first,
/// and no more of them than it has. Each but the last has its highest bit set. If
/// there are nine bytes, the last holds what is left.
pub proof fn law_vbyte_bytes(n: nat, i: nat)
    requires
        n <= u64::MAX,
    ensures
        ({
            let b = vbyte_bytes(n, 0);
            let last = (b.len() - 1) as nat;
            &&& 1 <= b.len() <= 9
            &&& i < last ==> b[i as int] == 128 + (n as int / pow(128, i)) % 128
            &&& b[last as int] == n as int / pow(128, last)
            &&& last < 8 ==> b[last as int] < 128
            &&& last > 0 ==> n >= pow(128, last)
        }),
{
    assert(pow(128, 8) == 0x0100_0000_0000_0000) by {
        reveal(pow);
        reveal_with_fuel(pow, 9);
    }
    lemma_vbyte_digits(n, 0, i);
}

/// Sizes are read back from how they are written.
proof fn lemma_sizes_written(bytes: Seq<u8>, pos: int, sizes: Seq<nat>)
    requires
        forall|i: int| 0 <= i < sizes.len() ==> #[trigger] sizes[i] < 0x8000_0000_0000_0000,
        ({
            let written = sizes.map_values(|n: nat| vbyte_bytes(n, 0)).flatten();
            &&& 0 <= pos <= pos + written.len() <= bytes.len()
            &&& bytes.subrange(pos, pos + written.len()) == written
        }),
    ensures
        level_sizes(bytes, pos, sizes.len()) == Some(
            (sizes, pos + sizes.map_values(|n: nat| vbyte_bytes(n, 0)).flatten().len()),
        ),
    decreases sizes.len(),
{
    let parts = sizes.map_values(|n: nat| vbyte_bytes(n, 0));
    let written = parts.flatten();
    parts.lemma_flatten_and_flatten_alt_are_equivalent();
    if sizes.len() > 0 {
        let rest = sizes.drop_last();
        let rest_parts = rest.map_values(|n: nat| vbyte_bytes(n, 0));
        let front = rest_parts.flatten();
        let last = vbyte_bytes(sizes.last(), 0);
        rest_parts.lemma_flatten_and_flatten_alt_are_equivalent();
        assert(parts.drop_last() =~= rest_parts);
        assert(written == front + last);
        assert(bytes.subrange(pos, pos + front.len()) =~= written.take(front.len() as int));
        assert(written.take(front.len() as int) =~= front);
        lemma_sizes_written(bytes, pos, rest);
        let at = pos + front.len();
        assert(bytes.subrange(at, at + last.len()) =~= written.skip(front.len() as int));
        assert(written.skip(front.len() as int) =~= last);
        lemma_vbyte_units(0);
        assert(vbyte_unit(0) == 1);
        lemma_vbyte_written(bytes, at, sizes.last(), 0, 0);
        assert(rest.push(sizes.last()) =~= sizes);
    } else {
        assert(sizes =~= Seq::empty());
    }
}

proof fn lemma_filled_is(sizes: Seq<nat>, filled: nat)
    requires
        filled <= sizes.len(),
        filled > 0 ==> sizes[filled - 1] > 0,
        forall|i: int| filled <= i < sizes.len() ==> #[trigger] sizes[i] == 0,
    ensures
        filled_levels(sizes) == filled,
    decreases sizes.len(),
{
    if sizes.len() > filled {
        lemma_filled_is(sizes.drop_last(), filled);
    }
}

proof fn lemma_size_in_sum(sizes: Seq<nat>, i: int)
    requires
        0 <= i < sizes.len(),
    ensures
        sizes[i] <= sum(sizes),
    decreases sizes.len(),
{
    if i < sizes.len() - 1 {
        lemma_size_in_sum(sizes.drop_last(), i);
    }
}

/// The sizes of the first levels are written at the start of those of all levels.
proof fn lemma_flatten_take(parts: Seq<Seq<u8>>, n: int)
    requires
        0 <= n <= parts.len(),
    ensures
        parts.take(n).flatten().len() <= parts.flatten().len(),
        parts.flatten().take(parts.take(n).flatten().len() as int) == parts.take(n).flatten(),
    decreases parts.len(),
{
    if n == parts.len() {
        assert(parts.take(n) =~= parts);
        assert(parts.flatten().take(parts.flatten().len() as int) =~= parts.flatten());
    } else {
        let rest = parts.drop_last();
        parts.lemma_flatten_and_flatten_alt_are_equivalent();
        rest.lemma_flatten_and_flatten_alt_are_equivalent();
        lemma_flatten_take(rest, n);
        assert(rest.take(n) =~= parts.take(n));
        let len = parts.take(n).flatten().len() as int;
        assert(parts.flatten().take(len) =~= rest.flatten().take(len));
    }
}

/// A perfect hash function is found where it was written, and handed on as it was.
///
/// It is written as the number of its levels, the size of each, and the words of all of
/// them; anything may follow. Its words are all handed on, and so are its sizes up
/// to the last one that is not zero, which has the number `filled - 1`. It is open
/// ended iff there are sizes behind that one.
pub proof fn law_phf_written(sizes: Seq<nat>, filled: nat, words: Seq<u8>, padding: Seq<u8>)
    requires
        16 * sizes.len() <= usize::MAX,
        64 * sum(sizes) <= usize::MAX,
        words.len() == 8 * sum(sizes),
        filled <= sizes.len(),
        filled > 0 ==> sizes[filled - 1] > 0,
        forall|i: int| filled <= i < sizes.len() ==> #[trigger] sizes[i] == 0,
    ensures
        ({
            let count = vbyte_bytes(sizes.len(), 0);
            let list = sizes.map_values(|n: nat| vbyte_bytes(n, 0)).flatten();
            let kept = sizes.take(filled as int).map_values(|n: nat| vbyte_bytes(n, 0)).flatten();
            let bytes = count + list + words + padding;
            &&& phf_layout(bytes) == Ok::<PhfLayout, PhfFault>(
                PhfLayout {
                    sizes,
                    sizes_pos: count.len() as int,
                    words_pos: (count + list).len() as int,
                    end: (count + list + words).len() as int,
                },
            )
            &&& is_open_ended(bytes) == (filled < sizes.len())
            &&& phf_core(bytes) == vbyte_bytes(filled, 0) + kept + words
        }),
{
    let count = vbyte_bytes(sizes.len(), 0);
    let parts = sizes.map_values(|n: nat| vbyte_bytes(n, 0));
    let list = parts.flatten();
    let bytes = count + list + words + padding;
    let at = count.len() as int;
    let end = (count + list + words).len() as int;
    assert forall|i: int| 0 <= i < sizes.len() implies #[trigger] sizes[i]
        < 0x8000_0000_0000_0000 by {
        lemma_size_in_sum(sizes, i);
    }
    lemma_vbyte_units(0);
    assert(vbyte_unit(0) == 1);
    lemma_vbyte_bytes_len(sizes.len(), 0);
    assert(bytes.subrange(0, at) =~= count);
    lemma_vbyte_written(bytes, 0, sizes.len(), 0, 0);
    assert(bytes.subrange(at, at + list.len()) =~= list);
    lemma_sizes_written(bytes, at, sizes);
    lemma_filled_is(sizes, filled);
    let kept_parts = sizes.take(filled as int).map_values(|n: nat| vbyte_bytes(n, 0));
    let kept = kept_parts.flatten();
    assert(kept_parts =~= parts.take(filled as int));
    lemma_flatten_take(parts, filled as int);
    assert(bytes.subrange(at, at + kept.len()) =~= list.take(kept.len() as int));
    lemma_sizes_written(bytes, at, sizes.take(filled as int));
    assert(bytes.subrange(at + list.len(), end) =~= words);
    if filled == sizes.len() {
        assert(sizes.take(filled as int) =~= sizes);
        assert(bytes.take(end) =~= count + kept + words);
    }
}

/// A perfect hash function whose last level is not empty is handed on as it stands.
pub proof fn law_phf_core(bytes: Seq<u8>)
    requires
        phf_layout(bytes) is Ok,
    ensures
        !is_open_ended(bytes) ==> phf_core(bytes) == bytes.take(phf_layout(bytes)->Ok_0.end),
        ({
            let sizes = phf_layout(bytes)->Ok_0.sizes;
            is_open_ended(bytes) <==> sizes.len() > 0 && sizes.last() == 0
        }),
{
    let sizes = phf_layout(bytes)->Ok_0.sizes;
    lemma_filled_levels(sizes);
    if sizes.len() > 0 {
        lemma_filled_levels(sizes.drop_last());
    }
}

/// A perfect hash function that is cut off is found to be cut off.
pub proof fn law_phf_cut(sizes: Seq<nat>, words: Seq<u8>, n: int)
    requires
        16 * sizes.len() <= usize::MAX,
        64 * sum(sizes) <= usize::MAX,
        words.len() == 8 * sum(sizes),
        0 <= n < (vbyte_bytes(sizes.len(), 0) + sizes.map_values(
            |n: nat| vbyte_bytes(n, 0),
        ).flatten() + words).len(),
    ensures
        phf_layout(
            (vbyte_bytes(sizes.len(), 0) + sizes.map_values(|n: nat| vbyte_bytes(n, 0)).flatten()
                + words).take(n),
        ) == Err::<PhfLayout, PhfFault>(PhfFault::Truncated),
{
    let whole = vbyte_bytes(sizes.len(), 0) + sizes.map_values(
        |n: nat| vbyte_bytes(n, 0),
    ).flatten() + words;
    let part = whole.take(n);
    let filled = filled_levels(sizes);
    lemma_filled_levels(sizes);
    lemma_filled_levels_tail(sizes);
    law_phf_written(sizes, filled, words, Seq::empty());
    assert(whole + Seq::<u8>::empty() =~= whole);
    if let Some((count, at)) = vbyte(part, 0, 0, 0) {
        lemma_vbyte_end(part, 0, 0, 0);
        assert(part.subrange(0, at) =~= whole.subrange(0, at));
        lemma_vbyte_moved(part, 0, whole, 0, 0, 0, count, at);
        if level_sizes(part, at, count) is Some {
            let end = levels_end(part, at, count);
            lemma_level_sizes(part, at, count);
            assert(part.subrange(at, end) =~= whole.subrange(at, end));
            lemma_level_sizes_moved(part, at, whole, at, count);
        }
    }
}

proof fn lemma_filled_levels_tail(sizes: Seq<nat>)
    ensures
        filled_levels(sizes) > 0 ==> sizes[filled_levels(sizes) - 1] > 0,
        forall|i: int| filled_levels(sizes) <= i < sizes.len() ==> #[trigger] sizes[i] == 0,
    decreases sizes.len(),
{
    if sizes.len() > 0 && sizes.last() == 0 {
        let rest = sizes.drop_last();
        lemma_filled_levels_tail(rest);
        lemma_filled_levels(rest);
        assert forall|i: int| filled_levels(sizes) <= i < sizes.len() implies #[trigger] sizes[i]
            == 0 by {
            if i < rest.len() {
                assert(rest[i] == sizes[i]);
            }
        }
    }
}

proof fn lemma_level_sizes_none(bytes: Seq<u8>, pos: int, m: nat, n: nat)
    requires
        m <= n,
        level_sizes(bytes, pos, m) is None,
    ensures
        level_sizes(bytes, pos, n) is None,
    decreases n,
{
    if m < n {
        lemma_level_sizes_none(bytes, pos, m, (n - 1) as nat);
    }
}

/// Where the parts of a perfect hash function stand that are handed on.
struct PhfParts {
    /// Whether the last level is empty.
    open_ended: bool,
    /// The number of levels up to the last one that is not empty.
    levels: u64,
    /// Where the sizes stand.
    sizes_pos: usize,
    /// Where the sizes of these levels end.
    sizes_end: usize,
    /// Where the words stand.
    words_pos: usize,
    /// Where the function ends.
    end: usize,
}

/// Finds the parts of the perfect hash function at the start of `bytes`.
fn find_parts(bytes: &[u8]) -> (r: Result<PhfParts, PhfFault>)
    ensures
        match (r, phf_layout(bytes@)) {
            (Ok(parts), Ok(layout)) => {
                &&& parts.open_ended == is_open_ended(bytes@)
                &&& parts.levels == filled_levels(layout.sizes)
                &&& parts.sizes_pos == layout.sizes_pos
                &&& parts.sizes_end == levels_end(
                    bytes@,
                    layout.sizes_pos,
                    parts.levels as nat,
                )
                &&& parts.words_pos == layout.words_pos
                &&& parts.end == layout.end
                &&& parts.sizes_pos <= parts.sizes_end <= parts.words_pos <= parts.end
                    <= bytes@.len()
            },
            (Err(fault), Err(expected)) => fault == expected,
            _ => false,
        },
{
    let (n, start): (u64, usize) = match read_vbyte(bytes, 0) {
        None => {
            return Err(PhfFault::Truncated);
        },
        Some(found) => found,
    };
    if n > (usize::MAX / 16) as u64 {
        return Err(PhfFault::Malformed);
    }
    let mut pos: usize = start;
    let mut k: u64 = 0;
    let mut total: u128 = 0;
    let mut levels: u64 = 0;
    let mut sizes_end: usize = start;
    let ghost mut sizes: Seq<nat> = Seq::empty();
    while k < n
        invariant
            k <= n,
            start <= sizes_end <= pos <= bytes@.len(),
            total <= k * 0xFFFF_FFFF_FFFF_FFFF,
            16 * n <= usize::MAX,
            level_sizes(bytes@, start as int, k as nat) == Some((sizes, pos as int)),
            total == sum(sizes),
            levels == filled_levels(sizes),
            levels <= k,
            sizes.len() == k,
            level_sizes(bytes@, start as int, levels as nat) is Some,
            levels_end(bytes@, start as int, levels as nat) == sizes_end,
            vbyte(bytes@, 0, 0, 0) == Some((n as nat, start as int)),
        decreases n - k,
    {
        match read_vbyte(bytes, pos) {
            None => {
                proof {
                    lemma_level_sizes_none(bytes@, start as int, (k + 1) as nat, n as nat);
                }
                return Err(PhfFault::Truncated);
            },
            Some((size, next)) => {
                proof {
                    assert(sizes.push(size as nat).drop_last() =~= sizes);
                    sizes = sizes.push(size as nat);
                }
                total = total + size as u128;
                pos = next;
                k = k + 1;
                if size > 0 {
                    levels = k;
                    sizes_end = next;
                }
            },
        }
    }
    if total > (usize::MAX / 16) as u128 {
        return Err(PhfFault::Malformed);
    }
    if 8 * total > (bytes.len() - pos) as u128 {
        return Err(PhfFault::Truncated);
    }
    if total > (usize::MAX / 64) as u128 {
        return Err(PhfFault::Malformed);
    }
    Ok(
        PhfParts {
            open_ended: levels < n,
            levels,
            sizes_pos: start,
            sizes_end,
            words_pos: pos,
            end: pos + 8 * total as usize,
        },
    )
}

/// Writes a number behind what is in `out`.
fn write_vbyte(out: &mut Vec<u8>, n: u64)
    ensures
        final(out)@ == old(out)@ + vbyte_bytes(n as nat, 0),
{
    let mut rest: u64 = n;
    let mut k: usize = 0;
    let ghost before = out@;
    assert(rest * vbyte_unit(0) == rest) by (nonlinear_arith)
        requires
            vbyte_unit(0) == 1,
    ;
    while rest >= 128 && k < 8
        invariant
            k <= 8,
            before + vbyte_bytes(n as nat, 0) == out@ + vbyte_bytes(rest as nat, k as nat),
            rest * vbyte_unit(k as nat) <= n,
        decreases 8 - k,
    {
        proof {
            lemma_vbyte_units(k as nat);
            let unit = vbyte_unit(k as nat);
            assert((rest / 128) * (128 * unit) <= rest * unit) by (nonlinear_arith)
                requires
                    128 * (rest / 128) <= rest,
            ;
        }
        let ghost shorter = out@;
        out.push((128 + rest % 128) as u8);
        proof {
            let tail = vbyte_bytes((rest / 128) as nat, (k + 1) as nat);
            assert(shorter + (seq![(128 + rest as nat % 128) as u8] + tail) =~= out@ + tail);
        }
        rest = rest / 128;
        k = k + 1;
    }
    proof {
        lemma_vbyte_units(k as nat);
        if k >= 8 {
            let unit = vbyte_unit(k as nat);
            assert(rest <= 255) by (nonlinear_arith)
                requires
                    rest * unit <= 0xFFFF_FFFF_FFFF_FFFF,
                    unit == 0x0100_0000_0000_0000,
            ;
        }
    }
    out.push(rest as u8);
    assert(out@ =~= before + vbyte_bytes(n as nat, 0));
}

/// Whether `bytes` are those of a function and no others, and a search in it does not
/// leave its words.
pub open spec fn is_searchable(bytes: Seq<u8>) -> bool {
    &&& phf_layout(bytes) is Ok
    &&& phf_layout(bytes)->Ok_0.end == bytes.len()
    &&& !is_open_ended(bytes)
}

/// Calls [`Function::read`] on `bytes`, which are those of a function and no others.
///
/// The source reads the number of levels, the size of each level and as many
/// 64-bit words as the sizes add up to. It fails where the bytes end before that,
/// and panics where a size is out of range; on bytes that [`phf_layout`] accepts it
/// succeeds. What the function then returns for a key
/// follows from the bytes read and from the hash of the key. That is taken by the
/// `DefaultHasher` of the standard library, which starts from the same state
/// everywhere, and integers enter it in native byte order. The algorithm of the
/// hasher belongs to the release of the standard library, and so does the name
/// [`phf_table`]: nothing is said of another release.
#[verifier::external_body]
fn read_function(order: &NativeOrder, bytes: &[u8]) -> (r: Option<Function>)
    requires
        is_searchable(bytes@),
    ensures
        r is Some,
        phf_slots(r->0) == phf_table(order.is_little(), bytes@),
{
    let _ = order;
    Function::read(&mut Cursor::new(bytes)).ok()
}

/// A perfect hash function that was read from a file.
pub struct Phf {
    function: Function,
    open_ended: bool,
    /// The bytes that the function was read from.
    bytes: Ghost<Seq<u8>>,
}

impl Phf {
    /// Whether the function was read from bytes that make searches in it end.
    #[verifier::type_invariant]
    pub closed spec fn well_formed(self) -> bool {
        &&& is_searchable(self.bytes@)
        &&& exists|little: bool| phf_slots(self.function) == #[trigger] phf_table(little, self.bytes@)
    }

    /// The bucket of each key, given by the name of its type and its stored bytes.
    pub closed spec fn slots(&self) -> Map<(Seq<u8>, Seq<u8>), u64> {
        phf_slots(self.function)
    }

    /// Whether a search for a key that has no bucket leaves the words of the function.
    pub closed spec fn open_ended(&self) -> bool {
        self.open_ended
    }

    /// Whether a search for a key that has no bucket leaves the words of the function.
    pub fn is_open_ended(&self) -> (r: bool)
        ensures
            r == self.open_ended(),
    {
        self.open_ended
    }

    /// Reads a perfect hash function from the start of `bytes`.
    pub fn read(order: &NativeOrder, bytes: &[u8]) -> (r: Result<Phf, PhfFault>)
        ensures
            match r {
                Ok(phf) => {
                    &&& phf_layout(bytes@) is Ok
                    &&& phf.slots() == phf_table(order.is_little(), phf_core(bytes@))
                    &&& phf.open_ended() == is_open_ended(bytes@)
                },
                Err(fault) => phf_layout(bytes@) == Err::<PhfLayout, PhfFault>(fault),
            },
    {
        let parts: PhfParts = match find_parts(bytes) {
            Ok(parts) => parts,
            Err(fault) => {
                return Err(fault);
            },
        };
        proof {
            lemma_core(bytes@);
            lemma_filled_levels(phf_layout(bytes@)->Ok_0.sizes);
        }
        if parts.open_ended {
            let mut core: Vec<u8> = Vec::new();
            write_vbyte(&mut core, parts.levels);
            core.extend_from_slice(
                vstd::slice::slice_subrange(bytes, parts.sizes_pos, parts.sizes_end),
            );
            core.extend_from_slice(vstd::slice::slice_subrange(bytes, parts.words_pos, parts.end));
            assert(core@ =~= phf_core(bytes@));
            Ok(
                Phf {
                    function: read_function(order, core.as_slice()).unwrap(),
                    open_ended: true,
                    bytes: Ghost(core@),
                },
            )
        } else {
            let core: &[u8] = vstd::slice::slice_subrange(bytes, 0, parts.end);
            assert(core@ =~= phf_core(bytes@));
            Ok(
                Phf {
                    function: read_function(order, core).unwrap(),
                    open_ended: false,
                    bytes: Ghost(core@),
                },
            )
        }
    }
}

/// Calls [`Function::get`] with a string.
///
/// The result is what the function holds for the string. The call panics where a search
/// leaves the words of the function, which it does in none that was read from
/// bytes that are searchable; see [`is_searchable`].
#[verifier::external_body]
pub(crate) fn get_str(phf: &Phf, key: &str) -> (r: Option<u64>)
    requires
        phf.well_formed(),
    ensures
        r == phf.slots().get((str_name(), str_stored(key@))),
{
    phf.function.get(key)
}

/// Calls [`Function::get`] with a signed 64-bit integer; see [`get_str`].
#[verifier::external_body]
pub(crate) fn get_i64(phf: &Phf, order: &NativeOrder, key: &i64) -> (r: Option<u64>)
    requires
        phf.well_formed(),
    ensures
        r == phf.slots().get((i64_name(), native_bytes(order.is_little(), i64_bits(*key), 8))),
{
    let _ = order;
    phf.function.get(key)
}

/// Calls [`Function::get`] with an unsigned 128-bit integer; see [`get_str`].
#[verifier::external_body]
pub(crate) fn get_u128(phf: &Phf, order: &NativeOrder, key: &u128) -> (r: Option<u64>)
    requires
        phf.well_formed(),
    ensures
        r == phf.slots().get((u128_name(), native_bytes(order.is_little(), *key as nat, 16))),
{
    let _ = order;
    phf.function.get(key)
}

} // verus!
