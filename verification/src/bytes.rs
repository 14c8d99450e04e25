//! Integers in the byte order of the machine.
//!
//! A map file is written and read in native byte order. The order is found
//! once, at run time, and every decoding function then takes it as an argument,
//! so that what a function returns is exact for either kind of machine.

use vstd::arithmetic::power::pow;
use vstd::prelude::*;

verus! {

/// The number of different values that `width` bytes can hold.
pub open spec fn limit(width: nat) -> nat
    decreases width,
{
    if width == 0 {
        1
    } else {
        256 * limit((width - 1) as nat)
    }
}

/// The integer whose digits in base 256 are `bytes`, least significant first.
pub open spec fn le_value(bytes: Seq<u8>) -> nat
    decreases bytes.len(),
{
    if bytes.len() == 0 {
        0
    } else {
        bytes[0] as nat + 256 * le_value(bytes.drop_first())
    }
}

/// The `width` lowest digits of `n` in base 256, least significant first.
pub open spec fn le_bytes(n: nat, width: nat) -> Seq<u8>
    decreases width,
{
    if width == 0 {
        Seq::empty()
    } else {
        seq![(n % 256) as u8] + le_bytes(n / 256, (width - 1) as nat)
    }
}

/// The integer that `bytes` hold on a machine that is little-endian iff `little`.
pub open spec fn native_value(little: bool, bytes: Seq<u8>) -> nat {
    if little {
        le_value(bytes)
    } else {
        le_value(bytes.reverse())
    }
}

/// How a machine that is little-endian iff `little` stores `n` in `width` bytes.
pub open spec fn native_bytes(little: bool, n: nat, width: nat) -> Seq<u8> {
    if little {
        le_bytes(n, width)
    } else {
        le_bytes(n, width).reverse()
    }
}

pub(crate) proof fn lemma_le_value_bound(bytes: Seq<u8>)
    ensures
        le_value(bytes) < limit(bytes.len()),
    decreases bytes.len(),
{
    if bytes.len() > 0 {
        lemma_le_value_bound(bytes.drop_first());
    }
}

pub(crate) proof fn lemma_le_bytes_len(n: nat, width: nat)
    ensures
        le_bytes(n, width).len() == width,
    decreases width,
{
    if width > 0 {
        lemma_le_bytes_len(n / 256, (width - 1) as nat);
    }
}

proof fn lemma_le_round_trip(n: nat, width: nat)
    requires
        n < limit(width),
    ensures
        le_value(le_bytes(n, width)) == n,
    decreases width,
{
    if width > 0 {
        lemma_le_round_trip(n / 256, (width - 1) as nat);
        assert(le_bytes(n, width).drop_first() =~= le_bytes(n / 256, (width - 1) as nat));
    }
}

proof fn lemma_le_inverse(bytes: Seq<u8>)
    ensures
        le_bytes(le_value(bytes), bytes.len()) == bytes,
    decreases bytes.len(),
{
    if bytes.len() > 0 {
        let rest = bytes.drop_first();
        lemma_le_inverse(rest);
        let n = le_value(bytes);
        assert(n % 256 == bytes[0] as nat && n / 256 == le_value(rest));
        assert(le_bytes(n, bytes.len()) =~= seq![bytes[0]] + rest);
        assert(seq![bytes[0]] + rest =~= bytes);
    } else {
        assert(le_bytes(le_value(bytes), bytes.len()) =~= bytes);
    }
}

/// A value that fits in `width` bytes is read back from the bytes it is stored in.
pub proof fn law_native_round_trip(little: bool, n: nat, width: nat)
    requires
        n < limit(width),
    ensures
        native_bytes(little, n, width).len() == width,
        native_value(little, native_bytes(little, n, width)) == n,
{
    lemma_le_bytes_len(n, width);
    lemma_le_round_trip(n, width);
    let b = le_bytes(n, width);
    assert(b.reverse().reverse() =~= b);
}

/// Bytes are the stored form of the value that they hold.
pub proof fn law_native_inverse(little: bool, bytes: Seq<u8>)
    ensures
        native_value(little, bytes) < limit(bytes.len()),
        native_bytes(little, native_value(little, bytes), bytes.len()) == bytes,
{
    lemma_le_value_bound(bytes);
    lemma_le_value_bound(bytes.reverse());
    lemma_le_inverse(bytes);
    lemma_le_inverse(bytes.reverse());
    assert(bytes.reverse().reverse() =~= bytes);
}

/// The digits of the number that `bytes` hold, least significant first, are the bytes.
proof fn lemma_le_digits(bytes: Seq<u8>, i: nat)
    ensures
        le_value(bytes) < pow(256, bytes.len()),
        i < bytes.len() ==> (le_value(bytes) as int / pow(256, i)) % 256 == bytes[i as int],
    decreases bytes.len(),
{
    reveal(pow);
    if bytes.len() > 0 {
        let rest = bytes.drop_first();
        let n = le_value(bytes) as int;
        let r = le_value(rest) as int;
        lemma_le_digits(rest, (i - 1) as nat);
        if i == 0 {
            assert(n / 1 == n);
        } else if i < bytes.len() {
            let unit = pow(256, (i - 1) as nat);
            vstd::arithmetic::power::lemma_pow_positive(256, (i - 1) as nat);
            vstd::arithmetic::div_mod::lemma_div_denominator(n, 256, unit);
            assert(n / 256 == r);
            assert(rest[i - 1] == bytes[i as int]);
        }
    }
}

/// The bytes that a number is written in are its digits, least significant first.
proof fn lemma_le_bytes_digits(n: nat, width: nat, i: nat)
    ensures
        i < width ==> le_bytes(n, width)[i as int] == (n as int / pow(256, i)) % 256,
    decreases width,
{
    reveal(pow);
    lemma_le_bytes_len(n, width);
    if width > 0 {
        lemma_le_bytes_len(n / 256, (width - 1) as nat);
        if i == 0 {
            assert(n as int / 1 == n);
        } else {
            let unit = pow(256, (i - 1) as nat);
            lemma_le_bytes_digits(n / 256, (width - 1) as nat, (i - 1) as nat);
            vstd::arithmetic::power::lemma_pow_positive(256, (i - 1) as nat);
            vstd::arithmetic::div_mod::lemma_div_denominator(n as int, 256, unit);
        }
    }
}

/// The bytes of a stored number are its digits in base 256, from the least significant
/// one on a little-endian machine, and from the most significant one on another.
pub proof fn law_native_digits(little: bool, bytes: Seq<u8>, i: nat)
    requires
        i < bytes.len(),
    ensures
        native_value(little, bytes) < pow(256, bytes.len()),
        bytes[if little { i as int } else { bytes.len() - 1 - i }] == (native_value(
            little,
            bytes,
        ) as int / pow(256, i)) % 256,
{
    lemma_le_digits(bytes, i);
    lemma_le_digits(bytes.reverse(), i);
}

/// A number is stored in its digits in base 256, from the least significant one on a
/// little-endian machine, and from the most significant one on another.
pub proof fn law_native_bytes_digits(little: bool, n: nat, width: nat, i: nat)
    requires
        i < width,
    ensures
        native_bytes(little, n, width).len() == width,
        native_bytes(little, n, width)[if little { i as int } else { width - 1 - i }] == (n as int
            / pow(256, i)) % 256,
{
    lemma_le_bytes_len(n, width);
    lemma_le_bytes_digits(n, width, i);
}

/// The integer that four or eight bytes hold, in numbers.
pub proof fn law_native_words(b: Seq<u8>)
    ensures
        b.len() == 4 ==> native_value(true, b) == b[0] + 0x100 * b[1] + 0x1_0000 * b[2] + 0x100_0000
            * b[3],
        b.len() == 4 ==> native_value(false, b) == b[3] + 0x100 * b[2] + 0x1_0000 * b[1]
            + 0x100_0000 * b[0],
        b.len() == 8 ==> native_value(true, b) == b[0] + 0x100 * b[1] + 0x1_0000 * b[2] + 0x100_0000
            * b[3] + 0x1_0000_0000 * b[4] + 0x100_0000_0000 * b[5] + 0x1_0000_0000_0000 * b[6]
            + 0x100_0000_0000_0000 * b[7],
        b.len() == 8 ==> native_value(false, b) == b[7] + 0x100 * b[6] + 0x1_0000 * b[5]
            + 0x100_0000 * b[4] + 0x1_0000_0000 * b[3] + 0x100_0000_0000 * b[2]
            + 0x1_0000_0000_0000 * b[1] + 0x100_0000_0000_0000 * b[0],
{
    reveal_with_fuel(le_value, 9);
}

/// The order that is detected is the one in which the machine reads the bytes
/// `1, 0, 0, 0, 0, 0, 0, 0`: as 1 on a little-endian machine, and as 2 to the power of
/// 56 on another.
proof fn law_detect(order: NativeOrder)
    requires
        call_ensures(NativeOrder::detect, (), order),
    ensures
        exists|probe: [u8; 8], word: u64| #[trigger]
            call_ensures(u64_from_ne_bytes, (probe,), word) && probe@ == seq![
                1u8,
                0,
                0,
                0,
                0,
                0,
                0,
                0,
            ] && word == if order.is_little() {
                1u64
            } else {
                0x0100_0000_0000_0000u64
            },
{
    lemma_probe(PROBE@);
}

pub(crate) proof fn lemma_limits()
    ensures
        limit(4) == 0x1_0000_0000,
        limit(8) == 0x1_0000_0000_0000_0000,
        limit(16) == 0x1_0000_0000_0000_0000_0000_0000_0000_0000,
{
    reveal_with_fuel(limit, 17);
}

proof fn lemma_limit_monotonic(a: nat, b: nat)
    requires
        a <= b,
    ensures
        limit(a) <= limit(b),
    decreases b - a,
{
    if a < b {
        lemma_limit_monotonic(a, (b - 1) as nat);
    }
}

/// The byte order of the machine that the program runs on.
///
/// The only way to get one is [`NativeOrder::detect`].
#[derive(Clone, Copy)]
pub struct NativeOrder {
    little: bool,
}

/// The word whose storage tells the two byte orders apart.
const PROBE: [u8; 8] = [1, 0, 0, 0, 0, 0, 0, 0];

/// Reads eight bytes as an integer by [`u64::from_ne_bytes`].
///
/// The documentation says that the bytes are taken in the target's native
/// endianness, so the result is the little-endian or the big-endian reading of
/// them. Which of the two it is depends on the machine and is left unsaid.
#[verifier::external_body]
fn u64_from_ne_bytes(bytes: [u8; 8]) -> (r: u64)
    ensures
        r == native_value(true, bytes@) || r == native_value(false, bytes@),
{
    u64::from_ne_bytes(bytes)
}

impl NativeOrder {
    /// Whether the machine is little-endian.
    pub closed spec fn is_little(&self) -> bool {
        self.little
    }

    /// Whether this is the byte order of the machine: the one in which
    /// [`u64::from_ne_bytes`] reads the bytes `1, 0, 0, 0, 0, 0, 0, 0`.
    pub closed spec fn is_of_machine(&self) -> bool {
        exists|word: u64| #[trigger]
            call_ensures(u64_from_ne_bytes, (PROBE,), word) && word == native_value(
                self.is_little(),
                PROBE@,
            )
    }

    /// The byte order under which the bytes `1, 0, 0, 0, 0, 0, 0, 0` read as `word`.
    fn from_probe(word: u64) -> (r: Option<NativeOrder>)
        ensures
            word == 1 ==> (r matches Some(order) && order.is_little()),
            word == 0x0100_0000_0000_0000 ==> (r matches Some(order) && !order.is_little()),
            r is None <==> word != 1 && word != 0x0100_0000_0000_0000,
    {
        if word == 1 {
            Some(NativeOrder { little: true })
        } else if word == 0x0100_0000_0000_0000 {
            Some(NativeOrder { little: false })
        } else {
            None
        }
    }

    /// Finds the byte order of this machine.
    pub fn detect() -> (r: NativeOrder)
        ensures
            r.is_of_machine(),
    {
        let word: u64 = u64_from_ne_bytes(PROBE);
        proof {
            lemma_probe(PROBE@);
        }
        NativeOrder::from_probe(word).unwrap()
    }

    /// The integer that `bytes` hold in this byte order.
    pub fn decode(&self, bytes: &[u8]) -> (r: u128)
        requires
            bytes@.len() <= 16,
        ensures
            r == native_value(self.is_little(), bytes@),
    {
        if self.little {
            decode_le(bytes)
        } else {
            decode_be(bytes)
        }
    }

    /// The 32-bit integer that four bytes hold in this byte order.
    pub fn decode_u32(&self, bytes: &[u8]) -> (r: u32)
        requires
            bytes@.len() == 4,
        ensures
            r == native_value(self.is_little(), bytes@),
    {
        proof {
            lemma_limits();
            law_native_inverse(self.is_little(), bytes@);
        }
        self.decode(bytes) as u32
    }

    /// The 64-bit integer that eight bytes hold in this byte order.
    pub fn decode_u64(&self, bytes: &[u8]) -> (r: u64)
        requires
            bytes@.len() == 8,
        ensures
            r == native_value(self.is_little(), bytes@),
    {
        proof {
            lemma_limits();
            law_native_inverse(self.is_little(), bytes@);
        }
        self.decode(bytes) as u64
    }
}

proof fn lemma_probe(bytes: Seq<u8>)
    requires
        bytes == seq![1u8, 0, 0, 0, 0, 0, 0, 0],
    ensures
        native_value(true, bytes) == 1,
        native_value(false, bytes) == 0x0100_0000_0000_0000,
{
    assert(le_bytes(1, 8) =~= bytes) by {
        reveal_with_fuel(le_bytes, 9);
    }
    assert(le_bytes(0x0100_0000_0000_0000, 8) =~= bytes.reverse()) by {
        reveal_with_fuel(le_bytes, 9);
    }
    lemma_limits();
    lemma_le_round_trip(1, 8);
    lemma_le_round_trip(0x0100_0000_0000_0000, 8);
}

fn decode_le(bytes: &[u8]) -> (r: u128)
    requires
        bytes@.len() <= 16,
    ensures
        r == le_value(bytes@),
{
    let mut value: u128 = 0;
    let mut i: usize = bytes.len();
    assert(bytes@.skip(i as int) =~= Seq::empty());
    while i > 0
        invariant
            i <= bytes@.len() <= 16,
            value == le_value(bytes@.skip(i as int)),
        decreases i,
    {
        i = i - 1;
        proof {
            let rest = bytes@.skip(i + 1);
            assert(bytes@.skip(i as int).drop_first() =~= rest);
            lemma_le_value_bound(rest);
            lemma_limit_monotonic(rest.len(), 15);
            lemma_limits();
        }
        value = value * 256 + bytes[i] as u128;
    }
    assert(bytes@.skip(0) =~= bytes@);
    value
}

fn decode_be(bytes: &[u8]) -> (r: u128)
    requires
        bytes@.len() <= 16,
    ensures
        r == le_value(bytes@.reverse()),
{
    let mut value: u128 = 0;
    let mut i: usize = 0;
    assert(bytes@.take(0).reverse() =~= Seq::empty());
    while i < bytes.len()
        invariant
            i <= bytes@.len() <= 16,
            value == le_value(bytes@.take(i as int).reverse()),
        decreases bytes@.len() - i,
    {
        proof {
            let done = bytes@.take(i as int).reverse();
            assert(bytes@.take(i + 1).reverse().drop_first() =~= done);
            lemma_le_value_bound(done);
            lemma_limit_monotonic(done.len(), 15);
            lemma_limits();
        }
        value = value * 256 + bytes[i] as u128;
        i = i + 1;
    }
    assert(bytes@.take(i as int) =~= bytes@);
    value
}

} // verus!
