//! Little-endian numbers: the value of a byte string as an unsigned or a
//! signed integer, the bytes of a value, and the order of IEEE 754 floats
//! read off their bit patterns.

use vstd::prelude::*;

verus! {

/// 256 to the power `n`.
pub open spec fn pow256(n: nat) -> nat
    decreases n,
{
    if n == 0 {
        1
    } else {
        256 * pow256((n - 1) as nat)
    }
}

/// The unsigned number that `bytes` holds, least significant byte first.
pub open spec fn le_value(bytes: Seq<u8>) -> nat
    decreases bytes.len(),
{
    if bytes.len() == 0 {
        0
    } else {
        bytes[0] as nat + 256 * le_value(bytes.drop_first())
    }
}

/// The two's-complement number that `bytes` holds, least significant byte
/// first: the top bit of the last byte is the sign.
pub open spec fn le_signed(bytes: Seq<u8>) -> int {
    if bytes.len() > 0 && bytes.last() >= 128 {
        le_value(bytes) - pow256(bytes.len())
    } else {
        le_value(bytes) as int
    }
}

/// The `width` low bytes of `value`, least significant first.
pub open spec fn le_bytes(value: nat, width: nat) -> Seq<u8>
    decreases width,
{
    if width == 0 {
        Seq::empty()
    } else {
        seq![(value % 256) as u8] + le_bytes(value / 256, (width - 1) as nat)
    }
}

/// The powers of 256 up to the eighth, written out.
pub proof fn lemma_pow256_values()
    ensures
        pow256(0) == 1,
        pow256(1) == 0x100,
        pow256(2) == 0x1_0000,
        pow256(3) == 0x100_0000,
        pow256(4) == 0x1_0000_0000,
        pow256(5) == 0x100_0000_0000,
        pow256(6) == 0x1_0000_0000_0000,
        pow256(7) == 0x100_0000_0000_0000,
        pow256(8) == 0x1_0000_0000_0000_0000,
{
    reveal_with_fuel(pow256, 10);
}

/// A byte string of length `n` holds a number below 256 to the `n`.
pub proof fn lemma_le_value_bound(bytes: Seq<u8>)
    ensures
        le_value(bytes) < pow256(bytes.len()),
    decreases bytes.len(),
{
    if bytes.len() > 0 {
        lemma_le_value_bound(bytes.drop_first());
    }
}

/// Writing out the number that a byte string holds, at the string's own
/// length, gives the string again.
pub proof fn lemma_le_bytes_of_value(bytes: Seq<u8>)
    ensures
        le_bytes(le_value(bytes), bytes.len()) == bytes,
    decreases bytes.len(),
{
    if bytes.len() > 0 {
        let rest = bytes.drop_first();
        lemma_le_bytes_of_value(rest);
        let v = le_value(bytes);
        assert(v == bytes[0] as nat + 256 * le_value(rest));
        assert(v % 256 == bytes[0] as nat);
        assert(v / 256 == le_value(rest));
        assert(le_bytes(v, bytes.len()) =~= seq![bytes[0]] + rest);
        assert(seq![bytes[0]] + rest =~= bytes);
    } else {
        assert(le_bytes(le_value(bytes), bytes.len()) =~= bytes);
    }
}

/// The bytes of a value hold that value again, as far as the width
/// reaches: the value modulo 256 to the power of the width.
pub proof fn lemma_le_value_of_bytes(value: nat, width: nat)
    ensures
        le_bytes(value, width).len() == width,
        le_value(le_bytes(value, width)) == value % pow256(width),
    decreases width,
{
    if width > 0 {
        let rest = le_bytes(value / 256, (width - 1) as nat);
        lemma_le_value_of_bytes(value / 256, (width - 1) as nat);
        let all = le_bytes(value, width);
        assert(all =~= seq![(value % 256) as u8] + rest);
        assert(all.drop_first() =~= rest);
        assert(all[0] == (value % 256) as u8);
        let p = pow256((width - 1) as nat);
        lemma_pow256_positive((width - 1) as nat);
        vstd::arithmetic::div_mod::lemma_mod_breakdown(value as int, 256, p as int);
    }
}

/// Every power of 256 is positive.
pub proof fn lemma_pow256_positive(n: nat)
    ensures
        pow256(n) > 0,
    decreases n,
{
    if n > 0 {
        lemma_pow256_positive((n - 1) as nat);
    }
}

/// The value of a byte string with one more byte at its end.
pub proof fn lemma_le_value_push(bytes: Seq<u8>, last: u8)
    ensures
        le_value(bytes.push(last)) == le_value(bytes) + pow256(bytes.len()) * last,
    decreases bytes.len(),
{
    if bytes.len() == 0 {
        assert(bytes.push(last).drop_first() =~= Seq::<u8>::empty());
        assert(le_value(bytes.push(last)) == last as nat + 256 * le_value(Seq::<u8>::empty()));
        assert(pow256(0) * last == last) by (nonlinear_arith)
            requires
                pow256(0) == 1,
        ;
    } else {
        let rest = bytes.drop_first();
        lemma_le_value_push(rest, last);
        assert(bytes.push(last).drop_first() =~= rest.push(last));
        let p = pow256(rest.len());
        assert(pow256(bytes.len()) == 256 * p);
        assert(256 * (p * last) == (256 * p) * last) by (nonlinear_arith);
    }
}

/// The unsigned little-endian number in `bytes`.
pub fn read_unsigned(bytes: &[u8]) -> (value: u64)
    requires
        bytes@.len() <= 8,
    ensures
        value == le_value(bytes@),
{
    let mut value: u64 = 0;
    let mut i: usize = bytes.len();
    proof {
        assert(bytes@.subrange(i as int, bytes@.len() as int) =~= Seq::<u8>::empty());
    }
    while i > 0
        invariant
            i <= bytes@.len() <= 8,
            value == le_value(bytes@.subrange(i as int, bytes@.len() as int)),
        decreases i,
    {
        let ghost tail = bytes@.subrange(i as int, bytes@.len() as int);
        let ghost longer = bytes@.subrange(i - 1, bytes@.len() as int);
        proof {
            lemma_le_value_bound(tail);
            lemma_pow256_values();
            assert(longer.drop_first() =~= tail);
            assert(longer[0] == bytes@[i - 1]);
            lemma_pow256_step_bound(tail.len());
        }
        i = i - 1;
        value = value * 256 + bytes[i] as u64;
    }
    proof {
        assert(bytes@.subrange(0, bytes@.len() as int) =~= bytes@);
    }
    value
}

proof fn lemma_pow256_step_bound(n: nat)
    requires
        n <= 7,
    ensures
        pow256(n) <= 0x100_0000_0000_0000,
{
    lemma_pow256_values();
    if n == 0 {
    } else if n == 1 {
    } else if n == 2 {
    } else if n == 3 {
    } else if n == 4 {
    } else if n == 5 {
    } else if n == 6 {
    } else {
    }
}

/// The two's-complement little-endian number in `bytes`.
pub fn read_signed(bytes: &[u8]) -> (value: i64)
    requires
        1 <= bytes@.len() <= 8,
    ensures
        value == le_signed(bytes@),
{
    let n = bytes.len();
    let raw: u64 = read_unsigned(bytes);
    let mut span: u128 = 1;
    let mut k: usize = 0;
    while k < n
        invariant
            k <= n <= 8,
            span == pow256(k as nat),
        decreases n - k,
    {
        proof {
            lemma_pow256_step_bound(k as nat);
        }
        span = span * 256;
        k = k + 1;
    }
    proof {
        lemma_le_value_bound(bytes@);
        lemma_pow256_values();
        lemma_le_value_push(bytes@.drop_last(), bytes@.last());
        assert(bytes@.drop_last().push(bytes@.last()) =~= bytes@);
        lemma_le_value_bound(bytes@.drop_last());
        lemma_signed_range(
            le_value(bytes@.drop_last()),
            pow256((n - 1) as nat),
            bytes@.last() as nat,
        );
    }
    if bytes[n - 1] >= 128 {
        let wide: i128 = raw as i128 - span as i128;
        wide as i64
    } else {
        raw as i64
    }
}

proof fn lemma_signed_range(low: nat, unit: nat, top: nat)
    requires
        low < unit,
        top < 256,
        0 < unit <= 0x100_0000_0000_0000,
    ensures
        top >= 128 ==> -(128 * unit) <= low + unit * top - 256 * unit < 0,
        top < 128 ==> low + unit * top < 128 * unit,
        128 * unit <= 0x8000_0000_0000_0000,
{
    assert(top >= 128 ==> unit * top >= unit * 128) by (nonlinear_arith)
        requires
            unit > 0,
    ;
    assert(unit * top <= unit * 255) by (nonlinear_arith)
        requires
            unit > 0,
            top <= 255,
    ;
    assert(top < 128 ==> unit * top <= unit * 127) by (nonlinear_arith)
        requires
            unit > 0,
    ;
}

/// The `width` low bytes of `value`, least significant first.
pub fn write_unsigned(value: u64, width: usize) -> (bytes: Vec<u8>)
    ensures
        bytes@ == le_bytes(value as nat, width as nat),
{
    let mut bytes: Vec<u8> = Vec::new();
    let mut rest: u64 = value;
    let mut k: usize = 0;
    while k < width
        invariant
            k <= width,
            le_bytes(value as nat, width as nat) == bytes@ + le_bytes(rest as nat, (width - k) as nat),
        decreases width - k,
    {
        let ghost before = bytes@;
        bytes.push((rest % 256) as u8);
        proof {
            let tail = le_bytes((rest / 256) as nat, (width - k - 1) as nat);
            assert(le_bytes(rest as nat, (width - k) as nat) == seq![(rest % 256) as u8] + tail);
            assert(before + (seq![(rest % 256) as u8] + tail) =~= before.push((rest % 256) as u8)
                + tail);
        }
        rest = rest / 256;
        k = k + 1;
    }
    proof {
        assert(bytes@ + le_bytes(rest as nat, 0) =~= bytes@);
    }
    bytes
}

/// Whether `bits`, a pattern of `1 + exponent + fraction` bits, is a NaN:
/// `top` is the pattern of the sign bit alone, `infinity` that of positive
/// infinity.
pub open spec fn float_is_nan(bits: nat, top: nat, infinity: nat) -> bool {
    bits % top > infinity
}

/// A number that orders float bit patterns as the floats themselves are
/// ordered: the magnitude bits, negated where the sign bit is set. Both zeros
/// get 0. Meaningful where the pattern is no NaN.
pub open spec fn float_key(bits: nat, top: nat) -> int {
    if bits >= top {
        -((bits - top) as int)
    } else {
        bits as int
    }
}

/// The sign bit of a 32-bit float.
pub const F32_SIGN: u64 = 0x8000_0000;

/// The bits of positive infinity as a 32-bit float.
pub const F32_INFINITY: u64 = 0x7f80_0000;

/// The sign bit of a 64-bit float.
pub const F64_SIGN: u64 = 0x8000_0000_0000_0000;

/// The bits of positive infinity as a 64-bit float.
pub const F64_INFINITY: u64 = 0x7ff0_0000_0000_0000;

/// The ordering key of the float pattern `bits`, or `None` for a NaN.
pub fn float_order_key(bits: u64, top: u64, infinity: u64) -> (key: Option<i128>)
    requires
        top > 0,
        bits < 2 * top,
    ensures
        key is None <==> float_is_nan(bits as nat, top as nat, infinity as nat),
        key matches Some(k) ==> k == float_key(bits as nat, top as nat),
{
    if bits % top > infinity {
        None
    } else if bits >= top {
        Some(-((bits - top) as i128))
    } else {
        Some(bits as i128)
    }
}

/// `byteorder::LittleEndian::read_u16`: the number in the first two bytes of
/// `buf`, least significant first. It panics on a shorter slice.
#[verifier::external_body]
pub(crate) fn le_read_u16(buf: &[u8]) -> (value: u16)
    requires
        buf@.len() >= 2,
    ensures
        value == le_value(buf@.subrange(0, 2)),
{
    <byteorder::LittleEndian as byteorder::ByteOrder>::read_u16(buf)
}

/// `byteorder::LittleEndian::read_u32`: the number in the first four bytes of
/// `buf`, least significant first. It panics on a shorter slice.
#[verifier::external_body]
pub(crate) fn le_read_u32(buf: &[u8]) -> (value: u32)
    requires
        buf@.len() >= 4,
    ensures
        value == le_value(buf@.subrange(0, 4)),
{
    <byteorder::LittleEndian as byteorder::ByteOrder>::read_u32(buf)
}

/// `byteorder::LittleEndian::read_u64`: the number in the first eight bytes
/// of `buf`, least significant first. It panics on a shorter slice.
#[verifier::external_body]
pub(crate) fn le_read_u64(buf: &[u8]) -> (value: u64)
    requires
        buf@.len() >= 8,
    ensures
        value == le_value(buf@.subrange(0, 8)),
{
    <byteorder::LittleEndian as byteorder::ByteOrder>::read_u64(buf)
}

} // verus!
