//! Mathematical model of a JPEG entropy-coded bit stream: bits are packed
//! most-significant first into bytes, and every 0xFF data byte is followed by
//! a stuffed 0x00 so that the data never looks like a marker.
use vstd::arithmetic::power::pow;
use vstd::arithmetic::power2::{lemma_pow2, lemma_pow2_unfold, pow2};
use vstd::bits::lemma_u16_shr_is_div;
use vstd::prelude::*;

verus! {

/// Bit `k` (counting from the least significant bit) of `v`.
pub open spec fn bit16(v: u16, k: u16) -> bool {
    (v >> k) & 1 == 1
}

/// The low `n` bits of `value`, most significant first.
pub open spec fn bits_of(value: u16, n: nat) -> Seq<bool> {
    Seq::new(n, |i: int| bit16(value, (n - 1 - i) as u16))
}

/// `n` one-bits.
pub open spec fn ones(n: nat) -> Seq<bool> {
    Seq::new(n, |i: int| true)
}

pub open spec fn bool_bit(b: bool) -> u8 {
    if b { 1 } else { 0 }
}

/// The byte whose bits, most significant first, are `s[0..8]`.
pub open spec fn byte_of(s: Seq<bool>) -> u8 {
    (bool_bit(s[0]) << 7u8) | (bool_bit(s[1]) << 6u8) | (bool_bit(s[2]) << 5u8) | (bool_bit(s[3])
        << 4u8) | (bool_bit(s[4]) << 3u8) | (bool_bit(s[5]) << 2u8) | (bool_bit(s[6]) << 1u8)
        | bool_bit(s[7])
}

/// Number of complete bytes in a bit stream.
pub open spec fn full_bytes(s: Seq<bool>) -> nat {
    s.len() / 8
}

/// The complete bytes of a bit stream; trailing bits that do not fill a byte
/// are not part of it.
pub open spec fn pack(s: Seq<bool>) -> Seq<u8> {
    Seq::new(full_bytes(s), |j: int| byte_at(s, j))
}

/// The `j`-th byte of a bit stream.
pub open spec fn byte_at(s: Seq<bool>, j: int) -> u8 {
    byte_of(s.subrange(8 * j, 8 * j + 8))
}

/// Bits of a byte sequence, most significant bit of each byte first.
pub open spec fn unpack(b: Seq<u8>) -> Seq<bool>
    decreases b.len(),
{
    if b.len() == 0 {
        Seq::empty()
    } else {
        unpack(b.drop_last()) + bits_of(b.last() as u16, 8)
    }
}

/// The one-bits that complete the last byte of a stream.
pub open spec fn padding(s: Seq<bool>) -> Seq<bool> {
    if s.len() % 8 == 0 {
        Seq::empty()
    } else {
        ones((8 - s.len() % 8) as nat)
    }
}

/// A stream completed to a byte boundary with one-bits.
pub open spec fn pad(s: Seq<bool>) -> Seq<bool> {
    s + padding(s)
}

/// The bytes that one data byte becomes on output.
pub open spec fn stuffed_byte(x: u8) -> Seq<u8> {
    if x == 0xFF {
        seq![0xFFu8, 0x00u8]
    } else {
        seq![x]
    }
}

/// Byte stuffing: each 0xFF is followed by 0x00.
pub open spec fn stuff(b: Seq<u8>) -> Seq<u8>
    decreases b.len(),
{
    if b.len() == 0 {
        Seq::empty()
    } else {
        stuff(b.drop_last()) + stuffed_byte(b.last())
    }
}

/// Removes stuffed bytes: a 0x00 that follows 0xFF is dropped.
pub open spec fn unstuff(b: Seq<u8>) -> Seq<u8>
    decreases b.len(),
{
    if b.len() == 0 {
        Seq::empty()
    } else if b.len() >= 2 && b[0] == 0xFF && b[1] == 0 {
        seq![0xFFu8] + unstuff(b.skip(2))
    } else {
        seq![b[0]] + unstuff(b.skip(1))
    }
}

/// The bytes a stream contributes to the output once its complete bytes are
/// stuffed.
pub open spec fn encoded(s: Seq<bool>) -> Seq<u8> {
    stuff(pack(s))
}

/// No byte 0xFF is followed by anything but 0x00, and 0xFF is not last.
pub open spec fn marker_free(b: Seq<u8>) -> bool {
    forall|i: int| 0 <= i < b.len() && #[trigger] b[i] == 0xFF ==> i + 1 < b.len() && b[i + 1] == 0
}

// ---------------------------------------------------------------------------
// Bit-level facts
proof fn lemma_byte_of_bits(x: u8, b0: bool, b1: bool, b2: bool, b3: bool, b4: bool, b5: bool, b6: bool, b7: bool)
    by (bit_vector)
    requires
        b0 == ((x >> 7u8) & 1 == 1),
        b1 == ((x >> 6u8) & 1 == 1),
        b2 == ((x >> 5u8) & 1 == 1),
        b3 == ((x >> 4u8) & 1 == 1),
        b4 == ((x >> 3u8) & 1 == 1),
        b5 == ((x >> 2u8) & 1 == 1),
        b6 == ((x >> 1u8) & 1 == 1),
        b7 == ((x >> 0u8) & 1 == 1),
    ensures
        x == ((if b0 { 1u8 } else { 0u8 }) << 7u8) | ((if b1 { 1u8 } else { 0u8 }) << 6u8) | ((if b2 { 1u8 } else { 0u8 })
            << 5u8) | ((if b3 { 1u8 } else { 0u8 }) << 4u8) | ((if b4 { 1u8 } else { 0u8 }) << 3u8) | ((if b5 { 1u8 } else { 0u8 })
            << 2u8) | ((if b6 { 1u8 } else { 0u8 }) << 1u8) | (if b7 { 1u8 } else { 0u8 }),
{
}

/// A byte is determined by its eight bits.
pub proof fn lemma_byte_of_char(x: u8, s: Seq<bool>)
    requires
        s.len() == 8,
        forall|k: int| 0 <= k < 8 ==> #[trigger] s[k] == ((x >> (7 - k) as u8) & 1 == 1),
    ensures
        byte_of(s) == x,
{
    assert(s[0] == ((x >> 7u8) & 1 == 1));
    assert(s[1] == ((x >> 6u8) & 1 == 1));
    assert(s[2] == ((x >> 5u8) & 1 == 1));
    assert(s[3] == ((x >> 4u8) & 1 == 1));
    assert(s[4] == ((x >> 3u8) & 1 == 1));
    assert(s[5] == ((x >> 2u8) & 1 == 1));
    assert(s[6] == ((x >> 1u8) & 1 == 1));
    assert(s[7] == ((x >> 0u8) & 1 == 1));
    lemma_byte_of_bits(x, s[0], s[1], s[2], s[3], s[4], s[5], s[6], s[7]);
}


proof fn lemma_bits_of_byte_bits(b0: bool, b1: bool, b2: bool, b3: bool, b4: bool, b5: bool, b6: bool, b7: bool, x: u16)
    by (bit_vector)
    requires
        x == (((if b0 { 1u8 } else { 0u8 }) << 7u8) | ((if b1 { 1u8 } else { 0u8 }) << 6u8) | ((if b2 { 1u8 } else { 0u8 })
            << 5u8) | ((if b3 { 1u8 } else { 0u8 }) << 4u8) | ((if b4 { 1u8 } else { 0u8 }) << 3u8) | ((if b5 { 1u8 } else { 0u8 })
            << 2u8) | ((if b6 { 1u8 } else { 0u8 }) << 1u8) | (if b7 { 1u8 } else { 0u8 })) as u16,
    ensures
        b0 == ((x >> 7u16) & 1 == 1),
        b1 == ((x >> 6u16) & 1 == 1),
        b2 == ((x >> 5u16) & 1 == 1),
        b3 == ((x >> 4u16) & 1 == 1),
        b4 == ((x >> 3u16) & 1 == 1),
        b5 == ((x >> 2u16) & 1 == 1),
        b6 == ((x >> 1u16) & 1 == 1),
        b7 == ((x >> 0u16) & 1 == 1),
{
}

/// Reading back the bits of a packed byte gives the eight bits it was made of.
pub proof fn lemma_bits_of_byte_of(s: Seq<bool>)
    requires
        s.len() == 8,
    ensures
        bits_of(byte_of(s) as u16, 8) == s,
{
    lemma_bits_of_byte_bits(s[0], s[1], s[2], s[3], s[4], s[5], s[6], s[7], byte_of(s) as u16);
    assert(bits_of(byte_of(s) as u16, 8) =~= s);
}

/// Stuffing distributes over concatenation.
pub proof fn lemma_stuff_append(a: Seq<u8>, b: Seq<u8>)
    ensures
        stuff(a + b) == stuff(a) + stuff(b),
    decreases b.len(),
{
    if b.len() == 0 {
        assert(a + b =~= a);
        assert(stuff(b) =~= Seq::<u8>::empty());
        assert(stuff(a) + stuff(b) =~= stuff(a));
    } else {
        lemma_stuff_append(a, b.drop_last());
        assert((a + b).drop_last() =~= a + b.drop_last());
        assert((a + b).last() == b.last());
        assert(stuff(a + b) =~= stuff(a) + stuff(b.drop_last()) + stuffed_byte(b.last()));
    }
}

/// Stuffing one byte more appends its stuffed form.
pub proof fn lemma_stuff_push(a: Seq<u8>, x: u8)
    ensures
        stuff(a.push(x)) == stuff(a) + stuffed_byte(x),
{
    assert(a.push(x).drop_last() =~= a);
}

proof fn lemma_unstuff_prepend(x: u8, rest: Seq<u8>)
    ensures
        unstuff(stuffed_byte(x) + rest) == seq![x] + unstuff(rest),
{
    let b = stuffed_byte(x) + rest;
    if x == 0xFF {
        assert(b[0] == 0xFF && b[1] == 0);
        assert(b.skip(2) =~= rest);
    } else {
        assert(b.skip(1) =~= rest);
    }
}

/// Removing the stuffed bytes gives back the data bytes.
pub proof fn lemma_unstuff_stuff(b: Seq<u8>)
    ensures
        unstuff(stuff(b)) == b,
    decreases b.len(),
{
    if b.len() == 0 {
        assert(stuff(b) =~= Seq::<u8>::empty());
    } else {
        let x = b[0];
        let rest = b.skip(1);
        assert(b =~= seq![x] + rest);
        lemma_stuff_append(seq![x], rest);
        assert(seq![x].drop_last() =~= Seq::<u8>::empty());
        assert(seq![x].last() == x);
        assert(stuff(Seq::<u8>::empty()) =~= Seq::<u8>::empty());
        assert(stuff(seq![x]) =~= stuffed_byte(x));
        lemma_unstuff_prepend(x, stuff(rest));
        lemma_unstuff_stuff(rest);
        assert(seq![x] + rest =~= b);
    }
}

/// Stuffed data never contains a marker: every 0xFF is followed by 0x00.
pub proof fn lemma_stuff_marker_free(b: Seq<u8>)
    ensures
        marker_free(stuff(b)),
    decreases b.len(),
{
    if b.len() > 0 {
        lemma_stuff_marker_free(b.drop_last());
        let p = stuff(b.drop_last());
        let q = stuffed_byte(b.last());
        assert(stuff(b) == p + q);
        assert forall|i: int| 0 <= i < (p + q).len() && #[trigger] (p + q)[i] == 0xFF implies i + 1 < (
        p + q).len() && (p + q)[i + 1] == 0 by {
            if i < p.len() {
                assert(p[i] == 0xFF);
            }
        }
    }
}

/// Complete bytes of an extended stream begin with those of the stream it extends.
pub proof fn lemma_pack_prefix(s: Seq<bool>, c: Seq<bool>)
    ensures
        pack(s + c).len() >= pack(s).len(),
        pack(s + c).subrange(0, pack(s).len() as int) == pack(s),
{
    let t = s + c;
    assert forall|j: int| 0 <= j < full_bytes(s) implies #[trigger] pack(t)[j] == pack(s)[j] by {
        assert(t.subrange(8 * j, 8 * j + 8) =~= s.subrange(8 * j, 8 * j + 8));
    }
    assert(pack(t).subrange(0, pack(s).len() as int) =~= pack(s));
}

/// Extending a stream can only add output bytes.
pub proof fn lemma_encoded_prefix(s: Seq<bool>, c: Seq<bool>)
    ensures
        encoded(s).len() <= encoded(s + c).len(),
{
    lemma_pack_prefix(s, c);
    let p = pack(s + c);
    let k = pack(s).len() as int;
    assert(p =~= p.subrange(0, k) + p.subrange(k, p.len() as int));
    lemma_stuff_append(p.subrange(0, k), p.subrange(k, p.len() as int));
}

/// Bits that do not complete a byte leave the complete bytes unchanged.
pub proof fn lemma_pack_same(s: Seq<bool>, c: Seq<bool>)
    requires
        s.len() % 8 + c.len() < 8,
    ensures
        pack(s + c) == pack(s),
{
    lemma_pack_prefix(s, c);
    assert(full_bytes(s + c) == full_bytes(s));
    assert(pack(s + c) =~= pack(s + c).subrange(0, pack(s).len() as int));
}

/// Bits that complete a byte add exactly that byte.
pub proof fn lemma_pack_complete(s: Seq<bool>, c: Seq<bool>)
    requires
        s.len() % 8 + c.len() == 8,
    ensures
        pack(s + c) == pack(s).push(byte_at(s + c, full_bytes(s) as int)),
{
    lemma_pack_prefix(s, c);
    assert(full_bytes(s + c) == full_bytes(s) + 1);
    assert(pack(s + c) =~= pack(s).push(byte_at(s + c, full_bytes(s) as int)));
}

/// Unpacking the complete bytes of a byte-aligned stream gives the stream.
pub proof fn lemma_unpack_pack(s: Seq<bool>)
    requires
        s.len() % 8 == 0,
    ensures
        unpack(pack(s)) == s,
    decreases s.len(),
{
    if s.len() == 0 {
        assert(pack(s) =~= Seq::<u8>::empty());
        assert(unpack(pack(s)) =~= s);
    } else {
        let k = (s.len() - 8) as int;
        let head = s.subrange(0, k);
        let tail = s.subrange(k, s.len() as int);
        assert(s =~= head + tail);
        lemma_pack_complete(head, tail);
        lemma_unpack_pack(head);
        lemma_bits_of_byte_of(tail);
        assert(pack(s).drop_last() =~= pack(head));
        assert((head + tail).subrange(8 * (full_bytes(head) as int), 8 * (full_bytes(head) as int) + 8) =~= tail);
    }
}


/// Padding completes a stream to a whole number of bytes, and padding twice
/// adds nothing more.
pub proof fn lemma_pad(s: Seq<bool>)
    ensures
        pad(s).len() % 8 == 0,
        s.len() <= pad(s).len() < s.len() + 8,
        pad(s).subrange(0, s.len() as int) == s,
        pad(pad(s)) == pad(s),
{
    assert(pad(s).subrange(0, s.len() as int) =~= s);
    assert(padding(pad(s)) =~= Seq::<bool>::empty());
    assert(pad(pad(s)) =~= pad(s));
}

/// The output of a stream reads back: removing the stuffed bytes and
/// unpacking the bytes gives the stream, padded to a byte boundary; and the
/// output holds no marker.
pub proof fn lemma_output_reads_back(s: Seq<bool>)
    ensures
        unpack(unstuff(encoded(pad(s)))) == pad(s),
        marker_free(encoded(pad(s))),
{
    lemma_pad(s);
    lemma_unstuff_stuff(pack(pad(s)));
    lemma_unpack_pack(pad(s));
    lemma_stuff_marker_free(pack(pad(s)));
}

proof fn lemma_bits_concat_bit(a: u16, b: u16, x: u16, y: u16, i: u16)
    by (bit_vector)
    requires
        x + y <= 16,
        y < 16,
        i < x + y,
    ensures
        i < x ==> (((((a << y) | (b & (((1u16 << y) - 1) as u16))) as u16) >> (x + y - 1 - i) as u16) & 1 == 1)
            == ((a >> (x - 1 - i) as u16) & 1 == 1),
        x <= i ==> (((((a << y) | (b & (((1u16 << y) - 1) as u16))) as u16) >> (x + y - 1 - i) as u16) & 1 == 1)
            == ((b >> (y - 1 - (i - x)) as u16) & 1 == 1),
{
}

/// Writing `x` bits of `a` and then `y` bits of `b` writes the same bits as
/// writing the `x + y` bits of `a` followed by `b`.
pub proof fn lemma_bits_concat(a: u16, x: nat, b: u16, y: nat)
    requires
        x + y <= 16,
        y < 16,
    ensures
        bits_of(a, x) + bits_of(b, y) == bits_of(((a << y as u16) | (b & (((1u16 << y as u16) - 1) as u16))) as u16, x + y),
{
    let c = ((a << y as u16) | (b & (((1u16 << y as u16) - 1) as u16))) as u16;
    assert forall|i: int| 0 <= i < x + y implies #[trigger] bits_of(c, x + y)[i] == (bits_of(a, x) + bits_of(b, y))[i] by {
        lemma_bits_concat_bit(a, b, x as u16, y as u16, i as u16);
    }
    assert(bits_of(a, x) + bits_of(b, y) =~= bits_of(c, x + y));
}


proof fn lemma_low_bit(v: u16, n: u32, k: u32)
    by (bit_vector)
    requires
        n <= 16,
        k < n,
    ensures
        ((v >> (k as u16)) & 1 == 1) == (((((v as u32) % (1u32 << n)) as u16) >> (k as u16)) & 1 == 1),
{
}

/// The low `n` bits of `value` are those of `value % 2^n`.
pub proof fn lemma_bits_of_low(value: u16, n: nat)
    requires
        n <= 16,
    ensures
        bits_of(value, n) == bits_of(((value as nat) % pow2(n)) as u16, n),
{
    let r = ((value as nat) % pow2(n)) as u16;
    assert(pow2(n) == (1u32 << (n as u32))) by {
        vstd::arithmetic::power2::lemma2_to64();
        if n < 16 {
            vstd::arithmetic::power2::lemma_pow2_strictly_increases(n, 16);
        }
        vstd::bits::lemma_u32_shl_is_mul(1u32, n as u32);
    }
    assert(r == (((value as u32) % (1u32 << (n as u32))) as u16));
    assert forall|i: int| 0 <= i < n implies #[trigger] bits_of(value, n)[i] == bits_of(r, n)[i] by {
        lemma_low_bit(value, n as u32, (n - 1 - i) as u32);
    }
    assert(bits_of(value, n) =~= bits_of(r, n));
}

/// The number a bit sequence spells, most significant bit first.
pub open spec fn bits_value(s: Seq<bool>) -> nat
    decreases s.len(),
{
    if s.len() == 0 {
        0
    } else {
        2 * bits_value(s.drop_last()) + (if s.last() {
            1nat
        } else {
            0nat
        })
    }
}

proof fn lemma_shift_bit(a: u16, d: u16, k: u16)
    by (bit_vector)
    requires
        d + k < 16,
    ensures
        ((a >> d) >> k) & 1 == (a >> (d + k)) & 1,
{
}

proof fn lemma_halve(a: u16)
    by (bit_vector)
    ensures
        a == 2 * (a >> 1u16) + (a & 1),
        (a & 1 == 1) == ((a >> 0u16) & 1 == 1),
        a & 1 == 0 || a & 1 == 1,
{
}

/// The low `n` bits of a value below `2^n` spell the value.
pub proof fn lemma_bits_value_of(a: u16, n: nat)
    requires
        n <= 16,
        a < pow2(n),
    ensures
        bits_value(bits_of(a, n)) == a,
    decreases n,
{
    if n == 0 {
        assert(pow2(0) == 1) by {
            lemma_pow2(0);
            reveal(pow);
        }
    } else {
        let h = a >> 1u16;
        lemma_u16_shr_is_div(a, 1);
        assert(pow2(1) == 2) by {
            vstd::arithmetic::power2::lemma2_to64();
        }
        lemma_pow2_unfold(n);
        lemma_bits_value_of(h, (n - 1) as nat);
        assert forall|i: int| 0 <= i < n - 1 implies #[trigger] bits_of(a, n).drop_last()[i] == bits_of(
            h,
            (n - 1) as nat,
        )[i] by {
            lemma_shift_bit(a, 1, (n - 2 - i) as u16);
        }
        assert(bits_of(a, n).drop_last() =~= bits_of(h, (n - 1) as nat));
        lemma_halve(a);
    }
}

/// Equal bit sequences of the same length come from equal values.
pub proof fn lemma_bits_of_injective(a: u16, b: u16, n: nat)
    requires
        n <= 16,
        a < pow2(n),
        b < pow2(n),
        bits_of(a, n) == bits_of(b, n),
    ensures
        a == b,
{
    lemma_bits_value_of(a, n);
    lemma_bits_value_of(b, n);
}

/// The first `l` of the low `n` bits of `c` are the low `l` bits of
/// `c >> (n - l)`.
pub proof fn lemma_bits_of_take(c: u16, n: nat, l: nat)
    requires
        l <= n <= 16,
    ensures
        bits_of(c, n).take(l as int) == bits_of(c >> (n - l) as u16, l),
{
    assert forall|i: int| 0 <= i < l implies #[trigger] bits_of(c, n).take(l as int)[i] == bits_of(
        c >> (n - l) as u16,
        l,
    )[i] by {
        lemma_shift_bit(c, (n - l) as u16, (l - 1 - i) as u16);
    }
    assert(bits_of(c, n).take(l as int) =~= bits_of(c >> (n - l) as u16, l));
}

} // verus!
