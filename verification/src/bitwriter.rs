//! A writer that packs bits into bytes for the entropy-coded segment.
use crate::bitstream::{
    bit16, bits_of, encoded, full_bytes, lemma_byte_of_char, lemma_encoded_prefix, lemma_pack_complete,
    lemma_pack_same, lemma_stuff_push, ones, pack, pad, padding, stuffed_byte, lemma_bits_concat,
    lemma_bits_of_low, lemma_stuff_marker_free, marker_free, stuff,
};
use vstd::arithmetic::power2::pow2;
use vstd::prelude::*;

verus! {

/// Bit `k` of a byte, counting from the most significant bit.
pub open spec fn msb_bit(x: u8, k: int) -> bool {
    (x >> ((7 - k) as u8)) & 1 == 1
}

/// OR-ing `c`, `t` bits wide, just below the first `f` bits of a byte sets
/// the next `t` bits and leaves the others.
proof fn lemma_or_chunk(cur: u8, c: u8, f: u8, t: u8, k: u8)
    by (bit_vector)
    requires
        1 <= t,
        f + t <= 8,
        k < 8,
        t == 8 || c >> t == 0,
    ensures
        k < f ==> (((cur | (c << (8 - f - t) as u8)) >> (7 - k) as u8) & 1 == 1) == ((cur >> (7 - k) as u8) & 1
            == 1),
        f <= k && k < f + t ==> (((cur | (c << (8 - f - t) as u8)) >> (7 - k) as u8) & 1 == 1) == (((cur >> (7
            - k) as u8) & 1 == 1) || ((c >> (t - 1 - (k - f)) as u8) & 1 == 1)),
        f + t <= k ==> (((cur | (c << (8 - f - t) as u8)) >> (7 - k) as u8) & 1 == 1) == ((cur >> (7 - k) as u8)
            & 1 == 1),
{
}

/// The chunk `write_bits` extracts: the `t` bits of `value` below bit `n`.
proof fn lemma_chunk(value: u16, n: u16, t: u16, i: u16)
    by (bit_vector)
    requires
        1 <= t <= 8,
        t <= n <= 23,
        n - t <= 15,
        i < t,
    ensures
        ((value >> (n - t) as u16) & (((1u16 << t) - 1) as u16)) < 256,
        t == 8 || (((value >> (n - t) as u16) & (((1u16 << t) - 1) as u16)) as u8) >> (t as u8) == 0,
        ((((value >> (n - t) as u16) & (((1u16 << t) - 1) as u16)) as u8 >> (t - 1 - i) as u8) & 1 == 1)
            == ((value >> (n - 1 - i) as u16) & 1 == 1),
{
}

/// OR-ing ones below the first `f` bits of a byte.
proof fn lemma_or_pad(cur: u8, f: u8, k: u8)
    by (bit_vector)
    requires
        1 <= f < 8,
        k < 8,
    ensures
        (1u8 << (8 - f) as u8) >= 1,
        k < f ==> (((cur | (((1u8 << (8 - f) as u8) - 1) as u8)) >> (7 - k) as u8) & 1 == 1) == ((cur >> (7 - k) as u8) & 1 == 1),
        f <= k ==> ((cur | (((1u8 << (8 - f) as u8) - 1) as u8)) >> (7 - k) as u8) & 1 == 1,
{
}

/// No bit of 0 is set.
proof fn lemma_zero_bits(k: u8)
    by (bit_vector)
    requires
        k < 8,
    ensures
        (0u8 >> (7 - k) as u8) & 1 != 1,
{
}

/// The first `filled` bits of `cur`, most significant first, are
/// `s[base..base + filled]`, and its other bits are zero.
pub open spec fn byte_holds(cur: u8, filled: int, s: Seq<bool>, base: int) -> bool {
    forall|k: int| 0 <= k < 8 ==> #[trigger] msb_bit(cur, k) == (k < filled && s[base + k])
}

/// OR-ing the next `t` bits of `value` into the current byte keeps it in step
/// with the stream.
proof fn lemma_chunk_step(
    cur: u8,
    bits: u8,
    f: int,
    t: int,
    value: u16,
    nb: int,
    s: Seq<bool>,
    chunk: Seq<bool>,
    base: int,
)
    requires
        0 <= f,
        1 <= t,
        f + t <= 8,
        t <= nb <= 23,
        nb - t <= 15,
        base + f == s.len(),
        0 <= base,
        chunk.len() == t,
        forall|i: int| 0 <= i < t ==> #[trigger] chunk[i] == bit16(value, (nb - 1 - i) as u16),
        bits == ((value >> (nb - t) as u16) & (((1u16 << t as u16) - 1) as u16)) as u8,
        byte_holds(cur, f, s, base),
    ensures
        byte_holds(cur | (bits << ((8 - f - t) as u8)), f + t, s + chunk, base),
{
    let s1 = s + chunk;
    lemma_chunk(value, nb as u16, t as u16, 0);
    assert forall|k: int| 0 <= k < 8 implies #[trigger] msb_bit(cur | (bits << ((8 - f - t) as u8)), k)
        == (k < f + t && s1[base + k]) by {
        lemma_or_chunk(cur, bits, f as u8, t as u8, k as u8);
        assert(msb_bit(cur, k) == (k < f && s[base + k]));
        if f <= k < f + t {
            lemma_chunk(value, nb as u16, t as u16, (k - f) as u16);
            assert(s1[base + k] == chunk[k - f]);
        } else if k < f {
            assert(s1[base + k] == s[base + k]);
        }
    }
}

/// OR-ing one-bits into the unused low bits of the current byte.
proof fn lemma_pad_step(cur: u8, f: int, s: Seq<bool>, base: int)
    requires
        1 <= f < 8,
        0 <= base,
        base + f == s.len(),
        byte_holds(cur, f, s, base),
    ensures
        byte_holds(cur | (((1u8 << ((8 - f) as u8)) - 1) as u8), 8, s + ones((8 - f) as nat), base),
{
    let s1 = s + ones((8 - f) as nat);
    assert forall|k: int| 0 <= k < 8 implies #[trigger] msb_bit(cur | (((1u8 << ((8 - f) as u8)) - 1) as u8), k)
        == (k < 8 && s1[base + k]) by {
        lemma_or_pad(cur, f as u8, k as u8);
        assert(msb_bit(cur, k) == (k < f && s[base + k]));
    }
}

/// Once a byte of the stream is complete, appending it (stuffed) to the
/// buffer keeps the buffer in step with the stream.
proof fn lemma_complete_byte(cur: u8, s: Seq<bool>, c: Seq<bool>)
    requires
        s.len() % 8 + c.len() == 8,
        byte_holds(cur, 8, s + c, 8 * (full_bytes(s) as int)),
    ensures
        encoded(s + c) == encoded(s) + stuffed_byte(cur),
        encoded(s + c).len() == encoded(s).len() + stuffed_byte(cur).len(),
        full_bytes(s + c) == full_bytes(s) + 1,
        (s + c).len() % 8 == 0,
{
    let s1 = s + c;
    let big_f = 8 * full_bytes(s) as int;
    let sub = s1.subrange(big_f, big_f + 8);
    assert forall|k: int| 0 <= k < 8 implies #[trigger] sub[k] == (((cur >> (7 - k) as u8) & 1) == 1) by {
        assert(msb_bit(cur, k) == (k < 8 && s1[big_f + k]));
    }
    lemma_byte_of_char(cur, sub);
    lemma_pack_complete(s, c);
    lemma_stuff_push(pack(s), cur);
}

proof fn lemma_empty_byte(s: Seq<bool>, base: int)
    ensures
        byte_holds(0u8, 0, s, base),
{
    assert forall|k: int| 0 <= k < 8 implies #[trigger] msb_bit(0u8, k) == (k < 0 && s[base + k]) by {
        lemma_zero_bits(k as u8);
    }
}

/// `after` is `before` with `bits` appended to its stream, as `write_bits`
/// and `flush` leave a writer.
pub open spec fn appends(before: BitWriter, after: BitWriter, bits: Seq<bool>) -> bool {
    &&& after.wf()
    &&& after.prefix() == before.prefix()
    &&& after.stream() == before.stream() + bits
    &&& after.written_count() == before.written_count() + (after.buffered().len()
        - before.buffered().len())
}

/// Two bytes with the same eight bits are equal.
proof fn lemma_same_bits_same_byte(a: u8, b: u8)
    by (bit_vector)
    requires
        ((a >> 7u8) & 1 == 1) == ((b >> 7u8) & 1 == 1),
        ((a >> 6u8) & 1 == 1) == ((b >> 6u8) & 1 == 1),
        ((a >> 5u8) & 1 == 1) == ((b >> 5u8) & 1 == 1),
        ((a >> 4u8) & 1 == 1) == ((b >> 4u8) & 1 == 1),
        ((a >> 3u8) & 1 == 1) == ((b >> 3u8) & 1 == 1),
        ((a >> 2u8) & 1 == 1) == ((b >> 2u8) & 1 == 1),
        ((a >> 1u8) & 1 == 1) == ((b >> 1u8) & 1 == 1),
        ((a >> 0u8) & 1 == 1) == ((b >> 0u8) & 1 == 1),
    ensures
        a == b,
{
}

/// A writer's concrete state is fixed by its prefix, its stream and its
/// `written` count: writers that agree on these are in the same state.
pub proof fn lemma_state_determined(w1: BitWriter, w2: BitWriter)
    requires
        w1.wf(),
        w2.wf(),
        w1.prefix() == w2.prefix(),
        w1.stream() == w2.stream(),
        w1.written_count() == w2.written_count(),
    ensures
        w1.state() == w2.state(),
{
    let c1 = w1.current_byte;
    let c2 = w2.current_byte;
    let base = 8 * (full_bytes(w1.stream@) as int);
    assert forall|k: int| 0 <= k < 8 implies #[trigger] msb_bit(c1, k) == msb_bit(c2, k) by {
        assert(msb_bit(c1, k) == (k < w1.bits_filled && w1.stream@[base + k]));
        assert(msb_bit(c2, k) == (k < w2.bits_filled && w2.stream@[base + k]));
    }
    assert(msb_bit(c1, 0) == msb_bit(c2, 0));
    assert(msb_bit(c1, 1) == msb_bit(c2, 1));
    assert(msb_bit(c1, 2) == msb_bit(c2, 2));
    assert(msb_bit(c1, 3) == msb_bit(c2, 3));
    assert(msb_bit(c1, 4) == msb_bit(c2, 4));
    assert(msb_bit(c1, 5) == msb_bit(c2, 5));
    assert(msb_bit(c1, 6) == msb_bit(c2, 6));
    assert(msb_bit(c1, 7) == msb_bit(c2, 7));
    lemma_same_bits_same_byte(c1, c2);
}

/// Appending the same bits to writers in the same state leaves them in the
/// same state.
pub proof fn lemma_appends_determined(w: BitWriter, bits: Seq<bool>, w1: BitWriter, w2: BitWriter)
    requires
        appends(w, w1, bits),
        appends(w, w2, bits),
    ensures
        w1.state() == w2.state(),
{
    lemma_state_determined(w1, w2);
}

/// `write_bits` ignores the bits of `value` above the `n`-th: writing
/// `value` or `value % 2^n` leaves the writer in the same state.
pub proof fn lemma_write_ignores_high_bits(
    w: BitWriter,
    value: u16,
    n: nat,
    w1: BitWriter,
    w2: BitWriter,
)
    requires
        n <= 16,
        appends(w, w1, bits_of(value, n)),
        appends(w, w2, bits_of(((value as nat) % pow2(n)) as u16, n)),
    ensures
        w1.state() == w2.state(),
{
    lemma_bits_of_low(value, n);
    lemma_state_determined(w1, w2);
}

/// Writing nothing leaves the writer as it was.
pub proof fn lemma_write_nothing(w: BitWriter, value: u16, w1: BitWriter)
    requires
        w.wf(),
        appends(w, w1, bits_of(value, 0)),
    ensures
        w1.state() == w.state(),
{
    assert(w.stream() + bits_of(value, 0) =~= w.stream());
    lemma_state_determined(w1, w);
}

/// The value written by one `write_bits` of `n + m` bits in place of
/// writing `n` bits of `a` and then `m` bits of `b`; when `a < 2^n` and
/// `b < 2^m` it is `a * 2^m + b`.
pub open spec fn joined(a: u16, b: u16, m: nat) -> u16 {
    if m >= 16 {
        b
    } else {
        ((a << m as u16) | (b & (((1u16 << m as u16) - 1) as u16))) as u16
    }
}

/// Two writes equal one: writing `n` bits of `a` and then `m` bits of `b`
/// leaves a writer in the state that writing the `n + m` bits of
/// `joined(a, b, m)` does.
pub proof fn lemma_two_writes_one(
    w: BitWriter,
    a: u16,
    n: nat,
    b: u16,
    m: nat,
    w1: BitWriter,
    w2: BitWriter,
    u: BitWriter,
)
    requires
        n + m <= 16,
        appends(w, w1, bits_of(a, n)),
        appends(w1, w2, bits_of(b, m)),
        appends(w, u, bits_of(joined(a, b, m), n + m)),
    ensures
        w2.state() == u.state(),
{
    if m < 16 {
        lemma_bits_concat(a, n, b, m);
    } else {
        assert(bits_of(a, n) =~= Seq::<bool>::empty());
    }
    assert(w2.stream() =~= w.stream() + (bits_of(a, n) + bits_of(b, m)));
    lemma_state_determined(w2, u);
}

/// The bits of a sequence of writes, one after another.
pub open spec fn concat_all(parts: Seq<Seq<bool>>) -> Seq<bool>
    decreases parts.len(),
{
    if parts.len() == 0 {
        Seq::empty()
    } else {
        concat_all(parts.drop_last()) + parts.last()
    }
}

/// A writer made by `new` and then given a sequence of `write_bits` and
/// `flush` calls (`parts[i]` the bits each appended) holds the initial
/// bytes, then the stuffed bytes of the concatenated bits; `written` counts
/// exactly the bytes after the initial ones, stuffing bytes included; every
/// 0xFF among them is followed by 0x00; and `finish` would return the
/// initial bytes followed by the stuffed, packed bits padded with one-bits.
pub proof fn lemma_write_sequence(ws: Seq<BitWriter>, parts: Seq<Seq<bool>>)
    requires
        ws.len() == parts.len() + 1,
        ws[0].wf(),
        ws[0].stream() == Seq::<bool>::empty(),
        ws[0].written_count() == 0,
        forall|i: int| 0 <= i < parts.len() ==> appends(#[trigger] ws[i], ws[i + 1], parts[i]),
    ensures
        ws.last().wf(),
        ws.last().prefix() == ws[0].prefix(),
        ws.last().stream() == concat_all(parts),
        ws.last().buffered() == ws[0].prefix() + stuff(pack(concat_all(parts))),
        ws.last().written_count() == ws.last().buffered().len() - ws[0].prefix().len(),
        marker_free(ws.last().buffered().skip(ws[0].prefix().len() as int)),
        ws.last().prefix() + encoded(pad(ws.last().stream())) == ws[0].prefix() + stuff(
            pack(concat_all(parts) + padding(concat_all(parts))),
        ),
    decreases parts.len(),
{
    let w = ws.last();
    if parts.len() == 0 {
        assert(pack(Seq::<bool>::empty()) =~= Seq::<u8>::empty());
        assert(stuff(Seq::<u8>::empty()) =~= Seq::<u8>::empty());
    } else {
        let k = parts.len() - 1;
        let ws0 = ws.drop_last();
        let ps0 = parts.drop_last();
        assert forall|i: int| 0 <= i < ps0.len() implies appends(#[trigger] ws0[i], ws0[i + 1], ps0[i]) by {
            assert(ws0[i] == ws[i] && ws0[i + 1] == ws[i + 1] && ps0[i] == parts[i]);
        }
        lemma_write_sequence(ws0, ps0);
        assert(ws0.last() == ws[k]);
        assert(appends(ws[k], ws[k + 1], parts[k]));
        assert(ws[k + 1] == w);
    }
    lemma_stuff_marker_free(pack(concat_all(parts)));
    assert(w.buffered().skip(ws[0].prefix().len() as int) =~= stuff(pack(concat_all(parts))));
}

/// Packs bits, most significant first, into a byte buffer, with JPEG byte
/// stuffing.
pub struct BitWriter {
    buf: Vec<u8>,
    current_byte: u8,
    bits_filled: usize,
    /// Number of bytes written to 'buf', including JPEG byte-stuffing bytes
    pub written: usize,
    prefix: Ghost<Seq<u8>>,
    stream: Ghost<Seq<bool>>,
}

/// Number of output bytes that appending `extra` to the stream `s` produces.
pub open spec fn output_growth(s: Seq<bool>, extra: Seq<bool>) -> int {
    encoded(s + extra).len() - encoded(s).len()
}

impl BitWriter {
    /// The bytes the buffer held when the writer was made.
    pub closed spec fn prefix(&self) -> Seq<u8> {
        self.prefix@
    }

    /// Every bit written since the writer was made, padding included.
    pub closed spec fn stream(&self) -> Seq<bool> {
        self.stream@
    }

    /// The buffer holds the prefix and then the stuffed complete bytes of the
    /// stream; the bits of an unfinished byte are kept back.
    pub closed spec fn wf(&self) -> bool {
        &&& self.buf@ == self.prefix@ + encoded(self.stream@)
        &&& self.bits_filled == self.stream@.len() % 8
        &&& byte_holds(
            self.current_byte,
            self.bits_filled as int,
            self.stream@,
            8 * (full_bytes(self.stream@) as int),
        )
    }

    /// The value of the public `written` counter: contracts speak of the
    /// counter through this function.
    pub closed spec fn written_count(&self) -> usize {
        self.written
    }

    /// The concrete state: the buffer, the byte being filled, how many of
    /// its bits are filled, and the `written` counter.
    pub closed spec fn state(&self) -> (Seq<u8>, u8, usize, usize) {
        (self.buf@, self.current_byte, self.bits_filled, self.written)
    }

    /// What the buffer holds now.
    pub open spec fn buffered(&self) -> Seq<u8> {
        self.prefix() + encoded(self.stream())
    }

    /// Appending `extra` to the stream does not overflow the `written` count:
    /// either the count plus the bytes to come fits, or the count is no larger
    /// than the buffer (whose length always fits).
    pub open spec fn count_fits(&self, written: usize, extra: Seq<bool>) -> bool {
        ||| written + output_growth(self.stream(), extra) <= usize::MAX
        ||| written <= self.buffered().len()
    }

    pub fn new(buf: Vec<u8>) -> (w: Self)
        ensures
            w.wf(),
            w.prefix() == buf@,
            w.stream() == Seq::<bool>::empty(),
            w.written_count() == 0,
    {
        let ghost p = buf@;
        let w = BitWriter {
            buf,
            bits_filled: 0,
            current_byte: 0,
            written: 0,
            prefix: Ghost(p),
            stream: Ghost(Seq::empty()),
        };
        proof {
            assert(pack(Seq::<bool>::empty()) =~= Seq::<u8>::empty());
            assert(encoded(Seq::<bool>::empty()) =~= Seq::<u8>::empty());
            assert(w.buf@ =~= p + encoded(Seq::<bool>::empty()));
            lemma_empty_byte(Seq::<bool>::empty(), 0);
        }
        w
    }

    /// Appends the current byte to the buffer, followed by a stuffed 0x00
    /// when it is 0xFF.
    fn flush_byte(&mut self)
        requires
            old(self).bits_filled > 0 ==> (old(self).written + stuffed_byte(
                old(self).current_byte,
            ).len() <= usize::MAX || old(self).written <= old(self).buf@.len()),
        ensures
            old(self).bits_filled > 0 ==> {
                &&& final(self).buf@ == old(self).buf@ + stuffed_byte(old(self).current_byte)
                &&& final(self).written == old(self).written + stuffed_byte(
                    old(self).current_byte,
                ).len()
                &&& final(self).current_byte == 0
                &&& final(self).bits_filled == 0
            },
            old(self).bits_filled == 0 ==> final(self).buf@ == old(self).buf@ && final(self).written
                == old(self).written && final(self).current_byte == old(self).current_byte
                && final(self).bits_filled == 0,
            final(self).prefix == old(self).prefix,
            final(self).stream == old(self).stream,
    {
        if self.bits_filled > 0 {
            self.buf.push(self.current_byte);
            assert(self.buf.len() == self.buf@.len());
            self.written += 1;

            // JPEG byte stuffing: insert 0x00 after 0xFF to avoid marker collision
            if self.current_byte == 0xFF {
                self.buf.push(0x00);
                assert(self.buf.len() == self.buf@.len());
                self.written += 1;
            }
            self.current_byte = 0;
            self.bits_filled = 0;
            assert(self.buf@ =~= old(self).buf@ + stuffed_byte(old(self).current_byte));
        }
    }

    /// Writes the low `n` bits of `value`, most significant first; bits above
    /// the sixteenth are zeros.  `n` may exceed 16 as long as no chunk of it
    /// would shift `value` by 16 or more: `n` plus the bits already in the
    /// current byte is at most 23.
    #[verifier::rlimit(40)]
    pub fn write_bits(&mut self, value: u16, n: usize)
        requires
            old(self).wf(),
            n + old(self).stream().len() % 8 <= 23,
            old(self).count_fits(old(self).written_count(), bits_of(value, n as nat)),
        ensures
            final(self).wf(),
            final(self).prefix() == old(self).prefix(),
            final(self).stream() == old(self).stream() + bits_of(value, n as nat),
            final(self).written_count() == old(self).written_count() + (final(self).buffered().len()
                - old(self).buffered().len()),
    {
        let ghost s0 = self.stream@;
        let ghost n0 = n as nat;
        let ghost all = bits_of(value, n as nat);
        let ghost w0 = self.written;
        let mut n = n;
        while n > 0
            invariant
                self.wf(),
                n <= n0 <= 23,
                n + self.bits_filled <= 23,
                all == bits_of(value, n0),
                s0 == old(self).stream@,
                self.prefix@ == old(self).prefix@,
                self.stream@ == s0 + all.take(n0 - n),
                self.written + encoded(s0).len() == w0 + encoded(self.stream@).len(),
                w0 + output_growth(s0, all) <= usize::MAX || w0 <= old(self).prefix@.len()
                    + encoded(s0).len(),
            decreases n,
        {
            let ghost s = self.stream@;
            let ghost f = self.bits_filled;
            let ghost big_f: int = full_bytes(s) as int;
            let ghost old_cur = self.current_byte;
            let ghost n_before = n;
            let bits_to_take: usize = if n < 8 - self.bits_filled {
                n
            } else {
                8 - self.bits_filled
            };
            let shift: usize = n - bits_to_take;
            proof {
                lemma_chunk(value, n as u16, bits_to_take as u16, 0);
                assert(1u16 << (bits_to_take as u16) >= 1) by (bit_vector)
                    requires
                        bits_to_take <= 8,
                ;
            }
            let bits = ((value >> (shift as u16)) & ((1u16 << (bits_to_take as u16)) - 1)) as u8;
            self.current_byte = self.current_byte | (bits << ((8 - self.bits_filled
                - bits_to_take) as u8));
            self.bits_filled += bits_to_take;
            n -= bits_to_take;
            let ghost chunk = all.subrange(n0 - n_before, n0 - n);
            self.stream = Ghost(s + chunk);
            proof {
                let t = bits_to_take as int;
                assert(all.take(n0 - n) =~= all.take(n0 - n_before) + chunk);
                assert(self.stream@ =~= s0 + all.take(n0 - n));
                assert forall|i: int| 0 <= i < t implies #[trigger] chunk[i] == bit16(
                    value,
                    (n_before - 1 - i) as u16,
                ) by {
                    assert(chunk[i] == all[n0 - n_before + i]);
                }
                lemma_chunk_step(old_cur, bits, f as int, t, value, n_before as int, s, chunk, big_f * 8);
                if f + t < 8 {
                    lemma_pack_same(s, chunk);
                    assert(full_bytes(self.stream@) == big_f);
                } else {
                    lemma_encoded_prefix(self.stream@, all.subrange(n0 - n, n0 as int));
                    assert(self.stream@ + all.subrange(n0 - n, n0 as int) =~= s0 + all);
                    lemma_complete_byte(self.current_byte, s, chunk);
                    assert(encoded(self.stream@).len() <= encoded(s0 + all).len());
                }
            }
            if self.bits_filled == 8 {
                self.flush_byte();
                proof {
                    assert(self.buf@ =~= self.prefix@ + encoded(self.stream@));
                    lemma_empty_byte(self.stream@, 8 * (full_bytes(self.stream@) as int));
                }
            }
        }
        proof {
            assert(all.take(n0 as int) =~= all);
        }
    }

    /// Flushes the current byte, padding unused bits with `1` (required for JPEG)
    pub fn flush(&mut self)
        requires
            old(self).wf(),
            old(self).count_fits(old(self).written_count(), padding(old(self).stream())),
        ensures
            final(self).wf(),
            final(self).prefix() == old(self).prefix(),
            final(self).stream() == pad(old(self).stream()),
            final(self).written_count() == old(self).written_count() + (final(self).buffered().len()
                - old(self).buffered().len()),
    {
        if self.bits_filled > 0 {
            let ghost s = self.stream@;
            let ghost f = self.bits_filled;
            let ghost big_f: int = full_bytes(s) as int;
            let ghost old_cur = self.current_byte;
            proof {
                lemma_or_pad(old_cur, f as u8, 0);
            }
            self.current_byte = self.current_byte | ((1u8 << ((8 - self.bits_filled) as u8)) - 1);
            let ghost fill = ones((8 - f) as nat);
            self.stream = Ghost(s + fill);
            proof {
                lemma_pad_step(old_cur, f as int, s, 8 * big_f);
                lemma_complete_byte(self.current_byte, s, fill);
                assert(padding(s) == fill);
            }
            self.flush_byte();
            proof {
                assert(self.buf@ =~= self.prefix@ + encoded(self.stream@));
                lemma_empty_byte(self.stream@, 8 * (full_bytes(self.stream@) as int));
            }
        } else {
            proof {
                assert(pad(self.stream@) =~= self.stream@);
            }
        }
    }

    /// Flushes, then hands back the buffer.
    pub fn finish(self) -> (out: Vec<u8>)
        requires
            self.wf(),
            self.count_fits(self.written_count(), padding(self.stream())),
        ensures
            out@ == self.prefix() + encoded(pad(self.stream())),
    {
        let mut w = self;
        w.flush();
        w.buf
    }

    /// The bytes written so far.
    pub fn as_bytes(&self) -> (out: &[u8])
        requires
            self.wf(),
        ensures
            out@ == self.buffered(),
    {
        self.buf.as_slice()
    }
}

} // verus!
