//! Run-length coding of the AC coefficients of a zigzag-ordered block.
use vstd::prelude::*;

verus! {

/// AC coeff pair
/// `(run_length, raw_coefficient)`
pub type AcPair = (u8, i16);

/// Sixteen zero coefficients.
pub const ZRL: AcPair = (15, 0);

/// End of block: every remaining coefficient is zero.
pub const EOB: AcPair = (0, 0);

/// `k` zero coefficients.
pub open spec fn zeros(k: nat) -> Seq<i16> {
    Seq::new(k, |i: int| 0i16)
}

/// Number of zero coefficients at the start of `s`.
pub open spec fn leading_zeros(s: Seq<i16>) -> nat
    decreases s.len(),
{
    if s.len() == 0 || s[0] != 0 {
        0
    } else {
        1 + leading_zeros(s.skip(1))
    }
}

/// The leading zeros of a sequence are zeros, and the entry after them is
/// not.
pub proof fn lemma_leading_zeros(s: Seq<i16>)
    ensures
        leading_zeros(s) <= s.len(),
        leading_zeros(s) < s.len() ==> s[leading_zeros(s) as int] != 0,
        forall|i: int| 0 <= i < leading_zeros(s) ==> s[i] == 0,
    decreases s.len(),
{
    if s.len() > 0 && s[0] == 0 {
        lemma_leading_zeros(s.skip(1));
        assert forall|i: int| 0 <= i < leading_zeros(s) implies s[i] == 0 by {
            if i > 0 {
                assert(s[i] == s.skip(1)[i - 1]);
            }
        }
    }
}

/// The run-length pairs of a sequence of AC coefficients: a run of sixteen
/// zeros is `ZRL`; a run of `z < 16` zeros followed by `v != 0` is `(z, v)`;
/// a final run of 1 to 15 zeros is `EOB`.
pub open spec fn run_pairs(s: Seq<i16>) -> Seq<AcPair>
    decreases s.len(),
{
    if s.len() == 0 {
        Seq::empty()
    } else {
        let z = leading_zeros(s);
        proof {
            lemma_leading_zeros(s);
        }
        if z >= 16 {
            seq![ZRL] + run_pairs(s.skip(16))
        } else if z < s.len() {
            seq![(z as u8, s[z as int])] + run_pairs(s.skip(z as int + 1))
        } else {
            seq![EOB]
        }
    }
}

proof fn lemma_leading_zeros_prefix(k: nat, r: Seq<i16>)
    ensures
        leading_zeros(zeros(k) + r) == k + leading_zeros(r),
    decreases k,
{
    if k > 0 {
        assert((zeros(k) + r).skip(1) =~= zeros((k - 1) as nat) + r);
        lemma_leading_zeros_prefix((k - 1) as nat, r);
    } else {
        assert(zeros(k) + r =~= r);
    }
}

proof fn lemma_run_pairs_zrl(r: Seq<i16>)
    ensures
        run_pairs(zeros(16) + r) == seq![ZRL] + run_pairs(r),
{
    lemma_leading_zeros_prefix(16, r);
    assert((zeros(16) + r).skip(16) =~= r);
}

proof fn lemma_run_pairs_value(z: nat, v: i16, r: Seq<i16>)
    requires
        z < 16,
        v != 0,
    ensures
        run_pairs(zeros(z) + seq![v] + r) == seq![(z as u8, v)] + run_pairs(r),
{
    let s = zeros(z) + seq![v] + r;
    assert(s =~= zeros(z) + (seq![v] + r));
    lemma_leading_zeros_prefix(z, seq![v] + r);
    assert((seq![v] + r)[0] == v);
    assert(s[z as int] == v);
    assert(s.skip(z as int + 1) =~= r);
}

proof fn lemma_run_pairs_tail(z: nat)
    requires
        z < 16,
    ensures
        run_pairs(zeros(z)) == (if z == 0 {
            Seq::<AcPair>::empty()
        } else {
            seq![EOB]
        }),
{
    lemma_leading_zeros_prefix(z, Seq::empty());
    assert(zeros(z) + Seq::<i16>::empty() =~= zeros(z));
}

/// The coefficients a sequence of pairs stands for, up to its end of block.
pub open spec fn expand_pairs(pairs: Seq<AcPair>) -> Seq<i16>
    decreases pairs.len(),
{
    if pairs.len() == 0 {
        Seq::empty()
    } else if pairs[0] == EOB {
        Seq::empty()
    } else if pairs[0] == ZRL {
        zeros(16) + expand_pairs(pairs.skip(1))
    } else {
        zeros(pairs[0].0 as nat) + seq![pairs[0].1] + expand_pairs(pairs.skip(1))
    }
}

/// The `n` coefficients that a decoder reads from `pairs`: the expansion of
/// the pairs, completed with zeros.
pub open spec fn decode_pairs(pairs: Seq<AcPair>, n: nat) -> Seq<i16> {
    expand_pairs(pairs) + zeros((n - expand_pairs(pairs).len()) as nat)
}

proof fn lemma_expand_run_pairs(s: Seq<i16>)
    ensures
        expand_pairs(run_pairs(s)).len() <= s.len(),
        expand_pairs(run_pairs(s)) + zeros((s.len() - expand_pairs(run_pairs(s)).len()) as nat) == s,
    decreases s.len(),
{
    lemma_leading_zeros(s);
    let z = leading_zeros(s);
    if s.len() == 0 {
        assert(zeros(0) =~= s);
    } else if z >= 16 {
        let r = s.skip(16);
        lemma_expand_run_pairs(r);
        let p = run_pairs(s);
        assert(p == seq![ZRL] + run_pairs(r));
        assert(p.skip(1) =~= run_pairs(r));
        assert(s =~= zeros(16) + r);
        let e = expand_pairs(run_pairs(r));
        assert(expand_pairs(p) == zeros(16) + e);
        assert(zeros(16) + e + zeros((s.len() - (16 + e.len())) as nat) =~= zeros(16) + (e + zeros(
            (r.len() - e.len()) as nat,
        )));
    } else if z < s.len() {
        let v = s[z as int];
        let r = s.skip(z as int + 1);
        lemma_expand_run_pairs(r);
        let p = run_pairs(s);
        assert(p == seq![(z as u8, v)] + run_pairs(r));
        assert(p.skip(1) =~= run_pairs(r));
        assert(p[0] != EOB && p[0] != ZRL);
        assert(s =~= zeros(z) + seq![v] + r);
        let e = expand_pairs(run_pairs(r));
        assert(expand_pairs(p) == zeros(z) + seq![v] + e);
        assert(zeros(z) + seq![v] + e + zeros((s.len() - (z + 1 + e.len())) as nat) =~= zeros(z) + seq![v]
            + (e + zeros((r.len() - e.len()) as nat)));
    } else {
        assert(run_pairs(s) == seq![EOB]);
        assert(expand_pairs(run_pairs(s)) =~= Seq::<i16>::empty());
        assert(Seq::<i16>::empty() + zeros(s.len()) =~= s);
    }
}

/// Run-length coding loses nothing: a decoder that expands the pairs of a
/// sequence of coefficients, completing with zeros, gets the sequence back.
pub proof fn lemma_decode_run_pairs(s: Seq<i16>)
    ensures
        decode_pairs(run_pairs(s), s.len()) == s,
{
    lemma_expand_run_pairs(s);
}

/// Every run in the pairs is below 16, and every value lies within any bound
/// that the coefficients respect.
pub proof fn lemma_run_pairs_bounds(s: Seq<i16>, bound: int)
    requires
        0 <= bound,
        forall|i: int| 0 <= i < s.len() ==> -bound <= #[trigger] s[i] <= bound,
    ensures
        forall|j: int|
            0 <= j < run_pairs(s).len() ==> (#[trigger] run_pairs(s)[j]).0 < 16 && -bound
                <= run_pairs(s)[j].1 <= bound,
    decreases s.len(),
{
    lemma_leading_zeros(s);
    let z = leading_zeros(s);
    if s.len() > 0 {
        let r = if z >= 16 {
            s.skip(16)
        } else if z < s.len() {
            s.skip(z as int + 1)
        } else {
            s
        };
        if z < 16 && z >= s.len() {
        } else {
            assert forall|i: int| 0 <= i < r.len() implies -bound <= #[trigger] r[i] <= bound by {
                if z >= 16 {
                    assert(r[i] == s[i + 16]);
                } else {
                    assert(r[i] == s[i + z + 1]);
                }
            }
            lemma_run_pairs_bounds(r, bound);
            let p = run_pairs(s);
            assert forall|j: int| 0 <= j < p.len() implies (#[trigger] p[j]).0 < 16 && -bound <= p[j].1
                <= bound by {
                if j > 0 {
                    assert(p[j] == run_pairs(r)[j - 1]);
                }
            }
        }
    }
}

/// Splits an 8x8 zigzag-ordered block into the DC difference from the
/// previous block and the run-length pairs of its 63 AC coefficients.
pub fn rle(buf: [i16; 64], dc_prev: i16) -> (r: (i16, Vec<AcPair>))
    requires
        i16::MIN <= buf[0] - dc_prev <= i16::MAX,
    ensures
        r.0 == buf[0] - dc_prev,
        r.1@ == run_pairs(buf@.skip(1)),
{
    let dc_diff = buf[0] - dc_prev;

    let mut result: Vec<AcPair> = Vec::with_capacity(32);
    let mut zero_count: u8 = 0;
    let ghost ac = buf@.skip(1);

    for i in 1..64
        invariant
            ac == buf@.skip(1),
            zero_count < 16,
            run_pairs(ac) == result@ + run_pairs(zeros(zero_count as nat) + buf@.skip(i as int)),
    {
        let coeff = buf[i];
        let ghost rest = buf@.skip(i + 1);
        proof {
            assert(buf@.skip(i as int) =~= seq![coeff] + rest);
        }
        if coeff == 0 {
            proof {
                assert(zeros(zero_count as nat) + (seq![coeff] + rest) =~= zeros(zero_count as nat + 1)
                    + rest);
            }
            zero_count += 1;
            if zero_count == 16 {
                proof {
                    lemma_run_pairs_zrl(rest);
                    assert(zeros(0) + rest =~= rest);
                }
                result.push(ZRL);
                zero_count = 0;
                proof {
                    assert(run_pairs(ac) == result@ + run_pairs(zeros(zero_count as nat) + rest));
                }
            }
        } else {
            proof {
                lemma_run_pairs_value(zero_count as nat, coeff, rest);
                assert(zeros(zero_count as nat) + (seq![coeff] + rest) =~= zeros(zero_count as nat) + seq![
                    coeff] + rest);
                assert(zeros(0) + rest =~= rest);
            }
            result.push((zero_count, coeff));
            zero_count = 0;
        }
    }
    // EOB represents the remaining zero coefficients. When the last AC
    // coefficient (index 63) is non-zero, the block is already complete and
    // writing EOB would be consumed as the next block's DC Huffman code.
    proof {
        assert(buf@.skip(64) =~= Seq::<i16>::empty());
        assert(zeros(zero_count as nat) + Seq::<i16>::empty() =~= zeros(zero_count as nat));
        lemma_run_pairs_tail(zero_count as nat);
    }
    if zero_count > 0 {
        result.push(EOB);
    }
    proof {
        assert(run_pairs(ac) =~= result@);
    }
    (dc_diff, result)
}

} // verus!
