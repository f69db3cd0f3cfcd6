//! Decimal formatting of integers, as byte sequences, together with the
//! lemmas that let a reader decode a formatted number back to its value.

use vstd::prelude::*;

verus! {

/// The ASCII digit for a value between 0 and 9.
pub open spec fn digit(d: int) -> u8 {
    (0x30 + d) as u8
}

/// The decimal representation of `n`, most significant digit first,
/// without padding: `dec_rep(0) == seq![b'0']`, `dec_rep(17) == seq![b'1', b'7']`.
pub open spec fn dec_rep(n: nat) -> Seq<u8>
    decreases n,
{
    if n < 10 {
        seq![digit(n as int)]
    } else {
        dec_rep(n / 10) + seq![digit((n % 10) as int)]
    }
}

/// A run of `k` ASCII zero bytes.
pub open spec fn zeros(k: int) -> Seq<u8> {
    Seq::new(if k < 0 { 0nat } else { k as nat }, |i: int| 0x30u8)
}

/// The decimal representation of `n`, left-padded with ASCII zeros to at
/// least `w` bytes.
pub open spec fn pad_rep(n: nat, w: int) -> Seq<u8> {
    zeros(w - dec_rep(n).len()) + dec_rep(n)
}

/// The numeric value of a sequence of ASCII digits (the empty sequence
/// has value 0).
pub open spec fn dec_val(s: Seq<u8>) -> int
    decreases s.len(),
{
    if s.len() == 0 {
        0
    } else {
        dec_val(s.drop_last()) * 10 + (s.last() - 0x30)
    }
}

/// Decoding inverts formatting: the digits of `n` evaluate back to `n`.
pub proof fn lemma_dec_val_of_rep(n: nat)
    ensures
        dec_val(dec_rep(n)) == n,
    decreases n,
{
    if n < 10 {
        assert(dec_rep(n) =~= seq![digit(n as int)]);
        assert(dec_rep(n).drop_last() =~= Seq::<u8>::empty());
        assert(dec_val(Seq::<u8>::empty()) == 0);
        assert(dec_rep(n).last() == digit(n as int));
        assert(digit(n as int) - 0x30 == n);
    } else {
        lemma_dec_val_of_rep(n / 10);
        assert(dec_rep(n).drop_last() =~= dec_rep(n / 10));
        assert(dec_rep(n).last() == digit((n % 10) as int));
        assert(digit((n % 10) as int) - 0x30 == n % 10);
        vstd::arithmetic::div_mod::lemma_fundamental_div_mod(n as int, 10);
    }
}

/// Leading ASCII zeros do not change the decoded value.
pub proof fn lemma_dec_val_zeros_prefix(k: int, s: Seq<u8>)
    ensures
        dec_val(zeros(k) + s) == dec_val(s),
    decreases s.len(),
{
    if s.len() == 0 {
        assert(zeros(k) + s =~= zeros(k));
        lemma_dec_val_zeros(k);
    } else {
        assert((zeros(k) + s).drop_last() =~= zeros(k) + s.drop_last());
        assert((zeros(k) + s).last() == s.last());
        lemma_dec_val_zeros_prefix(k, s.drop_last());
    }
}

/// A run of ASCII zeros decodes to the value zero.
pub proof fn lemma_dec_val_zeros(k: int)
    ensures
        dec_val(zeros(k)) == 0,
    decreases k,
{
    if k > 0 {
        assert(zeros(k).drop_last() =~= zeros(k - 1));
        lemma_dec_val_zeros(k - 1);
    }
}

/// Decoding the zero-padded form of `n` yields `n` again.
pub proof fn lemma_dec_val_of_pad(n: nat, w: int)
    ensures
        dec_val(pad_rep(n, w)) == n,
{
    lemma_dec_val_zeros_prefix(w - dec_rep(n).len(), dec_rep(n));
    lemma_dec_val_of_rep(n);
}

/// The power `10^k`.
pub open spec fn pow10(k: nat) -> nat
    decreases k,
{
    if k == 0 {
        1
    } else {
        10 * pow10((k - 1) as nat)
    }
}

/// A value below `10^k` has at most `k` decimal digits.
pub proof fn lemma_dec_rep_len_le(n: nat, k: nat)
    requires
        1 <= k,
        n < pow10(k),
    ensures
        dec_rep(n).len() <= k,
    decreases k,
{
    if n < 10 {
    } else {
        assert(k >= 2) by {
            if k == 1 {
                assert(pow10(1) == 10 * pow10(0));
                assert(pow10(0) == 1);
            }
        }
        assert(pow10(k) == 10 * pow10((k - 1) as nat));
        assert(n / 10 < pow10((k - 1) as nat)) by {
            vstd::arithmetic::div_mod::lemma_fundamental_div_mod(n as int, 10);
            if n / 10 >= pow10((k - 1) as nat) {
                assert(10 * (n as int / 10) >= 10 * pow10((k - 1) as nat)) by (nonlinear_arith)
                    requires
                        n as int / 10 >= pow10((k - 1) as nat),
                ;
            }
        }
        lemma_dec_rep_len_le(n / 10, (k - 1) as nat);
    }
}

/// The decimal representation of a signed value: a minus sign followed by
/// the digits of the magnitude when negative, the plain digits otherwise.
pub open spec fn int_rep(i: int) -> Seq<u8> {
    if i < 0 {
        seq![0x2du8] + dec_rep((-i) as nat)
    } else {
        dec_rep(i as nat)
    }
}

/// Append the decimal digits of `n` to `buf`.
pub fn push_u64(buf: &mut Vec<u8>, n: u64)
    ensures
        final(buf)@ == old(buf)@ + dec_rep(n as nat),
    decreases n,
{
    if n < 10 {
        buf.push(0x30 + n as u8);
        assert(buf@ =~= old(buf)@ + dec_rep(n as nat));
    } else {
        push_u64(buf, n / 10);
        buf.push(0x30 + (n % 10) as u8);
        assert(buf@ =~= old(buf)@ + dec_rep(n as nat));
    }
}

/// Append the decimal representation of `i`, sign included.
pub fn push_i32(buf: &mut Vec<u8>, i: i32)
    ensures
        final(buf)@ == old(buf)@ + int_rep(i as int),
{
    if i >= 0 {
        push_u64(buf, i as u64);
    } else {
        buf.push(0x2du8);
        let m: i64 = -(i as i64);
        push_u64(buf, m as u64);
        assert(buf@ =~= old(buf)@ + int_rep(i as int));
    }
}

/// Append the decimal digits of `n`, left-padded with zeros to at least
/// ten bytes.
pub fn push_padded10(buf: &mut Vec<u8>, n: u64)
    ensures
        final(buf)@ == old(buf)@ + pad_rep(n as nat, 10),
{
    let mut tmp: Vec<u8> = Vec::new();
    push_u64(&mut tmp, n);
    let mut z: usize = tmp.len();
    assert(buf@ =~= old(buf)@ + zeros(z - tmp@.len()));
    while z < 10
        invariant
            tmp@ == dec_rep(n as nat),
            tmp@.len() <= z,
            z <= 10 || z == tmp@.len(),
            buf@ == old(buf)@ + zeros(z - tmp@.len()),
        decreases 10 - z,
    {
        buf.push(0x30u8);
        assert(buf@ =~= old(buf)@ + zeros(z + 1 - tmp@.len()));
        z = z + 1;
    }
    buf.append(&mut tmp);
    assert(buf@ =~= old(buf)@ + pad_rep(n as nat, 10));
}

} // verus!
