//! Unsigned LEB128, as the binary module container uses it for section and
//! name lengths: at most five bytes, non-minimal encodings accepted, any bit
//! beyond the 32nd rejected.

use vstd::prelude::*;

verus! {

/// How many bytes an encoding may still use; a 32-bit value takes at most 5.
pub const LEB_MAX_BYTES: usize = 5;

/// The values decodable with `k` bytes left: the last byte of a 5-byte
/// encoding may only carry the top 4 of the 32 bits.
pub open spec fn leb_bound(k: nat) -> nat
    decreases k,
{
    if k <= 1 {
        16
    } else {
        128 * leb_bound((k - 1) as nat)
    }
}

/// Decode an unsigned LEB128 value from the front of `s`, with `k` bytes of
/// budget left. Returns the value and the number of bytes consumed, or
/// `None` on truncated input, on more than `k` bytes, or on a final byte
/// whose payload would set a bit beyond the value's width.
pub open spec fn leb_dec_k(s: Seq<u8>, k: nat) -> Option<(nat, int)>
    decreases k,
{
    if s.len() == 0 || k == 0 {
        None
    } else if k == 1 && s[0] >= 16 {
        None
    } else if s[0] < 128 {
        Some((s[0] as nat, 1))
    } else {
        match leb_dec_k(s.skip(1), (k - 1) as nat) {
            None => None,
            Some((v, n)) => Some(((s[0] - 128) as nat + 128 * v, n + 1)),
        }
    }
}

/// Decode a 32-bit unsigned LEB128 value from the front of `s`.
pub open spec fn leb_dec(s: Seq<u8>) -> Option<(nat, int)> {
    leb_dec_k(s, LEB_MAX_BYTES as nat)
}

/// The minimal encoding of `v`.
pub open spec fn leb_enc(v: nat) -> Seq<u8>
    decreases v,
{
    if v < 128 {
        seq![v as u8]
    } else {
        seq![(128 + v % 128) as u8] + leb_enc(v / 128)
    }
}

/// The bound is at least a byte's worth of values at every budget.
pub proof fn lemma_leb_bound_min(k: nat)
    ensures
        leb_bound(k) >= 16,
    decreases k,
{
    if k > 1 {
        lemma_leb_bound_min((k - 1) as nat);
    }
}

/// A decoded value fits its budget's bound, and the count of consumed bytes
/// is between 1 and the budget, and never past the input.
pub proof fn lemma_leb_dec_bound(s: Seq<u8>, k: nat)
    requires
        leb_dec_k(s, k) is Some,
    ensures
        leb_dec_k(s, k)->Some_0.0 < leb_bound(k),
        1 <= leb_dec_k(s, k)->Some_0.1 <= k,
        leb_dec_k(s, k)->Some_0.1 <= s.len(),
    decreases k,
{
    lemma_leb_bound_min(k);
    if s[0] >= 128 {
        lemma_leb_bound_min((k - 1) as nat);
        lemma_leb_dec_bound(s.skip(1), (k - 1) as nat);
    }
}

/// The minimal encoding is short enough for its value's width.
pub proof fn lemma_leb_enc_len(v: nat)
    requires
        v < leb_bound(LEB_MAX_BYTES as nat),
    ensures
        1 <= leb_enc(v).len() <= LEB_MAX_BYTES,
{
    lemma_leb_enc_len_k(v, LEB_MAX_BYTES as nat);
}

proof fn lemma_leb_enc_len_k(v: nat, k: nat)
    requires
        v < leb_bound(k),
        k >= 1,
    ensures
        1 <= leb_enc(v).len() <= k,
    decreases k,
{
    if v >= 128 {
        lemma_leb_enc_len_k(v / 128, (k - 1) as nat);
    }
}

/// Decoding an encoding, whatever follows it, gives back the value.
pub proof fn lemma_leb_roundtrip(v: nat, rest: Seq<u8>)
    requires
        v < leb_bound(LEB_MAX_BYTES as nat),
    ensures
        leb_dec(leb_enc(v) + rest) == Some((v, leb_enc(v).len() as int)),
{
    lemma_leb_roundtrip_k(v, rest, LEB_MAX_BYTES as nat);
}

proof fn lemma_leb_roundtrip_k(v: nat, rest: Seq<u8>, k: nat)
    requires
        v < leb_bound(k),
        k >= 1,
    ensures
        leb_dec_k(leb_enc(v) + rest, k) == Some((v, leb_enc(v).len() as int)),
    decreases k,
{
    let s = leb_enc(v) + rest;
    if v < 128 {
        assert(s[0] == v as u8);
        if k == 1 {
            assert(leb_bound(k) == 16);
            assert(s[0] < 16);
        }
    } else {
        assert(k >= 2) by {
            if k == 1 {
                assert(leb_bound(k) == 16);
            }
        }
        assert(s[0] == (128 + v % 128) as u8);
        assert(s[0] >= 128);
        let v2 = v / 128;
        assert(v2 < leb_bound((k - 1) as nat)) by {
            assert(leb_bound(k) == 128 * leb_bound((k - 1) as nat));
            assert(v2 < leb_bound(k) / 128) by (nonlinear_arith)
                requires
                    v < leb_bound(k),
                    leb_bound(k) == 128 * leb_bound((k - 1) as nat),
                    v2 == v / 128,
            ;
        }
        lemma_leb_roundtrip_k(v2, rest, (k - 1) as nat);
        assert(s.skip(1) =~= leb_enc(v2) + rest);
        assert((s[0] - 128) as nat + 128 * (v / 128) == v) by {
            assert(v % 128 + 128 * (v / 128) == v) by (nonlinear_arith);
        }
    }
}

/// A decode that consumed exactly as many bytes as the minimal encoding has
/// read the minimal encoding itself.
pub proof fn lemma_leb_minimal(s: Seq<u8>, v: nat, n: int)
    requires
        leb_dec(s) == Some((v, n)),
        n == leb_enc(v).len(),
    ensures
        s.subrange(0, n) == leb_enc(v),
{
    lemma_leb_minimal_k(s, v, n, LEB_MAX_BYTES as nat);
}

proof fn lemma_leb_minimal_k(s: Seq<u8>, v: nat, n: int, k: nat)
    requires
        leb_dec_k(s, k) == Some((v, n)),
        n == leb_enc(v).len(),
    ensures
        s.subrange(0, n) == leb_enc(v),
    decreases k,
{
    lemma_leb_dec_bound(s, k);
    if s[0] < 128 {
        assert(v == s[0] as nat);
        assert(s.subrange(0, 1) =~= leb_enc(v));
    } else {
        let inner = leb_dec_k(s.skip(1), (k - 1) as nat);
        let v2 = inner->Some_0.0;
        let n2 = inner->Some_0.1;
        assert(v == (s[0] - 128) as nat + 128 * v2);
        assert(n == n2 + 1);
        lemma_leb_dec_bound(s.skip(1), (k - 1) as nat);
        assert(v >= 128 || leb_enc(v).len() == 1);
        assert(v >= 128) by {
            if v < 128 {
                assert(n == 1);
                assert(n2 == 0);
            }
        }
        assert(v % 128 == (s[0] - 128) as nat && v / 128 == v2) by (nonlinear_arith)
            requires
                v == (s[0] - 128) as nat + 128 * v2,
                v >= 128,
                s[0] >= 128,
        ;
        lemma_leb_minimal_k(s.skip(1), v2, n2, (k - 1) as nat);
        assert(s.subrange(0, n) =~= seq![(128 + v % 128) as u8] + s.skip(1).subrange(0, n2));
        assert(s.subrange(0, n) =~= leb_enc(v));
    }
}

/// Read an unsigned LEB128 value from `bytes[pos..limit]` with `k` bytes of
/// budget left.
fn leb_read_k(bytes: &Vec<u8>, pos: usize, limit: usize, k: usize) -> (r: Option<(u32, usize)>)
    requires
        pos <= limit <= bytes@.len(),
        1 <= k <= LEB_MAX_BYTES,
    ensures
        match leb_dec_k(bytes@.subrange(pos as int, limit as int), k as nat) {
            Some((v, n)) => r == Some((v as u32, (pos + n) as usize)) && v < leb_bound(
                k as nat,
            ) && leb_bound(k as nat) <= 0x1_0000_0000,
            None => r is None,
        },
    decreases k,
{
    proof {
        lemma_leb_bound_values();
        if leb_dec_k(bytes@.subrange(pos as int, limit as int), k as nat) is Some {
            lemma_leb_dec_bound(bytes@.subrange(pos as int, limit as int), k as nat);
        }
    }
    if pos >= limit {
        return None;
    }
    let b = bytes[pos];
    if k == 1 && b >= 16 {
        return None;
    }
    if b < 128 {
        return Some((b as u32, pos + 1));
    }
    if k == 1 {
        return None;
    }
    proof {
        assert(bytes@.subrange(pos as int, limit as int).skip(1) =~= bytes@.subrange(
            pos as int + 1,
            limit as int,
        ));
    }
    match leb_read_k(bytes, pos + 1, limit, k - 1) {
        None => None,
        Some((v, end)) => Some(((b - 128) as u32 + 128 * v, end)),
    }
}

/// `leb_bound` at each budget this module uses, as plain numbers.
pub proof fn lemma_leb_bound_values()
    ensures
        leb_bound(1) == 16,
        leb_bound(2) == 2048,
        leb_bound(3) == 262144,
        leb_bound(4) == 33554432,
        leb_bound(5) == 0x1_0000_0000,
{
    reveal_with_fuel(leb_bound, 6);
}

/// Read a 32-bit unsigned LEB128 value from `bytes[pos..limit]`. Returns the
/// value and the position just past it.
pub fn leb_read(bytes: &Vec<u8>, pos: usize, limit: usize) -> (r: Option<(u32, usize)>)
    requires
        pos <= limit <= bytes@.len(),
    ensures
        match leb_dec(bytes@.subrange(pos as int, limit as int)) {
            Some((v, n)) => r == Some((v as u32, (pos + n) as usize)) && v == (v as u32) as nat
                && 1 <= n && pos + n <= limit,
            None => r is None,
        },
{
    proof {
        lemma_leb_bound_values();
        if leb_dec(bytes@.subrange(pos as int, limit as int)) is Some {
            lemma_leb_dec_bound(bytes@.subrange(pos as int, limit as int), LEB_MAX_BYTES as nat);
        }
    }
    leb_read_k(bytes, pos, limit, LEB_MAX_BYTES)
}

/// Append the minimal encoding of `v` to `out`.
pub fn leb_write(out: &mut Vec<u8>, v: u32)
    ensures
        final(out)@ == old(out)@ + leb_enc(v as nat),
    decreases v,
{
    if v < 128 {
        out.push(v as u8);
        assert(out@ =~= old(out)@ + leb_enc(v as nat));
    } else {
        out.push((v % 128 + 128) as u8);
        assert(v / 128 < v) by (nonlinear_arith)
            requires
                v >= 128,
        ;
        leb_write(out, v / 128);
        assert(out@ =~= old(out)@ + leb_enc(v as nat));
    }
}

} // verus!
