//! Little-endian byte codec: the primitives the account serializer and the
//! call decoders are built from, with exact round-trip lemmas.

use vstd::arithmetic::div_mod::lemma_div_denominator;
use vstd::bits::lemma_u64_low_bits_mask_is_mod;
use vstd::bits::lemma_u64_shr_is_div;
use vstd::prelude::*;

verus! {

/// `256^n`.
pub open spec fn pow256(n: nat) -> nat
    decreases n,
{
    if n == 0 {
        1
    } else {
        256 * pow256((n - 1) as nat)
    }
}

/// The `n` little-endian bytes of `x`.
pub open spec fn le_bytes(x: nat, n: nat) -> Seq<u8>
    decreases n,
{
    if n == 0 {
        Seq::empty()
    } else {
        seq![(x % 256) as u8] + le_bytes(x / 256, (n - 1) as nat)
    }
}

/// The value of a little-endian byte string.
pub open spec fn le_value(s: Seq<u8>) -> nat
    decreases s.len(),
{
    if s.len() == 0 {
        0
    } else {
        (s[0] + 256 * le_value(s.drop_first())) as nat
    }
}

pub proof fn lemma_le_bytes_len(x: nat, n: nat)
    ensures
        le_bytes(x, n).len() == n,
    decreases n,
{
    if n > 0 {
        lemma_le_bytes_len(x / 256, (n - 1) as nat);
    }
}

/// Writing then reading gives the value back, for values that fit.
pub proof fn lemma_le_round_trip(x: nat, n: nat)
    requires
        x < pow256(n),
    ensures
        le_value(le_bytes(x, n)) == x,
    decreases n,
{
    if n > 0 {
        lemma_le_bytes_len(x / 256, (n - 1) as nat);
        assert(x / 256 < pow256((n - 1) as nat)) by {
            if x / 256 >= pow256((n - 1) as nat) {
                assert(x >= 256 * pow256((n - 1) as nat)) by (nonlinear_arith)
                    requires
                        x / 256 >= pow256((n - 1) as nat),
                ;
            }
        }
        lemma_le_round_trip(x / 256, (n - 1) as nat);
        let s = le_bytes(x, n);
        assert(s.drop_first() =~= le_bytes(x / 256, (n - 1) as nat));
        assert(x % 256 + 256 * (x / 256) == x) by (nonlinear_arith);
    }
}

/// `256^8` is one past the largest `u64`; smaller powers for the narrower
/// fields.
pub proof fn lemma_pow256_values()
    ensures
        pow256(8) == 0x1_0000_0000_0000_0000,
        pow256(4) == 0x1_0000_0000,
        pow256(1) == 0x100,
        pow256(0) == 1,
{
    reveal_with_fuel(pow256, 9);
}

proof fn lemma_pow256_unfold(n: nat)
    requires
        n >= 1,
    ensures
        pow256(n) == pow256((n - 1) as nat) * 256,
{
    assert(pow256(n) == 256 * pow256((n - 1) as nat));
    assert(256 * pow256((n - 1) as nat) == pow256((n - 1) as nat) * 256) by (nonlinear_arith);
}

proof fn lemma_pow256_pos(n: nat)
    ensures
        pow256(n) >= 1,
    decreases n,
{
    if n > 0 {
        lemma_pow256_pos((n - 1) as nat);
    }
}

/// The `k`-th little-endian byte of `x` is the low byte of `x` shifted
/// down `k` bytes.
pub proof fn lemma_le_bytes_index(x: nat, n: nat, k: nat)
    requires
        k < n,
    ensures
        le_bytes(x, n)[k as int] == ((x / pow256(k)) % 256) as u8,
    decreases k,
{
    lemma_le_bytes_len(x, n);
    lemma_le_bytes_len(x / 256, (n - 1) as nat);
    if k == 0 {
        lemma_pow256_values();
    } else {
        lemma_le_bytes_index(x / 256, (n - 1) as nat, (k - 1) as nat);
        assert(le_bytes(x, n)[k as int] == le_bytes(x / 256, (n - 1) as nat)[k - 1]);
        lemma_pow256_pos((k - 1) as nat);
        lemma_div_denominator(x as int, 256, pow256((k - 1) as nat) as int);
        lemma_pow256_unfold(k);
        assert(256 * pow256((k - 1) as nat) == pow256(k));
    }
}

/// Append the 8 little-endian bytes of `x`.
pub fn put_u64(out: &mut Vec<u8>, x: u64)
    ensures
        final(out)@ == old(out)@ + le_bytes(x as nat, 8),
{
    let ghost pre = out@;
    let mut v: u64 = x;
    let mut k: usize = 0;
    proof {
        lemma_pow256_values();
        lemma_le_bytes_len(x as nat, 8);
    }
    while k < 8
        invariant
            k <= 8,
            v as nat == x as nat / pow256(k as nat),
            out@ == pre + le_bytes(x as nat, 8).take(k as int),
            le_bytes(x as nat, 8).len() == 8,
        decreases 8 - k,
    {
        proof {
            lemma_u64_low_bits_mask_is_mod(v, 8);
            lemma_u64_shr_is_div(v, 8);
            vstd::bits::lemma_low_bits_mask_values();
            assert(vstd::arithmetic::power2::pow2(8) == 256) by {
                vstd::arithmetic::power2::lemma2_to64();
            }
            lemma_le_bytes_index(x as nat, 8, k as nat);
            assert((v & 0xff) as nat == (x as nat / pow256(k as nat)) % 256);
            assert(out@.push((v & 0xff) as u8) =~= pre + le_bytes(x as nat, 8).take(
                k as int + 1,
            ));
            // One more byte shifted off.
            lemma_pow256_pos(k as nat);
            lemma_div_denominator(x as int, pow256(k as nat) as int, 256);
            lemma_pow256_unfold((k + 1) as nat);
            assert(pow256(k as nat) * 256 == pow256((k + 1) as nat));
        }
        out.push((v & 0xff) as u8);
        v = v >> 8u64;
        k = k + 1;
    }
    proof {
        assert(le_bytes(x as nat, 8).take(8) =~= le_bytes(x as nat, 8));
    }
}

/// Read the 8 little-endian bytes at `pos`.
pub fn read_u64(b: &[u8], pos: usize) -> (r: u64)
    requires
        pos + 8 <= b@.len(),
    ensures
        r as nat == le_value(b@.subrange(pos as int, pos as int + 8)),
{
    proof {
        lemma_pow256_values();
    }
    let n = b.len();
    let mut v: u64 = 0;
    let mut k: usize = 8;
    while k > 0
        invariant
            k <= 8,
            pos + 8 <= n,
            n == b@.len(),
            v as nat == le_value(b@.subrange(pos + k, pos as int + 8)),
            v < pow256((8 - k) as nat),
            pow256(8) == 0x1_0000_0000_0000_0000,
        decreases k,
    {
        proof {
            lemma_pow256_monotonic((8 - k) as nat, 7);
            lemma_pow256_unfold(8);
            assert(v * 256 + 255 < pow256(7) * 256) by (nonlinear_arith)
                requires
                    v < pow256(7),
            ;
        }
        let byte = b[pos + k - 1];
        let ghost v0 = v as nat;
        v = v * 256 + (byte as u64);
        k = k - 1;
        proof {
            let s = b@.subrange(pos + k, pos as int + 8);
            assert(s[0] == byte);
            assert(s.drop_first() =~= b@.subrange(pos + k + 1, pos as int + 8));
            lemma_pow256_unfold((8 - k) as nat);
            assert(v0 * 256 + byte < pow256((7 - k) as nat) * 256) by (nonlinear_arith)
                requires
                    v0 < pow256((7 - k) as nat),
                    byte < 256,
            ;
        }
    }
    proof {
        assert(b@.subrange(pos as int, pos as int + 8) =~= b@.subrange(
            pos + 0,
            pos as int + 8,
        ));
    }
    v
}

proof fn lemma_pow256_monotonic(a: nat, b: nat)
    requires
        a <= b,
    ensures
        pow256(a) <= pow256(b),
    decreases b,
{
    if a < b {
        lemma_pow256_monotonic(a, (b - 1) as nat);
        assert(pow256(b) == 256 * pow256((b - 1) as nat));
        assert(pow256((b - 1) as nat) <= 256 * pow256((b - 1) as nat)) by (nonlinear_arith)
            requires
                pow256((b - 1) as nat) >= 0,
        ;
    }
}


/// Append the 4 little-endian bytes of `x`.
pub fn put_u32(out: &mut Vec<u8>, x: u32)
    ensures
        final(out)@ == old(out)@ + le_bytes(x as nat, 4),
{
    let ghost pre = out@;
    let mut v: u32 = x;
    let mut k: usize = 0;
    proof {
        lemma_pow256_values();
        lemma_le_bytes_len(x as nat, 4);
    }
    while k < 4
        invariant
            k <= 4,
            v as nat == x as nat / pow256(k as nat),
            out@ == pre + le_bytes(x as nat, 4).take(k as int),
            le_bytes(x as nat, 4).len() == 4,
        decreases 4 - k,
    {
        proof {
            vstd::bits::lemma_u32_low_bits_mask_is_mod(v, 8);
            vstd::bits::lemma_u32_shr_is_div(v, 8);
            vstd::bits::lemma_low_bits_mask_values();
            assert(vstd::arithmetic::power2::pow2(8) == 256) by {
                vstd::arithmetic::power2::lemma2_to64();
            }
            lemma_le_bytes_index(x as nat, 4, k as nat);
            assert((v & 0xff) as nat == (x as nat / pow256(k as nat)) % 256);
            assert(out@.push((v & 0xff) as u8) =~= pre + le_bytes(x as nat, 4).take(
                k as int + 1,
            ));
            lemma_pow256_pos(k as nat);
            lemma_div_denominator(x as int, pow256(k as nat) as int, 256);
            lemma_pow256_unfold((k + 1) as nat);
            assert(pow256(k as nat) * 256 == pow256((k + 1) as nat));
        }
        out.push((v & 0xff) as u8);
        v = v >> 8u32;
        k = k + 1;
    }
    proof {
        assert(le_bytes(x as nat, 4).take(4) =~= le_bytes(x as nat, 4));
    }
}

/// Read the 4 little-endian bytes at `pos`.
pub fn read_u32(b: &[u8], pos: usize) -> (r: u32)
    requires
        pos + 4 <= b@.len(),
    ensures
        r as nat == le_value(b@.subrange(pos as int, pos as int + 4)),
{
    proof {
        lemma_pow256_values();
    }
    let n = b.len();
    let mut v: u32 = 0;
    let mut k: usize = 4;
    while k > 0
        invariant
            k <= 4,
            pos + 4 <= n,
            n == b@.len(),
            v as nat == le_value(b@.subrange(pos + k, pos as int + 4)),
            v < pow256((4 - k) as nat),
            pow256(4) == 0x1_0000_0000,
        decreases k,
    {
        proof {
            lemma_pow256_monotonic((4 - k) as nat, 3);
            lemma_pow256_unfold(4);
            assert(v * 256 + 255 < pow256(3) * 256) by (nonlinear_arith)
                requires
                    v < pow256(3),
            ;
        }
        let byte = b[pos + k - 1];
        let ghost v0 = v as nat;
        v = v * 256 + (byte as u32);
        k = k - 1;
        proof {
            let s = b@.subrange(pos + k, pos as int + 4);
            assert(s[0] == byte);
            assert(s.drop_first() =~= b@.subrange(pos + k + 1, pos as int + 4));
            lemma_pow256_unfold((4 - k) as nat);
            assert(v0 * 256 + byte < pow256((3 - k) as nat) * 256) by (nonlinear_arith)
                requires
                    v0 < pow256((3 - k) as nat),
                    byte < 256,
            ;
        }
    }
    proof {
        assert(b@.subrange(pos as int, pos as int + 4) =~= b@.subrange(
            pos + 0,
            pos as int + 4,
        ));
    }
    v
}

} // verus!
