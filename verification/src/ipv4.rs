//! IPv4 prefix arithmetic on 32-bit addresses: conversion between dotted
//! quads and 32-bit values (an exact round trip), netmask construction
//! and measurement, mask application, prefix matching, widening and
//! splitting.
//!
//! A netmask with `k` leading one bits is modelled arithmetically as
//! `2^32 - 2^(32-k)`; a `/k` prefix owns a block of `2^(32-k)` addresses.
//! Addresses are spelled canonically: `to_decimal` accepts exactly the
//! strings `to_ipv4` produces, each address has one spelling
//! (`lemma_quad_str_injective`), and parsing a printed address or
//! printing a parsed one gives back the starting point.

use vstd::arithmetic::div_mod::*;
use vstd::arithmetic::mul::*;
use vstd::arithmetic::power2::*;
use vstd::bits::*;
use vstd::prelude::*;
use vstd::string::*;

verus! {

/// The decimal digit character for a value between 0 and 9.
pub open spec fn dig(d: int) -> char
    recommends
        0 <= d <= 9,
{
    if d == 0 {
        '0'
    } else if d == 1 {
        '1'
    } else if d == 2 {
        '2'
    } else if d == 3 {
        '3'
    } else if d == 4 {
        '4'
    } else if d == 5 {
        '5'
    } else if d == 6 {
        '6'
    } else if d == 7 {
        '7'
    } else if d == 8 {
        '8'
    } else {
        '9'
    }
}

/// The value of a decimal digit character, or -1 for any other character.
pub open spec fn char_digit(c: char) -> int {
    if c == '0' {
        0
    } else if c == '1' {
        1
    } else if c == '2' {
        2
    } else if c == '3' {
        3
    } else if c == '4' {
        4
    } else if c == '5' {
        5
    } else if c == '6' {
        6
    } else if c == '7' {
        7
    } else if c == '8' {
        8
    } else if c == '9' {
        9
    } else {
        -1
    }
}

/// The canonical decimal spelling (no leading zeros) of a value between
/// 0 and 255.
pub open spec fn dec_str(v: int) -> Seq<char>
    recommends
        0 <= v <= 255,
{
    if v < 10 {
        seq![dig(v)]
    } else if v < 100 {
        seq![dig(v / 10), dig(v % 10)]
    } else {
        seq![dig(v / 100), dig((v / 10) % 10), dig(v % 10)]
    }
}

/// The canonical dotted-quad spelling of a 32-bit address.
pub open spec fn quad_str(n: u32) -> Seq<char> {
    dec_str(n as int / 0x100_0000) + seq!['.'] + dec_str((n as int / 0x1_0000) % 256)
        + seq!['.'] + dec_str((n as int / 256) % 256) + seq!['.'] + dec_str(n as int % 256)
}

/// A character sequence is a well-formed dotted quad when it is the
/// canonical spelling of some 32-bit address.
pub open spec fn is_dotted_quad(s: Seq<char>) -> bool {
    exists|n: u32| s == quad_str(n)
}

/// Number of addresses covered by a prefix of length `k`.
pub open spec fn block(k: int) -> nat
    recommends
        0 <= k <= 32,
{
    pow2((32 - k) as nat)
}

/// The netmask with `k` leading one bits, as a 32-bit value.
pub open spec fn mask_of(k: int) -> u32
    recommends
        0 <= k <= 32,
{
    (0x1_0000_0000 - block(k)) as u32
}

/// A 32-bit value is a well-formed netmask when it consists of some number
/// of leading one bits followed by zero bits only.
pub open spec fn valid_mask(m: u32) -> bool {
    exists|k: int| 0 <= k <= 32 && m == mask_of(k)
}

/// The prefix length of a well-formed netmask.
pub open spec fn digit_of(m: u32) -> int {
    choose|k: int| 0 <= k <= 32 && m == mask_of(k)
}

/// Blocks are positive and no larger than the whole address space.
pub proof fn lemma_block_bounds(k: int)
    requires
        0 <= k <= 32,
    ensures
        1 <= block(k),
        block(k) <= 0x1_0000_0000,
        k < 32 ==> 2 <= block(k),
        k >= 1 ==> block(k) <= 0x8000_0000,
{
    lemma_pow2_pos((32 - k) as nat);
    lemma2_to64();
    if k > 0 {
        lemma_pow2_strictly_increases((32 - k) as nat, 32);
    }
    if k < 32 {
        lemma_pow2_strictly_increases(0, (32 - k) as nat);
    }
    if k > 1 && k < 32 {
        lemma_pow2_strictly_increases((32 - k) as nat, 31);
    }
    assert(pow2(31) == 0x8000_0000) by {
        lemma2_to64();
    }
}

/// Longer prefixes have numerically larger netmasks; in particular the
/// prefix length of a well-formed netmask is unique.
pub proof fn lemma_mask_of_injective(k1: int, k2: int)
    requires
        0 <= k1 <= 32,
        0 <= k2 <= 32,
        mask_of(k1) == mask_of(k2),
    ensures
        k1 == k2,
{
    lemma_block_bounds(k1);
    lemma_block_bounds(k2);
    if k1 < k2 {
        lemma_pow2_strictly_increases((32 - k2) as nat, (32 - k1) as nat);
    }
    if k2 < k1 {
        lemma_pow2_strictly_increases((32 - k1) as nat, (32 - k2) as nat);
    }
}

/// A well-formed netmask determines its prefix length.
pub proof fn lemma_digit_of_mask(k: int)
    requires
        0 <= k <= 32,
    ensures
        valid_mask(mask_of(k)),
        digit_of(mask_of(k)) == k,
{
    let k2 = digit_of(mask_of(k));
    assert(0 <= k2 <= 32 && mask_of(k) == mask_of(k2));
    lemma_mask_of_injective(k, k2);
}

/// The netmask with `k` leading one bits.
pub fn mask_val(k: u32) -> (r: u32)
    requires
        k <= 32,
    ensures
        r == mask_of(k as int),
{
    proof {
        lemma_block_bounds(k as int);
        vstd::bits::lemma_u64_shl_is_mul(1u64, (32 - k) as u64);
    }
    let b: u64 = 1u64 << ((32 - k) as u64);
    (0x1_0000_0000u64 - b) as u32
}

/// Bitwise AND of an address with a netmask, giving the network prefix.
pub fn apply_mask(network: u32, netmask: u32) -> (r: u32)
    ensures
        r == network & netmask,
{
    network & netmask
}

/// Whether `network` falls under the prefix `(prefix, netmask)`.
pub fn check_match(prefix: u32, netmask: u32, network: u32) -> (r: bool)
    ensures
        r == (prefix == network & netmask),
{
    prefix == network & netmask
}

/// An address is aligned to prefix length `k` when its `32 - k` host bits
/// are all zero.
pub open spec fn aligned(n: u32, k: int) -> bool
    recommends
        0 <= k <= 32,
{
    n as int % block(k) as int == 0
}

/// The value of the upper `k` bits of an address: the index of the `/k`
/// block the address lies in.
pub open spec fn prefix_val(n: u32, k: int) -> int
    recommends
        0 <= k <= 32,
{
    n as int / block(k) as int
}

/// Applying a `/k` netmask rounds an address down to a multiple of the
/// block size: the bitwise operation agrees with integer division.
pub proof fn lemma_and_mask(n: u32, k: int)
    requires
        0 <= k <= 32,
    ensures
        (n & mask_of(k)) == prefix_val(n, k) * block(k),
        (n & mask_of(k)) == n - (n as int % block(k) as int),
{
    lemma_block_bounds(k);
    let b = block(k) as int;
    lemma_fundamental_div_mod(n as int, b);
    lemma_mod_bound(n as int, b);
    if k == 0 {
        lemma2_to64();
        assert(mask_of(0) == 0);
        assert(n & 0 == 0) by (bit_vector);
        lemma_basic_div(n as int, b);
    } else {
        let s = (32 - k) as nat;
        lemma_u32_low_bits_mask_is_mod(n, s);
        lemma_u32_pow2_no_overflow(s);
        let low: u32 = low_bits_mask(s) as u32;
        let m: u32 = mask_of(k);
        assert(m == 0xFFFFFFFFu32 - low);
        assert((n & m) + (n & low) == n) by (bit_vector)
            requires
                m == 0xFFFFFFFFu32 - low,
        ;
        assert(n & low == n as int % b);
    }
    lemma_mul_is_commutative(b, prefix_val(n, k));
}

/// An address is aligned exactly when masking leaves it unchanged.
pub proof fn lemma_aligned_iff_masked(n: u32, k: int)
    requires
        0 <= k <= 32,
    ensures
        aligned(n, k) <==> (n & mask_of(k)) == n,
{
    lemma_and_mask(n, k);
}

/// For an aligned prefix, the bitwise match test agrees with comparing
/// block indices.
pub proof fn lemma_match_iff_same_block(net: u32, k: int, a: u32)
    requires
        0 <= k <= 32,
        aligned(net, k),
    ensures
        (net == a & mask_of(k)) <==> prefix_val(a, k) == prefix_val(net, k),
{
    lemma_block_bounds(k);
    let b = block(k) as int;
    lemma_and_mask(a, k);
    lemma_fundamental_div_mod(net as int, b);
    lemma_mul_is_commutative(b, prefix_val(net, k));
    if net == a & mask_of(k) {
        lemma_mul_equality_converse(b, prefix_val(a, k), prefix_val(net, k));
    }
}

/// Each `/k` block splits into two `/(k+1)` blocks.
pub proof fn lemma_block_halves(k: int)
    requires
        0 <= k < 32,
    ensures
        block(k) == 2 * block(k + 1),
{
    lemma_pow2_unfold((32 - k) as nat);
}

/// The number of addresses in a `/k` block, as a 32-bit value.
pub fn block_val(k: u32) -> (r: u32)
    requires
        1 <= k <= 32,
    ensures
        r == block(k as int),
{
    proof {
        lemma_block_bounds(k as int);
        lemma_u32_shl_is_mul(1u32, (32 - k) as u32);
    }
    1u32 << ((32 - k) as u32)
}

/// Whether a 32-bit value is a well-formed, left-contiguous netmask.
pub fn is_valid_mask(m: u32) -> (r: bool)
    ensures
        r == valid_mask(m),
{
    let mut k: u32 = 0;
    while k <= 32
        invariant
            k <= 33,
            forall|j: int| 0 <= j < k ==> m != mask_of(j),
        decreases 33 - k,
    {
        if m == mask_val(k) {
            return true;
        }
        k = k + 1;
    }
    false
}

/// The prefix length of a well-formed netmask: the count of its one bits.
pub fn netmask_digit(mask: u32) -> (r: u32)
    requires
        valid_mask(mask),
    ensures
        r <= 32,
        mask == mask_of(r as int),
        r as int == digit_of(mask),
{
    let mut k: u32 = 0;
    while k < 32
        invariant
            k <= 32,
            forall|j: int| 0 <= j < k ==> mask != mask_of(j),
            valid_mask(mask),
        decreases 32 - k,
    {
        if mask == mask_val(k) {
            proof {
                lemma_digit_of_mask(k as int);
            }
            return k;
        }
        k = k + 1;
    }
    proof {
        let k0 = choose|k0: int| 0 <= k0 <= 32 && mask == mask_of(k0);
        assert(k0 == 32);
        lemma_digit_of_mask(32);
    }
    assert(mask == mask_of(32));
    32
}

/// The netmask one bit longer than the given well-formed netmask.
pub fn netnask_increase(mask: u32) -> (r: u32)
    requires
        valid_mask(mask),
        digit_of(mask) < 32,
    ensures
        r == mask_of(digit_of(mask) + 1),
        valid_mask(r),
        digit_of(r) == digit_of(mask) + 1,
{
    let d = netmask_digit(mask);
    let r = mask_val(d + 1);
    proof {
        lemma_digit_of_mask(d as int + 1);
    }
    r
}

/// The block index of an address under a netmask: the masked address with
/// the host bits shifted away.
pub fn apply_mask_prefix(network: u32, netmask: u32) -> (r: u32)
    requires
        valid_mask(netmask),
        1 <= digit_of(netmask),
    ensures
        r == prefix_val(network, digit_of(netmask)),
{
    let d = netmask_digit(netmask);
    let masked = network & netmask;
    proof {
        let k = d as int;
        let b = block(k) as int;
        lemma_block_bounds(k);
        lemma_and_mask(network, k);
        lemma_u32_shr_is_div(masked, (32 - d) as u32);
        lemma_u32_pow2_no_overflow((32 - k) as nat);
        lemma_div_multiples_vanish(prefix_val(network, k), b);
    }
    masked >> ((32 - d) as u32)
}

/// Split an aligned prefix into the ordered pair of sibling half-blocks
/// under the given (one bit longer) netmask. The input prefix is one of
/// the two returned halves.
pub fn divide_prefix(prefix: u32, mask: u32) -> (r: (u32, u32))
    requires
        valid_mask(mask),
        1 <= digit_of(mask),
        aligned(prefix, digit_of(mask)),
    ensures
        aligned(r.0, digit_of(mask) - 1),
        r.1 == r.0 + block(digit_of(mask)),
        prefix == r.0 || prefix == r.1,
{
    let d = netmask_digit(mask);
    let b = block_val(d);
    let ghost k = d as int;
    let ghost bi = block(k) as int;
    proof {
        lemma_block_bounds(k);
    }
    let q = prefix / b;
    let ghost qi = q as int;
    proof {
        let pk = pow2(k as nat) as int;
        lemma_fundamental_div_mod(prefix as int, bi);
        lemma_mul_is_commutative(bi, qi);
        assert(qi * bi == prefix);
        // The block index is below 2^k.
        lemma_pow2_adds(k as nat, (32 - k) as nat);
        lemma2_to64();
        assert(pk * bi == 0x1_0000_0000);
        assert(qi < pk) by {
            if qi >= pk {
                lemma_mul_inequality(pk, qi, bi);
            }
        }
        lemma_pow2_unfold(k as nat);
        lemma_block_halves(k - 1);
        lemma_fundamental_div_mod(qi, 2);
        if qi % 2 == 0 {
            // Lower half: the sibling lies one block above and within range.
            assert(prefix + bi == (qi + 1) * bi) by {
                lemma_mul_is_distributive_add_other_way(bi, qi, 1);
            }
            assert((qi + 1) * bi <= (pk - 1) * bi) by {
                lemma_mul_inequality(qi + 1, pk - 1, bi);
            }
            assert((pk - 1) * bi == pk * bi - bi) by {
                lemma_mul_is_distributive_sub_other_way(bi, pk, 1);
            }
            assert(prefix == (qi / 2) * (2 * bi)) by {
                lemma_mul_is_associative(qi / 2, 2, bi);
            }
            lemma_mod_multiples_basic(qi / 2, 2 * bi);
        } else {
            // Upper half: step down to the sibling below.
            assert(prefix - bi == (qi - 1) * bi) by {
                lemma_mul_is_distributive_sub_other_way(bi, qi, 1);
            }
            assert(prefix - bi >= 0) by {
                lemma_mul_nonnegative(qi - 1, bi);
            }
            assert((qi - 1) * bi == (qi / 2) * (2 * bi)) by {
                lemma_mul_is_associative(qi / 2, 2, bi);
            }
            lemma_mod_multiples_basic(qi / 2, 2 * bi);
        }
    }
    if q % 2 == 0 {
        (prefix, prefix + b)
    } else {
        (prefix - b, prefix)
    }
}

/// The one-character string for a decimal digit.
fn dig_str(d: u32) -> (r: &'static str)
    requires
        d <= 9,
    ensures
        r@ == seq![dig(d as int)],
{
    proof {
        reveal_strlit("0");
        reveal_strlit("1");
        reveal_strlit("2");
        reveal_strlit("3");
        reveal_strlit("4");
        reveal_strlit("5");
        reveal_strlit("6");
        reveal_strlit("7");
        reveal_strlit("8");
        reveal_strlit("9");
    }
    let r = if d == 0 {
        "0"
    } else if d == 1 {
        "1"
    } else if d == 2 {
        "2"
    } else if d == 3 {
        "3"
    } else if d == 4 {
        "4"
    } else if d == 5 {
        "5"
    } else if d == 6 {
        "6"
    } else if d == 7 {
        "7"
    } else if d == 8 {
        "8"
    } else {
        "9"
    };
    proof {
        assert(r@ =~= seq![dig(d as int)]);
    }
    r
}

/// The value of a digit character; 10 for any non-digit character.
fn digit_val(c: char) -> (r: u32)
    ensures
        r as int == if char_digit(c) >= 0 {
            char_digit(c)
        } else {
            10int
        },
{
    match c {
        '0' => 0,
        '1' => 1,
        '2' => 2,
        '3' => 3,
        '4' => 4,
        '5' => 5,
        '6' => 6,
        '7' => 7,
        '8' => 8,
        '9' => 9,
        _ => 10,
    }
}

/// Append the canonical decimal spelling of an octet to a string.
fn push_octet(s: &mut String, v: u32)
    requires
        v <= 255,
    ensures
        final(s)@ == old(s)@ + dec_str(v as int),
{
    if v >= 100 {
        s.append(dig_str(v / 100));
        s.append(dig_str((v / 10) % 10));
        s.append(dig_str(v % 10));
        proof {
            assert(final(s)@ =~= old(s)@ + dec_str(v as int));
        }
    } else if v >= 10 {
        s.append(dig_str(v / 10));
        s.append(dig_str(v % 10));
        proof {
            assert(final(s)@ =~= old(s)@ + dec_str(v as int));
        }
    } else {
        s.append(dig_str(v));
        proof {
            assert(final(s)@ =~= old(s)@ + dec_str(v as int));
        }
    }
}

/// Render a 32-bit address as its canonical dotted-quad string.
pub fn to_ipv4(deci: u32) -> (r: String)
    ensures
        r@ == quad_str(deci),
        is_dotted_quad(r@),
{
    proof {
        reveal_strlit(".");
    }
    let mut s = String::new();
    let a: u32 = deci / 0x100_0000;
    let b: u32 = (deci / 0x1_0000) % 256;
    let c: u32 = (deci / 256) % 256;
    let d: u32 = deci % 256;
    push_octet(&mut s, a);
    s.append(".");
    push_octet(&mut s, b);
    s.append(".");
    push_octet(&mut s, c);
    s.append(".");
    push_octet(&mut s, d);
    proof {
        assert(s@ =~= quad_str(deci));
    }
    s
}

/// Parse one octet of a dotted quad, starting at `start`, which the
/// caller knows spells the value `v` followed by the end of the string
/// or a non-digit character.
fn parse_octet(s: &str, start: usize, Ghost(v): Ghost<int>) -> (r: (u32, usize))
    requires
        0 <= v <= 255,
        start + dec_str(v).len() <= s@.len(),
        s@.subrange(start as int, start as int + dec_str(v).len()) == dec_str(v),
        start + dec_str(v).len() == s@.len() || char_digit(
            s@[start as int + dec_str(v).len()],
        ) < 0,
    ensures
        r.0 == v,
        r.1 == start + dec_str(v).len(),
{
    let ghost l = dec_str(v).len();
    let len = s.unicode_len();
    proof {
        assert(s@[start as int] == dec_str(v)[0]);
        if v >= 10 {
            assert(s@[start as int + 1] == dec_str(v)[1]);
        }
        if v >= 100 {
            assert(s@[start as int + 2] == dec_str(v)[2]);
        }
    }
    let c0 = s.get_char(start);
    let v0 = digit_val(c0);
    if start + 1 == len || digit_val(s.get_char(start + 1)) > 9 {
        proof {
            assert(v < 10);
        }
        (v0, start + 1)
    } else {
        let v1 = digit_val(s.get_char(start + 1));
        if start + 2 == len || digit_val(s.get_char(start + 2)) > 9 {
            proof {
                assert(10 <= v < 100);
            }
            (v0 * 10 + v1, start + 2)
        } else {
            let v2 = digit_val(s.get_char(start + 2));
            proof {
                assert(100 <= v);
            }
            (v0 * 100 + v1 * 10 + v2, start + 3)
        }
    }
}

/// Parse a canonical dotted-quad string into its 32-bit address.
pub fn to_decimal(ip: &str) -> (r: u32)
    requires
        is_dotted_quad(ip@),
    ensures
        quad_str(r) == ip@,
{
    let ghost n0 = choose|n: u32| ip@ == quad_str(n);
    let ghost a0 = n0 as int / 0x100_0000;
    let ghost b0 = (n0 as int / 0x1_0000) % 256;
    let ghost c0 = (n0 as int / 256) % 256;
    let ghost d0 = n0 as int % 256;
    let ghost la = dec_str(a0).len() as int;
    let ghost lb = dec_str(b0).len() as int;
    let ghost lc = dec_str(c0).len() as int;
    let ghost ld = dec_str(d0).len() as int;
    proof {
        lemma_div_is_ordered(n0 as int, 0xFFFF_FFFF, 0x100_0000);
        lemma_div_pos_is_pos(n0 as int, 0x100_0000);
        lemma_mod_bound(n0 as int / 0x1_0000, 256);
        lemma_mod_bound(n0 as int / 256, 256);
        lemma_mod_bound(n0 as int, 256);
        assert(ip@.len() == la + lb + lc + ld + 3);
        assert(ip@.subrange(0, la) =~= dec_str(a0));
        assert(char_digit(ip@[la]) < 0);
    }
    let (a, i1) = parse_octet(ip, 0, Ghost(a0));
    proof {
        assert(ip@.subrange(la + 1, la + 1 + lb) =~= dec_str(b0));
        assert(la + 1 + lb == ip@.len() || char_digit(ip@[la + 1 + lb]) < 0);
    }
    let (b, i2) = parse_octet(ip, i1 + 1, Ghost(b0));
    proof {
        assert(ip@.subrange(la + lb + 2, la + lb + 2 + lc) =~= dec_str(c0));
        assert(char_digit(ip@[la + lb + 2 + lc]) < 0);
    }
    let (c, i3) = parse_octet(ip, i2 + 1, Ghost(c0));
    proof {
        assert(ip@.subrange(la + lb + lc + 3, la + lb + lc + 3 + ld) =~= dec_str(d0));
    }
    let (d, _i4) = parse_octet(ip, i3 + 1, Ghost(d0));
    let r: u32 = a * 0x100_0000 + b * 0x1_0000 + c * 256 + d;
    proof {
        let ri = r as int;
        lemma_fundamental_div_mod_converse_div(
            ri,
            0x100_0000,
            a0,
            b0 * 0x1_0000 + c0 * 256 + d0,
        );
        lemma_fundamental_div_mod_converse_div(ri, 0x1_0000, a0 * 256 + b0, c0 * 256 + d0);
        lemma_mod_multiples_vanish(a0, b0, 256);
        lemma_small_mod(b0 as nat, 256);
        lemma_fundamental_div_mod_converse_div(ri, 256, (a0 * 256 + b0) * 256 + c0, d0);
        lemma_mod_multiples_vanish(a0 * 256 + b0, c0, 256);
        lemma_small_mod(c0 as nat, 256);
        lemma_fundamental_div_mod_converse_mod(ri, 256, (a0 * 256 + b0) * 256 + c0, d0);
        assert(quad_str(r) == ip@);
    }
    r
}

/// Digit characters decode back to their values.
proof fn lemma_dig_val(d: int)
    requires
        0 <= d <= 9,
    ensures
        char_digit(dig(d)) == d,
{
}

/// The canonical decimal spelling of an octet: one to three characters,
/// all of them digits.
proof fn lemma_dec_str_props(v: int)
    requires
        0 <= v <= 255,
    ensures
        1 <= dec_str(v).len() <= 3,
        forall|i: int| 0 <= i < dec_str(v).len() ==> char_digit(#[trigger] dec_str(v)[i]) >= 0,
        v < 10 <==> dec_str(v).len() == 1,
        10 <= v < 100 <==> dec_str(v).len() == 2,
        100 <= v <==> dec_str(v).len() == 3,
{
    if v < 10 {
        lemma_dig_val(v);
    } else if v < 100 {
        lemma_dig_val(v / 10);
        lemma_dig_val(v % 10);
    } else {
        lemma_dig_val(v / 100);
        lemma_dig_val((v / 10) % 10);
        lemma_dig_val(v % 10);
    }
}

/// No two octet values share a canonical decimal spelling.
proof fn lemma_dec_str_injective(v1: int, v2: int)
    requires
        0 <= v1 <= 255,
        0 <= v2 <= 255,
        dec_str(v1) == dec_str(v2),
    ensures
        v1 == v2,
{
    lemma_dec_str_props(v1);
    lemma_dec_str_props(v2);
    assert(dec_str(v1).len() == dec_str(v2).len());
    if v1 < 10 {
        assert(v2 < 10);
        assert(dec_str(v1) == seq![dig(v1)]);
        assert(dec_str(v2) == seq![dig(v2)]);
        assert(dec_str(v1)[0] == dig(v1));
        assert(dec_str(v2)[0] == dig(v2));
        assert(dig(v1) == dig(v2));
        lemma_dig_val(v1);
        lemma_dig_val(v2);
        assert(v1 == char_digit(dig(v1)));
        assert(v2 == char_digit(dig(v2)));
    } else if v1 < 100 {
        assert(dec_str(v1)[0] == dec_str(v2)[0]);
        assert(dec_str(v1)[1] == dec_str(v2)[1]);
        lemma_dig_val(v1 / 10);
        lemma_dig_val(v1 % 10);
        lemma_dig_val(v2 / 10);
        lemma_dig_val(v2 % 10);
        assert(v1 / 10 == v2 / 10);
        assert(v1 % 10 == v2 % 10);
        lemma_fundamental_div_mod(v1, 10);
        lemma_fundamental_div_mod(v2, 10);
    } else {
        assert(dec_str(v1)[0] == dec_str(v2)[0]);
        assert(dec_str(v1)[1] == dec_str(v2)[1]);
        assert(dec_str(v1)[2] == dec_str(v2)[2]);
        lemma_dig_val(v1 / 100);
        lemma_dig_val((v1 / 10) % 10);
        lemma_dig_val(v1 % 10);
        lemma_dig_val(v2 / 100);
        lemma_dig_val((v2 / 10) % 10);
        lemma_dig_val(v2 % 10);
        assert((v1 / 10) % 10 == (v2 / 10) % 10);
        assert(v1 % 10 == v2 % 10);
        assert(v1 / 100 == v2 / 100);
        lemma_fundamental_div_mod(v1, 10);
        lemma_fundamental_div_mod(v2, 10);
        lemma_fundamental_div_mod(v1 / 10, 10);
        lemma_fundamental_div_mod(v2 / 10, 10);
        lemma_div_denominator(v1, 10, 10);
        lemma_div_denominator(v2, 10, 10);
    }
}

/// Two equal dotted-quad spellings start with the same octet spelling,
/// followed by the same remainder.
proof fn lemma_first_component(a1: int, a2: int, r1: Seq<char>, r2: Seq<char>)
    requires
        0 <= a1 <= 255,
        0 <= a2 <= 255,
        dec_str(a1) + seq!['.'] + r1 == dec_str(a2) + seq!['.'] + r2,
    ensures
        a1 == a2,
        r1 == r2,
{
    lemma_dec_str_props(a1);
    lemma_dec_str_props(a2);
    let s1 = dec_str(a1) + seq!['.'] + r1;
    let s2 = dec_str(a2) + seq!['.'] + r2;
    let l1 = dec_str(a1).len() as int;
    let l2 = dec_str(a2).len() as int;
    assert(s1[l1] == '.');
    assert(s2[l2] == '.');
    if l1 < l2 {
        assert(s2[l1] == dec_str(a2)[l1]);
        assert(char_digit(s2[l1]) >= 0);
        assert(s1[l1] == s2[l1]);
        assert(false);
    }
    if l2 < l1 {
        assert(s1[l2] == dec_str(a1)[l2]);
        assert(char_digit(s1[l2]) >= 0);
        assert(s1[l2] == s2[l2]);
        assert(false);
    }
    assert(s1.len() == s2.len());
    assert(r1.len() == r2.len());
    assert(dec_str(a1) =~= dec_str(a2)) by {
        assert forall|i: int| 0 <= i < l1 implies dec_str(a1)[i] == dec_str(a2)[i] by {
            assert(s1[i] == dec_str(a1)[i]);
            assert(s2[i] == dec_str(a2)[i]);
            assert(s1[i] == s2[i]);
        }
    }
    lemma_dec_str_injective(a1, a2);
    assert(r1 =~= r2) by {
        assert forall|i: int| 0 <= i < r1.len() implies r1[i] == r2[i] by {
            assert(s1[l1 + 1 + i] == r1[i]);
            assert(s2[l2 + 1 + i] == r2[i]);
            assert(s1[l1 + 1 + i] == s2[l1 + 1 + i]);
        }
    }
}

/// No two addresses share a dotted-quad spelling: together with the
/// contracts of `to_decimal` and `to_ipv4`, parsing a printed address
/// returns the address, and printing a parsed dotted quad returns the
/// string.
#[verifier::rlimit(100)]
#[verifier::spinoff_prover]
pub proof fn lemma_quad_str_injective(x: u32, y: u32)
    requires
        quad_str(x) == quad_str(y),
    ensures
        x == y,
{
    let xa = x as int / 0x100_0000;
    let xb = (x as int / 0x1_0000) % 256;
    let xc = (x as int / 256) % 256;
    let xd = x as int % 256;
    let ya = y as int / 0x100_0000;
    let yb = (y as int / 0x1_0000) % 256;
    let yc = (y as int / 256) % 256;
    let yd = y as int % 256;
    lemma_div_is_ordered(x as int, 0xFFFF_FFFF, 0x100_0000);
    lemma_div_is_ordered(y as int, 0xFFFF_FFFF, 0x100_0000);
    lemma_div_pos_is_pos(x as int, 0x100_0000);
    lemma_div_pos_is_pos(y as int, 0x100_0000);
    lemma_mod_bound(x as int / 0x1_0000, 256);
    lemma_mod_bound(y as int / 0x1_0000, 256);
    lemma_mod_bound(x as int / 256, 256);
    lemma_mod_bound(y as int / 256, 256);
    lemma_mod_bound(x as int, 256);
    lemma_mod_bound(y as int, 256);
    let rx2 = dec_str(xc) + seq!['.'] + dec_str(xd);
    let ry2 = dec_str(yc) + seq!['.'] + dec_str(yd);
    let rx1 = dec_str(xb) + seq!['.'] + rx2;
    let ry1 = dec_str(yb) + seq!['.'] + ry2;
    assert(quad_str(x) =~= dec_str(xa) + seq!['.'] + rx1);
    assert(quad_str(y) =~= dec_str(ya) + seq!['.'] + ry1);
    lemma_first_component(xa, ya, rx1, ry1);
    lemma_first_component(xb, yb, rx2, ry2);
    lemma_first_component(xc, yc, dec_str(xd), dec_str(yd));
    lemma_dec_str_injective(xd, yd);
    // Reassemble both addresses from their four octets.
    lemma_fundamental_div_mod(x as int, 256);
    lemma_fundamental_div_mod(y as int, 256);
    lemma_fundamental_div_mod(x as int / 256, 256);
    lemma_fundamental_div_mod(y as int / 256, 256);
    lemma_fundamental_div_mod(x as int / 0x1_0000, 256);
    lemma_fundamental_div_mod(y as int / 0x1_0000, 256);
    lemma_div_denominator(x as int, 256, 256);
    lemma_div_denominator(y as int, 256, 256);
    lemma_div_denominator(x as int / 256, 256, 256);
    lemma_div_denominator(y as int / 256, 256, 256);
    assert(x as int / 256 / 256 == x as int / 0x1_0000);
    assert(y as int / 256 / 256 == y as int / 0x1_0000);
    assert(x as int / 256 / 256 / 256 == x as int / 0x100_0000);
    assert(y as int / 256 / 256 / 256 == y as int / 0x100_0000);
}

} // verus!
