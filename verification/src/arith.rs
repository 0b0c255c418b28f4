//! Arithmetic on power-of-two blocks: orders, alignment and buddies.

use vstd::arithmetic::power2::*;
use vstd::prelude::*;

verus! {

/// The start of the block of order `order` that holds address `x`.
pub open spec fn floor_to(x: int, order: nat) -> int {
    x - x % (pow2(order) as int)
}

/// The start of the other half of the block of order `order + 1` whose one half
/// is the block of order `order` at `offset`.
pub open spec fn buddy_of(offset: int, order: nat) -> int {
    if (offset / (pow2(order) as int)) % 2 == 0 {
        offset + pow2(order)
    } else {
        offset - pow2(order)
    }
}

/// The least order that is at least `from` and whose blocks hold `size` bytes.
pub open spec fn ceil_order(size: nat, from: nat) -> nat
    decreases (if size > pow2(from) { size - pow2(from) } else { 0 }),
{
    if size <= pow2(from) {
        from
    } else {
        proof {
            lemma_pow2_double(from);
        }
        ceil_order(size, from + 1)
    }
}

pub proof fn lemma_pow2_double(order: nat)
    ensures
        pow2(order) > 0,
        pow2(order + 1) == 2 * pow2(order),
{
    lemma_pow2_pos(order);
    lemma_pow2_unfold(order + 1);
}

pub proof fn lemma_pow2_le(a: nat, b: nat)
    requires
        a <= b,
    ensures
        0 < pow2(a) <= pow2(b),
{
    lemma_pow2_pos(a);
    if a < b {
        lemma_pow2_strictly_increases(a, b);
    }
}

/// `ceil_order` is the least order from `from` upwards whose blocks hold `size` bytes.
pub proof fn lemma_ceil_order_least(size: nat, from: nat)
    ensures
        ceil_order(size, from) >= from,
        size <= pow2(ceil_order(size, from)),
        forall|o: nat| from <= o < ceil_order(size, from) ==> #[trigger] pow2(o) < size,
    decreases (if size > pow2(from) { size - pow2(from) } else { 0 }),
{
    if size > pow2(from) {
        lemma_pow2_double(from);
        lemma_ceil_order_least(size, from + 1);
    }
}

/// `1 << order` is `2^order`.
pub(crate) fn order_bytes(order: usize) -> (bytes: usize)
    requires
        order < usize::BITS,
    ensures
        bytes == pow2(order as nat),
{
    proof {
        vstd::bits::lemma_usize_pow2_no_overflow(order as nat);
        vstd::bits::lemma_usize_shl_is_mul(1, order);
    }
    1usize << order
}

/// The exponent of a power of two.
pub(crate) fn exact_order(bytes: usize) -> (order: usize)
    requires
        is_pow2(bytes as int),
    ensures
        order == ceil_order(bytes as nat, 0),
        order < usize::BITS,
        pow2(order as nat) == bytes,
{
    let ghost exponent: nat = 0;
    proof {
        is_pow2_equiv(bytes as int);
        exponent = choose|i: nat| vstd::arithmetic::power::pow(2, i) == bytes;
        assert(pow2(exponent) == bytes);
        if exponent >= usize::BITS {
            lemma_pow2_le(usize::BITS as nat, exponent);
            lemma2_to64();
            lemma2_to64_rest();
            assert(false);
        }
    }
    let mut order: usize = 0;
    while order_bytes(order) < bytes
        invariant
            exponent < usize::BITS,
            pow2(exponent) == bytes,
            order <= exponent,
            ceil_order(bytes as nat, order as nat) == ceil_order(bytes as nat, 0),
        decreases exponent - order,
    {
        order = order + 1;
    }
    proof {
        if order < exponent {
            lemma_pow2_strictly_increases(order as nat, exponent);
        }
    }
    order
}

/// Flipping bit `order` of an offset gives the offset of the buddy.
pub proof fn lemma_xor_is_buddy(offset: usize, order: usize)
    requires
        order < usize::BITS,
    ensures
        (offset ^ (1usize << order)) == buddy_of(offset as int, order as nat),
{
    vstd::bits::lemma_usize_pow2_no_overflow(order as nat);
    vstd::bits::lemma_usize_shl_is_mul(1, order);
    vstd::bits::lemma_usize_shr_is_div(offset, order);
    assert((offset >> order) & 1 == (offset >> order) % 2) by (bit_vector);
    if (offset >> order) & 1 == 0 {
        assert((offset ^ (1usize << order)) == offset + (1usize << order)) by (bit_vector)
            requires
                order < usize::BITS,
                (offset >> order) & 1 == 0,
        ;
    } else {
        assert((offset ^ (1usize << order)) == offset - (1usize << order)) by (bit_vector)
            requires
                order < usize::BITS,
                (offset >> order) & 1 != 0,
        ;
    }
}

/// An aligned block and its buddy are the two halves of the block one order up.
pub proof fn lemma_buddy_pair(offset: int, order: nat)
    requires
        0 <= offset,
        offset % (pow2(order) as int) == 0,
    ensures
        ({
            let p = pow2(order) as int;
            let b = buddy_of(offset, order);
            let low = floor_to(offset, order + 1);
            &&& p > 0
            &&& 0 <= b
            &&& b % p == 0
            &&& buddy_of(b, order) == offset
            &&& floor_to(b, order + 1) == low
            &&& low % (pow2(order + 1) as int) == 0
            &&& low == if offset < b { offset } else { b }
            &&& (b == offset + p || b == offset - p)
        }),
{
    lemma_pow2_double(order);
    let p = pow2(order) as int;
    let q = offset / p;
    let b = buddy_of(offset, order);
    vstd::arithmetic::div_mod::lemma_fundamental_div_mod(offset, p);
    assert(offset == p * q);
    assert(q >= 0) by (nonlinear_arith)
        requires
            offset == p * q,
            0 <= offset,
            p > 0,
    ;
    let r = if q % 2 == 0 { q + 1 } else { q - 1 };
    assert(b == p * r) by (nonlinear_arith)
        requires
            offset == p * q,
            (q % 2 == 0 && r == q + 1 && b == offset + p) || (q % 2 == 1 && r == q - 1 && b == offset - p),
    ;
    assert(r >= 0);
    assert(b >= 0) by (nonlinear_arith)
        requires
            b == p * r,
            r >= 0,
            p > 0,
    ;
    vstd::arithmetic::div_mod::lemma_mod_multiples_basic(r, p);
    vstd::arithmetic::div_mod::lemma_div_by_multiple(r, p);
    assert(p * r == r * p) by (nonlinear_arith);
    vstd::arithmetic::div_mod::lemma_mod_breakdown(offset, p, 2);
    vstd::arithmetic::div_mod::lemma_mod_breakdown(b, p, 2);
    assert(p * (q % 2) == if q % 2 == 0 { 0 } else { p }) by (nonlinear_arith);
    assert(p * (r % 2) == if r % 2 == 0 { 0 } else { p }) by (nonlinear_arith);
    let low = floor_to(offset, order + 1);
    let half = q / 2;
    assert(low == (2 * p) * half) by (nonlinear_arith)
        requires
            offset == p * q,
            q == 2 * half + q % 2,
            low == offset - p * (q % 2),
    ;
    assert((2 * p) * half == half * (2 * p)) by (nonlinear_arith);
    vstd::arithmetic::div_mod::lemma_mod_multiples_basic(half, 2 * p);
}

/// Rounding down to one order and then to the next is rounding down to the latter.
pub proof fn lemma_floor_floor(x: int, order: nat)
    requires
        0 <= x,
    ensures
        0 <= floor_to(x, order) <= x,
        floor_to(x, order) % (pow2(order) as int) == 0,
        floor_to(x, order) / (pow2(order) as int) == x / (pow2(order) as int),
        floor_to(floor_to(x, order), order + 1) == floor_to(x, order + 1),
{
    lemma_pow2_double(order);
    let p = pow2(order) as int;
    let q = x / p;
    let y = floor_to(x, order);
    vstd::arithmetic::div_mod::lemma_fundamental_div_mod(x, p);
    vstd::arithmetic::div_mod::lemma_div_pos_is_pos(x, p);
    assert(y == q * p) by (nonlinear_arith)
        requires
            x == p * q + x % p,
            y == x - x % p,
    ;
    assert(y >= 0) by (nonlinear_arith)
        requires
            y == q * p,
            q >= 0,
            p > 0,
    ;
    vstd::arithmetic::div_mod::lemma_mod_multiples_basic(q, p);
    vstd::arithmetic::div_mod::lemma_div_by_multiple(q, p);
    vstd::arithmetic::div_mod::lemma_mod_breakdown(x, p, 2);
    vstd::arithmetic::div_mod::lemma_mod_breakdown(y, p, 2);
}

/// The lower half of an aligned block starts where the block does, and is aligned.
pub proof fn lemma_lower_half(offset: int, order: nat)
    requires
        0 <= offset,
        offset % (pow2(order + 1) as int) == 0,
    ensures
        offset % (pow2(order) as int) == 0,
        buddy_of(offset, order) == offset + pow2(order),
        floor_to(offset, order + 1) == offset,
{
    lemma_pow2_double(order);
    let p = pow2(order) as int;
    vstd::arithmetic::div_mod::lemma_mod_breakdown(offset, p, 2);
    let bit = (offset / p) % 2;
    assert(bit == 0 && offset % p == 0) by (nonlinear_arith)
        requires
            p > 0,
            bit == 0 || bit == 1,
            0 <= offset % p < p,
            p * bit + offset % p == 0,
    ;
}

/// An aligned block that holds some address of a smaller aligned block holds all of it.
pub proof fn lemma_nested(outer: int, outer_order: nat, inner: int, inner_order: nat, x: int)
    requires
        inner_order <= outer_order,
        outer % (pow2(outer_order) as int) == 0,
        inner % (pow2(inner_order) as int) == 0,
        outer <= x < outer + pow2(outer_order),
        inner <= x < inner + pow2(inner_order),
    ensures
        outer <= inner,
        inner + pow2(inner_order) <= outer + pow2(outer_order),
{
    let d = (outer_order - inner_order) as nat;
    lemma_pow2_adds(inner_order, d);
    lemma_pow2_pos(inner_order);
    lemma_pow2_pos(d);
    let p = pow2(inner_order) as int;
    let m = pow2(d) as int;
    let i = inner / p;
    let k = outer / (p * m);
    vstd::arithmetic::div_mod::lemma_fundamental_div_mod(inner, p);
    assert(p * m > 0) by (nonlinear_arith)
        requires
            p > 0,
            m > 0,
    ;
    vstd::arithmetic::div_mod::lemma_fundamental_div_mod(outer, p * m);
    assert((p * m) * k == p * (m * k)) by (nonlinear_arith);
    assert(p * m + p * (m * k) == p * (m * k + m)) by (nonlinear_arith);
    let lo = m * k;
    let hi = m * k + m;
    assert(lo <= i < hi) by (nonlinear_arith)
        requires
            p > 0,
            p * lo <= x,
            x < p * hi,
            p * i <= x,
            x < p * i + p,
    ;
    assert(p * lo <= p * i && p * i + p <= p * hi) by (nonlinear_arith)
        requires
            p > 0,
            lo <= i < hi,
    ;
}

} // verus!
