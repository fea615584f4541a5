//! Arithmetic in GF(2^8), the field of bytes under XOR and polynomial
//! multiplication modulo x^8 + x^4 + x^3 + x + 1.
use vstd::prelude::*;

verus! {

/// Bit pattern of the irreducible polynomial x^8 + x^4 + x^3 + x + 1.
pub const MODULUS: u16 = 0x11B;

/// Row `i` of the schoolbook product: `b` shifted left by `i` where bit `i` of `a` is set.
pub open spec fn product_row(a: u8, b: u8, i: u16) -> u16 {
    if ((a as u16) >> i) & 1 == 1 {
        (b as u16) << i
    } else {
        0
    }
}

/// Carry-less product of `a` and `b`, taking only the rows below `n`.
pub open spec fn partial_product(a: u8, b: u8, n: u16) -> u16
    decreases n,
{
    if n == 0 {
        0
    } else {
        partial_product(a, b, (n - 1) as u16) ^ product_row(a, b, (n - 1) as u16)
    }
}

/// Carry-less product of two bytes viewed as polynomials over GF(2).
pub open spec fn clmul(a: u8, b: u8) -> u16 {
    partial_product(a, b, 8)
}

/// Reduction of `x` at the bit positions 14 down to `p + 8`: where the bit at
/// `p + 8` is set, the modulus shifted by `p` is added.
pub open spec fn reduce_from(x: u16, p: u16) -> u16
    decreases 7 - p,
{
    if p >= 7 {
        x
    } else {
        let y = reduce_from(x, (p + 1) as u16);
        if (y >> (p + 8)) & 1 == 1 {
            y ^ (MODULUS << p)
        } else {
            y
        }
    }
}

/// Product of two field elements.
pub open spec fn gf_mul(a: u8, b: u8) -> u8 {
    reduce_from(clmul(a, b), 0) as u8
}

/// The running square of the inversion chain after `k` squarings: a^(2^(k+1)).
pub open spec fn inv_square(a: u8, k: u16) -> u8
    decreases k,
{
    if k == 0 {
        gf_mul(a, a)
    } else {
        let s = inv_square(a, (k - 1) as u16);
        gf_mul(s, s)
    }
}

/// The accumulator of the inversion chain after `k` steps: the product of the
/// first `k` running squares.
pub open spec fn inv_acc(a: u8, k: u16) -> u8
    decreases k,
{
    if k == 0 {
        1
    } else {
        gf_mul(inv_acc(a, (k - 1) as u16), inv_square(a, (k - 1) as u16))
    }
}

/// Multiplicative inverse: a^254 by seven square-and-multiply steps, with 0
/// mapped to 0.
pub open spec fn gf_inv(a: u8) -> u8 {
    if a == 0 {
        0
    } else {
        inv_acc(a, 7)
    }
}

/// The low `j` bits of `b`.
pub open spec fn low_bits(b: u8, j: u16) -> u16 {
    (b as u16) & (((1u16 << j) - 1) as u16)
}

proof fn lemma_row_bit_step(acc: u16, base: u16, b: u8, i: u16, j: u16)
    by (bit_vector)
    requires
        i < 8,
        j < 8,
        acc == base ^ (low_bits(b, j) << i),
    ensures
        ((b as u16 >> j) & 1 == 1) ==> (acc ^ (1u16 << (i + j))) == base ^ (low_bits(b, (j + 1) as u16) << i),
        ((b as u16 >> j) & 1 != 1) ==> acc == base ^ (low_bits(b, (j + 1) as u16) << i),
{
}

proof fn lemma_xor_zero(x: u16)
    by (bit_vector)
    ensures
        x ^ 0 == x,
{
}

proof fn lemma_row_full(b: u8, i: u16)
    by (bit_vector)
    requires
        i < 8,
    ensures
        low_bits(b, 8) << i == (b as u16) << i,
        low_bits(b, 0) << i == 0,
{
}

/// Multiplies two bytes as elements of GF(2^8).
pub fn byte_multiply(byte1: &u8, byte2: &u8) -> (r: u8)
    ensures
        r == gf_mul(*byte1, *byte2),
{
    let a: u8 = *byte1;
    let b: u8 = *byte2;
    let mut acc: u16 = 0;
    let mut i: u16 = 0;
    while i < 8
        invariant
            i <= 8,
            acc == partial_product(a, b, i),
        decreases 8 - i,
    {
        proof {
            lemma_xor_zero(acc);
        }
        if ((a as u16) >> i) & 1 == 1 {
            let ghost base = acc;
            proof {
                lemma_row_full(b, i);
            }
            let mut j: u16 = 0;
            while j < 8
                invariant
                    i < 8,
                    j <= 8,
                    acc == base ^ (low_bits(b, j) << i),
                decreases 8 - j,
            {
                proof {
                    lemma_row_bit_step(acc, base, b, i, j);
                }
                if ((b as u16) >> j) & 1 == 1 {
                    acc = acc ^ (1u16 << (i + j));
                }
                j = j + 1;
            }
            proof {
                lemma_row_full(b, i);
            }
        }
        i = i + 1;
    }
    let ghost prod = acc;
    let mut p: u16 = 7;
    while p > 0
        invariant
            p <= 7,
            acc == reduce_from(prod, p),
        decreases p,
    {
        p = p - 1;
        if (acc >> (p + 8)) & 1 == 1 {
            acc = acc ^ (MODULUS << p);
        }
    }
    #[verifier::truncate]
    (acc as u8)
}

/// Zero absorbs, one is neutral, and the order of the factors does not matter.
pub proof fn lemma_mul_laws(a: u8, b: u8)
    ensures
        gf_mul(a, 0) == 0,
        gf_mul(a, 1) == a,
        gf_mul(a, b) == gf_mul(b, a),
{
    assert(gf_mul(a, 0) == 0) by (bit_vector);
    assert(gf_mul(a, 1) == a) by (bit_vector);
    assert(clmul(a, b) == clmul(b, a)) by (bit_vector);
}

/// The inversion chain step by step: each product and its carry-less part
/// stand as variables, so that no product is written out inside another.
proof fn lemma_inverse_chain(
    a: u8, s0: u8, c_s0: u16, s1: u8,
    c_s1: u16, s2: u8, c_s2: u16, s3: u8,
    c_s3: u16, s4: u8, c_s4: u16, s5: u8,
    c_s5: u16, s6: u8, c_s6: u16, r1: u8,
    c_r1: u16, r2: u8, c_r2: u16, r3: u8,
    c_r3: u16, r4: u8, c_r4: u16, r5: u8,
    c_r5: u16, r6: u8, c_r6: u16, r7: u8,
    c_r7: u16,
)
    by (bit_vector)
    requires
        a != 0,
        c_s0 == clmul(a, a),
        s0 == reduce_from(c_s0, 0) as u8,
        c_s1 == clmul(s0, s0),
        s1 == reduce_from(c_s1, 0) as u8,
        c_s2 == clmul(s1, s1),
        s2 == reduce_from(c_s2, 0) as u8,
        c_s3 == clmul(s2, s2),
        s3 == reduce_from(c_s3, 0) as u8,
        c_s4 == clmul(s3, s3),
        s4 == reduce_from(c_s4, 0) as u8,
        c_s5 == clmul(s4, s4),
        s5 == reduce_from(c_s5, 0) as u8,
        c_s6 == clmul(s5, s5),
        s6 == reduce_from(c_s6, 0) as u8,
        c_r1 == clmul(1u8, s0),
        r1 == reduce_from(c_r1, 0) as u8,
        c_r2 == clmul(r1, s1),
        r2 == reduce_from(c_r2, 0) as u8,
        c_r3 == clmul(r2, s2),
        r3 == reduce_from(c_r3, 0) as u8,
        c_r4 == clmul(r3, s3),
        r4 == reduce_from(c_r4, 0) as u8,
        c_r5 == clmul(r4, s4),
        r5 == reduce_from(c_r5, 0) as u8,
        c_r6 == clmul(r5, s5),
        r6 == reduce_from(c_r6, 0) as u8,
        c_r7 == clmul(r6, s6),
        r7 == reduce_from(c_r7, 0) as u8,
    ensures
        (reduce_from(clmul(a, r7), 0) as u8) == 1,
{
}

/// Two inversion chains one after the other give back the byte.
proof fn lemma_double_inverse_chain(
    a: u8, s0: u8, c_s0: u16, s1: u8,
    c_s1: u16, s2: u8, c_s2: u16, s3: u8,
    c_s3: u16, s4: u8, c_s4: u16, s5: u8,
    c_s5: u16, s6: u8, c_s6: u16, r1: u8,
    c_r1: u16, r2: u8, c_r2: u16, r3: u8,
    c_r3: u16, r4: u8, c_r4: u16, r5: u8,
    c_r5: u16, r6: u8, c_r6: u16, r7: u8,
    c_r7: u16, t0: u8, c_t0: u16, t1: u8,
    c_t1: u16, t2: u8, c_t2: u16, t3: u8,
    c_t3: u16, t4: u8, c_t4: u16, t5: u8,
    c_t5: u16, t6: u8, c_t6: u16, q1: u8,
    c_q1: u16, q2: u8, c_q2: u16, q3: u8,
    c_q3: u16, q4: u8, c_q4: u16, q5: u8,
    c_q5: u16, q6: u8, c_q6: u16, q7: u8,
    c_q7: u16,
)
    by (bit_vector)
    requires
        a != 0,
        c_s0 == clmul(a, a),
        s0 == reduce_from(c_s0, 0) as u8,
        c_s1 == clmul(s0, s0),
        s1 == reduce_from(c_s1, 0) as u8,
        c_s2 == clmul(s1, s1),
        s2 == reduce_from(c_s2, 0) as u8,
        c_s3 == clmul(s2, s2),
        s3 == reduce_from(c_s3, 0) as u8,
        c_s4 == clmul(s3, s3),
        s4 == reduce_from(c_s4, 0) as u8,
        c_s5 == clmul(s4, s4),
        s5 == reduce_from(c_s5, 0) as u8,
        c_s6 == clmul(s5, s5),
        s6 == reduce_from(c_s6, 0) as u8,
        c_r1 == clmul(1u8, s0),
        r1 == reduce_from(c_r1, 0) as u8,
        c_r2 == clmul(r1, s1),
        r2 == reduce_from(c_r2, 0) as u8,
        c_r3 == clmul(r2, s2),
        r3 == reduce_from(c_r3, 0) as u8,
        c_r4 == clmul(r3, s3),
        r4 == reduce_from(c_r4, 0) as u8,
        c_r5 == clmul(r4, s4),
        r5 == reduce_from(c_r5, 0) as u8,
        c_r6 == clmul(r5, s5),
        r6 == reduce_from(c_r6, 0) as u8,
        c_r7 == clmul(r6, s6),
        r7 == reduce_from(c_r7, 0) as u8,
        c_t0 == clmul(r7, r7),
        t0 == reduce_from(c_t0, 0) as u8,
        c_t1 == clmul(t0, t0),
        t1 == reduce_from(c_t1, 0) as u8,
        c_t2 == clmul(t1, t1),
        t2 == reduce_from(c_t2, 0) as u8,
        c_t3 == clmul(t2, t2),
        t3 == reduce_from(c_t3, 0) as u8,
        c_t4 == clmul(t3, t3),
        t4 == reduce_from(c_t4, 0) as u8,
        c_t5 == clmul(t4, t4),
        t5 == reduce_from(c_t5, 0) as u8,
        c_t6 == clmul(t5, t5),
        t6 == reduce_from(c_t6, 0) as u8,
        c_q1 == clmul(1u8, t0),
        q1 == reduce_from(c_q1, 0) as u8,
        c_q2 == clmul(q1, t1),
        q2 == reduce_from(c_q2, 0) as u8,
        c_q3 == clmul(q2, t2),
        q3 == reduce_from(c_q3, 0) as u8,
        c_q4 == clmul(q3, t3),
        q4 == reduce_from(c_q4, 0) as u8,
        c_q5 == clmul(q4, t4),
        q5 == reduce_from(c_q5, 0) as u8,
        c_q6 == clmul(q5, t5),
        q6 == reduce_from(c_q6, 0) as u8,
        c_q7 == clmul(q6, t6),
        q7 == reduce_from(c_q7, 0) as u8,
    ensures
        r7 != 0,
        q7 == a,
{
}

/// Zero is its own inverse, and every nonzero byte times its inverse is one.
pub proof fn lemma_inverse(a: u8)
    ensures
        gf_inv(0) == 0,
        a != 0 ==> gf_mul(a, gf_inv(a)) == 1,
{
    if a != 0 {
        assert(inv_acc(a, 0) == 1);
        lemma_inverse_chain(
            a,
            inv_square(a, 0),
            clmul(a, a),
            inv_square(a, 1),
            clmul(inv_square(a, 0), inv_square(a, 0)),
            inv_square(a, 2),
            clmul(inv_square(a, 1), inv_square(a, 1)),
            inv_square(a, 3),
            clmul(inv_square(a, 2), inv_square(a, 2)),
            inv_square(a, 4),
            clmul(inv_square(a, 3), inv_square(a, 3)),
            inv_square(a, 5),
            clmul(inv_square(a, 4), inv_square(a, 4)),
            inv_square(a, 6),
            clmul(inv_square(a, 5), inv_square(a, 5)),
            inv_acc(a, 1),
            clmul(1u8, inv_square(a, 0)),
            inv_acc(a, 2),
            clmul(inv_acc(a, 1), inv_square(a, 1)),
            inv_acc(a, 3),
            clmul(inv_acc(a, 2), inv_square(a, 2)),
            inv_acc(a, 4),
            clmul(inv_acc(a, 3), inv_square(a, 3)),
            inv_acc(a, 5),
            clmul(inv_acc(a, 4), inv_square(a, 4)),
            inv_acc(a, 6),
            clmul(inv_acc(a, 5), inv_square(a, 5)),
            inv_acc(a, 7),
            clmul(inv_acc(a, 6), inv_square(a, 6)),
        );
    }
}


/// Inversion is an involution: inverting a byte twice gives it back.
pub proof fn lemma_inverse_involution(a: u8)
    ensures
        gf_inv(gf_inv(a)) == a,
{
    if a != 0 {
        let b = inv_acc(a, 7);
        assert(inv_acc(a, 0) == 1);
        assert(inv_acc(b, 0) == 1);
        lemma_double_inverse_chain(
            a,
            inv_square(a, 0),
            clmul(a, a),
            inv_square(a, 1),
            clmul(inv_square(a, 0), inv_square(a, 0)),
            inv_square(a, 2),
            clmul(inv_square(a, 1), inv_square(a, 1)),
            inv_square(a, 3),
            clmul(inv_square(a, 2), inv_square(a, 2)),
            inv_square(a, 4),
            clmul(inv_square(a, 3), inv_square(a, 3)),
            inv_square(a, 5),
            clmul(inv_square(a, 4), inv_square(a, 4)),
            inv_square(a, 6),
            clmul(inv_square(a, 5), inv_square(a, 5)),
            inv_acc(a, 1),
            clmul(1u8, inv_square(a, 0)),
            inv_acc(a, 2),
            clmul(inv_acc(a, 1), inv_square(a, 1)),
            inv_acc(a, 3),
            clmul(inv_acc(a, 2), inv_square(a, 2)),
            inv_acc(a, 4),
            clmul(inv_acc(a, 3), inv_square(a, 3)),
            inv_acc(a, 5),
            clmul(inv_acc(a, 4), inv_square(a, 4)),
            inv_acc(a, 6),
            clmul(inv_acc(a, 5), inv_square(a, 5)),
            b,
            clmul(inv_acc(a, 6), inv_square(a, 6)),
            inv_square(b, 0),
            clmul(b, b),
            inv_square(b, 1),
            clmul(inv_square(b, 0), inv_square(b, 0)),
            inv_square(b, 2),
            clmul(inv_square(b, 1), inv_square(b, 1)),
            inv_square(b, 3),
            clmul(inv_square(b, 2), inv_square(b, 2)),
            inv_square(b, 4),
            clmul(inv_square(b, 3), inv_square(b, 3)),
            inv_square(b, 5),
            clmul(inv_square(b, 4), inv_square(b, 4)),
            inv_square(b, 6),
            clmul(inv_square(b, 5), inv_square(b, 5)),
            inv_acc(b, 1),
            clmul(1u8, inv_square(b, 0)),
            inv_acc(b, 2),
            clmul(inv_acc(b, 1), inv_square(b, 1)),
            inv_acc(b, 3),
            clmul(inv_acc(b, 2), inv_square(b, 2)),
            inv_acc(b, 4),
            clmul(inv_acc(b, 3), inv_square(b, 3)),
            inv_acc(b, 5),
            clmul(inv_acc(b, 4), inv_square(b, 4)),
            inv_acc(b, 6),
            clmul(inv_acc(b, 5), inv_square(b, 5)),
            inv_acc(b, 7),
            clmul(inv_acc(b, 6), inv_square(b, 6)),
        );
    }
}

} // verus!
