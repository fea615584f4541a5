//! The substitution box, the state transformations, the key schedule and the
//! round pipeline. A block is a 4x4 byte matrix indexed `[row][column]`;
//! column `c` is word `c`.
use vstd::prelude::*;
use crate::math_helper::{byte_multiply, gf_inv, gf_mul, inv_acc, inv_square, lemma_inverse_involution};

verus! {

/// Rows of the bit matrix of the forward affine map.
pub const AFFINE_ROWS: [u8; 8] = [0xF1, 0xE3, 0xC7, 0x8F, 0x1F, 0x3E, 0x7C, 0xF8];

/// Rows of the bit matrix of the inverse affine map.
pub const INV_AFFINE_ROWS: [u8; 8] = [0x52, 0x29, 0x94, 0x4A, 0x25, 0x92, 0x49, 0xA4];

/// Constant added by the forward affine map.
pub const AFFINE_CONST: u8 = 0x63;

/// XOR of the low `j` bits of `v`.
pub open spec fn parity_upto(v: u8, j: u8) -> u8
    decreases j,
{
    if j == 0 {
        0
    } else {
        parity_upto(v, (j - 1) as u8) ^ ((v >> ((j - 1) as u8)) & 1)
    }
}

/// Output position of row `i` of a bit matrix.
pub open spec fn bit_position(i: u8, reversed: bool) -> u8 {
    if reversed {
        (7 - i) as u8
    } else {
        i
    }
}

/// The first `n` output bits of the bit matrix `rows` applied to `x`: bit `i`
/// is the parity of `rows[i] & x`, written at position `i`, or `7 - i` when
/// `reversed`.
pub open spec fn bit_matrix(rows: Seq<u8>, x: u8, reversed: bool, n: u8) -> u8
    decreases n,
{
    if n == 0 {
        0
    } else {
        let i = (n - 1) as u8;
        bit_matrix(rows, x, reversed, i) ^ (parity_upto(rows[i as int] & x, 8) << bit_position(i, reversed))
    }
}

/// The forward affine map.
pub open spec fn affine(x: u8) -> u8 {
    bit_matrix(AFFINE_ROWS@, x, false, 8) ^ AFFINE_CONST
}

/// The inverse affine map.
pub open spec fn inverse_affine(x: u8) -> u8 {
    bit_matrix(INV_AFFINE_ROWS@, x ^ AFFINE_CONST, true, 8)
}

/// The forward substitution box.
pub open spec fn sbox(x: u8) -> u8 {
    affine(gf_inv(x))
}

/// The inverse substitution box.
pub open spec fn inv_sbox(x: u8) -> u8 {
    gf_inv(inverse_affine(x))
}

/// Row `i` of the forward bit matrix, or of the inverse one when `inverse`.
pub open spec fn affine_row(inverse: bool, i: u8) -> u8 {
    if !inverse {
        if i == 0 { 0xF1 } else if i == 1 { 0xE3 } else if i == 2 { 0xC7 } else if i == 3 { 0x8F }
        else if i == 4 { 0x1F } else if i == 5 { 0x3E } else if i == 6 { 0x7C } else { 0xF8 }
    } else {
        if i == 0 { 0x52 } else if i == 1 { 0x29 } else if i == 2 { 0x94 } else if i == 3 { 0x4A }
        else if i == 4 { 0x25 } else if i == 5 { 0x92 } else if i == 6 { 0x49 } else { 0xA4 }
    }
}

/// `bit_matrix` over the fixed rows of `affine_row`.
pub open spec fn fixed_bit_matrix(inverse: bool, x: u8, n: u8) -> u8
    decreases n,
{
    if n == 0 {
        0
    } else {
        let i = (n - 1) as u8;
        fixed_bit_matrix(inverse, x, i) ^ (parity_upto(affine_row(inverse, i) & x, 8) << bit_position(i, inverse))
    }
}

proof fn lemma_fixed_rows(rows: Seq<u8>, inverse: bool, x: u8, n: u8)
    requires
        n <= 8,
        rows.len() == 8,
        forall|i: int| 0 <= i < 8 ==> rows[i] == affine_row(inverse, i as u8),
    ensures
        bit_matrix(rows, x, inverse, n) == fixed_bit_matrix(inverse, x, n),
    decreases n,
{
    if n > 0 {
        lemma_fixed_rows(rows, inverse, x, (n - 1) as u8);
        assert(rows[(n - 1) as int] == affine_row(inverse, (n - 1) as u8));
    }
}

proof fn lemma_fixed_affine_inverse(y: u8, f: u8, g: u8)
    by (bit_vector)
    requires
        f == fixed_bit_matrix(false, y, 8) ^ 0x63u8,
        g == fixed_bit_matrix(true, f ^ 0x63u8, 8),
    ensures
        g == y,
{
}

/// The inverse affine map undoes the forward one.
pub proof fn lemma_affine_inverse(y: u8)
    ensures
        inverse_affine(affine(y)) == y,
{
    assert(AFFINE_ROWS@ =~= seq![0xF1u8, 0xE3, 0xC7, 0x8F, 0x1F, 0x3E, 0x7C, 0xF8]);
    assert(INV_AFFINE_ROWS@ =~= seq![0x52u8, 0x29, 0x94, 0x4A, 0x25, 0x92, 0x49, 0xA4]);
    lemma_fixed_rows(AFFINE_ROWS@, false, y, 8);
    let f = affine(y);
    lemma_fixed_rows(INV_AFFINE_ROWS@, true, f ^ AFFINE_CONST, 8);
    lemma_fixed_affine_inverse(y, f, inverse_affine(f));
}

/// The inverse substitution box undoes the forward one, for every byte.
pub proof fn lemma_sbox_inverse(x: u8)
    ensures
        inv_sbox(sbox(x)) == x,
{
    lemma_affine_inverse(gf_inv(x));
    lemma_inverse_involution(x);
}

/// Finds the inverse of a byte in GF(2^8) as a^254 by square and multiply; 0
/// is mapped to 0.
pub fn inv(byte: u8) -> (r: u8)
    ensures
        r == gf_inv(byte),
{
    if byte == 0 {
        return 0;
    }
    let mut res: u8 = 1;
    let mut cur: u8 = byte_multiply(&byte, &byte);
    let mut k: u16 = 0;
    while k < 7
        invariant
            k <= 7,
            res == inv_acc(byte, k),
            cur == inv_square(byte, k),
        decreases 7 - k,
    {
        res = byte_multiply(&res, &cur);
        cur = byte_multiply(&cur, &cur);
        k = k + 1;
    }
    res
}

proof fn lemma_parity_bit(p: u8, v: u8, j: u8)
    by (bit_vector)
    requires
        p <= 1,
    ensures
        p ^ ((v >> j) & 1) <= 1,
{
}

/// Applies the bit matrix `rows` to `x`: output bit `i` is the XOR over `j` of
/// bit `j` of `rows[i]` and bit `j` of `x`, written at position `i`, or at
/// `7 - i` when `reversed`.
pub fn apply_bit_matrix(rows: &[u8; 8], x: u8, reversed: bool) -> (r: u8)
    ensures
        r == bit_matrix(rows@, x, reversed, 8),
{
    let mut res: u8 = 0;
    let mut i: u8 = 0;
    while i < 8
        invariant
            i <= 8,
            res == bit_matrix(rows@, x, reversed, i),
        decreases 8 - i,
    {
        let v: u8 = rows[i as usize] & x;
        let mut bit: u8 = 0;
        let mut j: u8 = 0;
        while j < 8
            invariant
                j <= 8,
                bit <= 1,
                bit == parity_upto(v, j),
            decreases 8 - j,
        {
            proof {
                lemma_parity_bit(bit, v, j);
            }
            bit = bit ^ ((v >> j) & 1);
            j = j + 1;
        }
        let pos: u8 = if reversed { 7 - i } else { i };
        res = res ^ (bit << pos);
        i = i + 1;
    }
    res
}

/// Scales and shifts a byte with the affine map A(byte) + 0x63.
pub fn aff(byte: u8) -> (r: u8)
    ensures
        r == affine(byte),
{
    let rows: [u8; 8] = AFFINE_ROWS;
    apply_bit_matrix(&rows, byte, false) ^ AFFINE_CONST
}

/// Inverse of `aff`: removes 0x63, then applies the inverse bit matrix with
/// the output bit order reversed.
pub fn inv_aff(byte: u8) -> (r: u8)
    ensures
        r == inverse_affine(byte),
{
    let rows: [u8; 8] = INV_AFFINE_ROWS;
    apply_bit_matrix(&rows, byte ^ AFFINE_CONST, true)
}


/// A 4x4 byte matrix, indexed `[row][column]`.
pub type Block = [[u8; 4]; 4];

/// The mathematical view of a block: four rows of four bytes.
pub open spec fn grid(b: Block) -> Seq<Seq<u8>> {
    Seq::new(4, |i: int| b[i]@)
}

/// Every byte passed through the forward substitution box.
pub open spec fn sub_grid(g: Seq<Seq<u8>>) -> Seq<Seq<u8>> {
    Seq::new(4, |i: int| Seq::new(4, |j: int| sbox(g[i][j])))
}

/// Every byte passed through the inverse substitution box.
pub open spec fn inv_sub_grid(g: Seq<Seq<u8>>) -> Seq<Seq<u8>> {
    Seq::new(4, |i: int| Seq::new(4, |j: int| inv_sbox(g[i][j])))
}

/// Element-wise XOR of two matrices.
pub open spec fn add_grid(g: Seq<Seq<u8>>, k: Seq<Seq<u8>>) -> Seq<Seq<u8>> {
    Seq::new(4, |i: int| Seq::new(4, |j: int| g[i][j] ^ k[i][j]))
}

/// Row `i` rotated left by `i` positions.
pub open spec fn shift_grid(g: Seq<Seq<u8>>) -> Seq<Seq<u8>> {
    Seq::new(4, |i: int| Seq::new(4, |j: int| g[i][(j + i) % 4]))
}

/// Row `i` rotated right by `i` positions.
pub open spec fn inv_shift_grid(g: Seq<Seq<u8>>) -> Seq<Seq<u8>> {
    Seq::new(4, |i: int| Seq::new(4, |j: int| g[i][(j + 4 - i) % 4]))
}

/// Entry `(i, k)` of the column-mixing matrix: row `i` is the base row
/// `[02, 03, 01, 01]` (or `[0E, 0B, 0D, 09]` when `inverse`) rotated right by `i`.
pub open spec fn mix_coef(inverse: bool, i: int, k: int) -> u8 {
    let d = (k - i + 4) % 4;
    if !inverse {
        if d == 0 { 2 } else if d == 1 { 3 } else { 1 }
    } else {
        if d == 0 { 0x0E } else if d == 1 { 0x0B } else if d == 2 { 0x0D } else { 0x09 }
    }
}

/// Entry `(i, j)` of the product of a coefficient matrix with `g` in GF(2^8).
pub open spec fn mix_entry(m: Seq<Seq<u8>>, g: Seq<Seq<u8>>, i: int, j: int) -> u8 {
    gf_mul(m[i][0], g[0][j]) ^ gf_mul(m[i][1], g[1][j]) ^ gf_mul(m[i][2], g[2][j]) ^ gf_mul(m[i][3], g[3][j])
}

/// The forward (or, when `inverse`, the inverse) column-mixing matrix.
pub open spec fn mix_matrix(inverse: bool) -> Seq<Seq<u8>> {
    Seq::new(4, |i: int| Seq::new(4, |k: int| mix_coef(inverse, i, k)))
}

/// Each column replaced by its product with the forward mixing matrix.
pub open spec fn mix_grid(g: Seq<Seq<u8>>) -> Seq<Seq<u8>> {
    Seq::new(4, |i: int| Seq::new(4, |j: int| mix_entry(mix_matrix(false), g, i, j)))
}

/// Each column replaced by its product with the inverse mixing matrix.
pub open spec fn inv_mix_grid(g: Seq<Seq<u8>>) -> Seq<Seq<u8>> {
    Seq::new(4, |i: int| Seq::new(4, |j: int| mix_entry(mix_matrix(true), g, i, j)))
}

/// Replaces all the bytes of the state through the forward substitution box.
pub fn sub_bytes(state: &mut Block)
    ensures
        grid(*final(state)) == sub_grid(grid(*old(state))),
{
    let ghost s0 = *state;
    let mut i: usize = 0;
    while i < 4
        invariant
            i <= 4,
            forall|a: int, b: int| 0 <= a < i && 0 <= b < 4 ==> state[a][b] == sbox(s0[a][b]),
            forall|a: int| i <= a < 4 ==> state[a] == s0[a],
        decreases 4 - i,
    {
        let mut row: [u8; 4] = state[i];
        let mut j: usize = 0;
        while j < 4
            invariant
                i < 4,
                j <= 4,
                forall|b: int| 0 <= b < j ==> row[b] == sbox(s0[i as int][b]),
                forall|b: int| j <= b < 4 ==> row[b] == s0[i as int][b],
            decreases 4 - j,
        {
            row[j] = aff(inv(row[j]));
            j = j + 1;
        }
        state[i] = row;
        i = i + 1;
    }
    assert(grid(*state) =~~= sub_grid(grid(s0)));
}

/// Inverse of `sub_bytes`: every byte through the inverse substitution box.
pub fn inv_sub_bytes(state: &mut Block)
    ensures
        grid(*final(state)) == inv_sub_grid(grid(*old(state))),
{
    let ghost s0 = *state;
    let mut i: usize = 0;
    while i < 4
        invariant
            i <= 4,
            forall|a: int, b: int| 0 <= a < i && 0 <= b < 4 ==> state[a][b] == inv_sbox(s0[a][b]),
            forall|a: int| i <= a < 4 ==> state[a] == s0[a],
        decreases 4 - i,
    {
        let mut row: [u8; 4] = state[i];
        let mut j: usize = 0;
        while j < 4
            invariant
                i < 4,
                j <= 4,
                forall|b: int| 0 <= b < j ==> row[b] == inv_sbox(s0[i as int][b]),
                forall|b: int| j <= b < 4 ==> row[b] == s0[i as int][b],
            decreases 4 - j,
        {
            row[j] = inv(inv_aff(row[j]));
            j = j + 1;
        }
        state[i] = row;
        i = i + 1;
    }
    assert(grid(*state) =~~= inv_sub_grid(grid(s0)));
}

/// Combines a round key with the state by element-wise XOR.
pub fn add_round_key(state: &mut Block, key: Block)
    ensures
        grid(*final(state)) == add_grid(grid(*old(state)), grid(key)),
{
    let ghost s0 = *state;
    let mut i: usize = 0;
    while i < 4
        invariant
            i <= 4,
            forall|a: int, b: int| 0 <= a < i && 0 <= b < 4 ==> state[a][b] == s0[a][b] ^ key[a][b],
            forall|a: int| i <= a < 4 ==> state[a] == s0[a],
        decreases 4 - i,
    {
        let mut row: [u8; 4] = state[i];
        let mut j: usize = 0;
        while j < 4
            invariant
                i < 4,
                j <= 4,
                forall|b: int| 0 <= b < j ==> row[b] == s0[i as int][b] ^ key[i as int][b],
                forall|b: int| j <= b < 4 ==> row[b] == s0[i as int][b],
            decreases 4 - j,
        {
            row[j] = row[j] ^ key[i][j];
            j = j + 1;
        }
        state[i] = row;
        i = i + 1;
    }
    assert(grid(*state) =~~= add_grid(grid(s0), grid(key)));
}

/// Rotates row `i` of the state left by `i` positions.
pub fn shift_rows(state: &mut Block)
    ensures
        grid(*final(state)) == shift_grid(grid(*old(state))),
{
    let ghost s0 = *state;
    let mut i: usize = 0;
    while i < 4
        invariant
            i <= 4,
            forall|a: int, b: int| 0 <= a < i && 0 <= b < 4 ==> state[a][b] == s0[a][(b + a) % 4],
            forall|a: int| i <= a < 4 ==> state[a] == s0[a],
        decreases 4 - i,
    {
        let old_row: [u8; 4] = state[i];
        let mut row: [u8; 4] = [0; 4];
        let mut j: usize = 0;
        while j < 4
            invariant
                i < 4,
                j <= 4,
                old_row == s0[i as int],
                forall|b: int| 0 <= b < j ==> row[b] == s0[i as int][(b + i) % 4],
            decreases 4 - j,
        {
            row[j] = old_row[(j + i) % 4];
            j = j + 1;
        }
        state[i] = row;
        i = i + 1;
    }
    assert(grid(*state) =~~= shift_grid(grid(s0)));
}

/// Inverse of `shift_rows`: rotates row `i` right by `i` positions.
pub fn inv_shift_rows(state: &mut Block)
    ensures
        grid(*final(state)) == inv_shift_grid(grid(*old(state))),
{
    let ghost s0 = *state;
    let mut i: usize = 0;
    while i < 4
        invariant
            i <= 4,
            forall|a: int, b: int| 0 <= a < i && 0 <= b < 4 ==> state[a][b] == s0[a][(b + 4 - a) % 4],
            forall|a: int| i <= a < 4 ==> state[a] == s0[a],
        decreases 4 - i,
    {
        let old_row: [u8; 4] = state[i];
        let mut row: [u8; 4] = [0; 4];
        let mut j: usize = 0;
        while j < 4
            invariant
                i < 4,
                j <= 4,
                old_row == s0[i as int],
                forall|b: int| 0 <= b < j ==> row[b] == s0[i as int][(b + 4 - i) % 4],
            decreases 4 - j,
        {
            row[j] = old_row[(j + 4 - i) % 4];
            j = j + 1;
        }
        state[i] = row;
        i = i + 1;
    }
    assert(grid(*state) =~~= inv_shift_grid(grid(s0)));
}


/// The product of the coefficient matrix `m` with `s` in GF(2^8).
pub open spec fn gf_product_grid(m: Seq<Seq<u8>>, s: Seq<Seq<u8>>) -> Seq<Seq<u8>> {
    Seq::new(4, |i: int| Seq::new(4, |j: int| mix_entry(m, s, i, j)))
}

/// Multiplies the coefficient matrix `m` with `s` in GF(2^8): each output
/// byte is the XOR of four field products.
fn gf_matrix_product(m: &Block, s: &Block) -> (r: Block)
    ensures
        grid(r) == gf_product_grid(grid(*m), grid(*s)),
{
    let mut res: Block = [[0; 4]; 4];
    let mut i: usize = 0;
    while i < 4
        invariant
            i <= 4,
            forall|a: int, b: int| 0 <= a < i && 0 <= b < 4 ==> res[a][b] == mix_entry(grid(*m), grid(*s), a, b),
        decreases 4 - i,
    {
        let mut row: [u8; 4] = [0; 4];
        let mut j: usize = 0;
        while j < 4
            invariant
                i < 4,
                j <= 4,
                forall|b: int| 0 <= b < j ==> row[b] == mix_entry(grid(*m), grid(*s), i as int, b),
            decreases 4 - j,
        {
            row[j] = byte_multiply(&m[i][0], &s[0][j]) ^ byte_multiply(&m[i][1], &s[1][j])
                ^ byte_multiply(&m[i][2], &s[2][j]) ^ byte_multiply(&m[i][3], &s[3][j]);
            j = j + 1;
        }
        res[i] = row;
        i = i + 1;
    }
    assert(grid(res) =~~= gf_product_grid(grid(*m), grid(*s)));
    res
}

/// Replaces each column by its product with the matrix whose rows are the
/// rotations of `[02, 03, 01, 01]`.
pub fn mix_columns(state: &mut Block)
    ensures
        grid(*final(state)) == mix_grid(grid(*old(state))),
{
    let m: Block = [[2, 3, 1, 1], [1, 2, 3, 1], [1, 1, 2, 3], [3, 1, 1, 2]];
    assert(grid(m) =~~= mix_matrix(false));
    let r = gf_matrix_product(&m, state);
    assert(grid(r) =~~= mix_grid(grid(*state)));
    *state = r;
}

/// Inverse of `mix_columns`: the rows of the matrix are the rotations of
/// `[0E, 0B, 0D, 09]`.
pub fn inv_mix_columns(state: &mut Block)
    ensures
        grid(*final(state)) == inv_mix_grid(grid(*old(state))),
{
    let m: Block = [[0x0E, 0x0B, 0x0D, 0x09], [0x09, 0x0E, 0x0B, 0x0D], [0x0D, 0x09, 0x0E, 0x0B], [0x0B, 0x0D, 0x09, 0x0E]];
    assert(grid(m) =~~= mix_matrix(true));
    let r = gf_matrix_product(&m, state);
    assert(grid(r) =~~= inv_mix_grid(grid(*state)));
    *state = r;
}


/// The round constant of round `r`: 1 for round 1, then doubled in GF(2^8).
pub open spec fn rcon(r: int) -> u8
    decreases r,
{
    if r <= 1 {
        1
    } else {
        gf_mul(2, rcon(r - 1))
    }
}

/// Byte `i` of word `c` of the round key that follows `p` in round `rnd`.
pub open spec fn key_byte(p: Seq<Seq<u8>>, rnd: int, i: int, c: int) -> u8
    decreases c,
{
    if c <= 0 {
        p[i][0] ^ ((if i == 0 { rcon(rnd) } else { 0u8 }) ^ sbox(p[(i + 1) % 4][3]))
    } else {
        key_byte(p, rnd, i, c - 1) ^ p[i][c]
    }
}

/// The round key of round `rnd`, derived from the round key `p` before it.
pub open spec fn next_key(p: Seq<Seq<u8>>, rnd: int) -> Seq<Seq<u8>> {
    Seq::new(4, |i: int| Seq::new(4, |c: int| key_byte(p, rnd, i, c)))
}

/// Round key `r` of the schedule of `key`; round key 0 is the key itself.
pub open spec fn schedule_key(key: Seq<Seq<u8>>, r: int) -> Seq<Seq<u8>>
    decreases r,
{
    if r <= 0 {
        key
    } else {
        next_key(schedule_key(key, r - 1), r)
    }
}

/// The state of encryption after the initial key addition and rounds 1 to `r`.
pub open spec fn enc_after(m: Seq<Seq<u8>>, key: Seq<Seq<u8>>, r: int) -> Seq<Seq<u8>>
    decreases r,
{
    if r <= 0 {
        add_grid(m, key)
    } else {
        let s = shift_grid(sub_grid(enc_after(m, key, r - 1)));
        add_grid(if r == 10 { s } else { mix_grid(s) }, schedule_key(key, r))
    }
}

/// Encryption of block `m` under `key`.
pub open spec fn encrypt_grid(m: Seq<Seq<u8>>, key: Seq<Seq<u8>>) -> Seq<Seq<u8>> {
    enc_after(m, key, 10)
}

/// The state of decryption after the key addition of round 10 and the
/// inverse rounds 9 down to `r`.
pub open spec fn dec_after(c: Seq<Seq<u8>>, key: Seq<Seq<u8>>, r: int) -> Seq<Seq<u8>>
    decreases 10 - r,
{
    if r >= 10 {
        add_grid(c, schedule_key(key, 10))
    } else {
        let s = add_grid(inv_shift_grid(inv_sub_grid(dec_after(c, key, r + 1))), schedule_key(key, r));
        if r != 0 {
            inv_mix_grid(s)
        } else {
            s
        }
    }
}

/// Decryption of block `c` under `key`.
pub open spec fn decrypt_grid(c: Seq<Seq<u8>>, key: Seq<Seq<u8>>) -> Seq<Seq<u8>> {
    dec_after(c, key, 0)
}

/// Column `col` of the state as a word.
pub fn get_column_as_array(state: &Block, col: usize) -> (r: [u8; 4])
    requires
        col < 4,
    ensures
        forall|i: int| 0 <= i < 4 ==> r[i] == state[i][col as int],
{
    let mut res: [u8; 4] = [0; 4];
    let mut i: usize = 0;
    while i < 4
        invariant
            i <= 4,
            col < 4,
            forall|a: int| 0 <= a < i ==> res[a] == state[a][col as int],
        decreases 4 - i,
    {
        res[i] = state[i][col];
        i = i + 1;
    }
    res
}

/// Adds (XOR) two words.
pub fn word_add(w1: &[u8; 4], w2: &[u8; 4]) -> (r: [u8; 4])
    ensures
        forall|i: int| 0 <= i < 4 ==> r[i] == w1[i] ^ w2[i],
{
    let mut res: [u8; 4] = [0; 4];
    let mut i: usize = 0;
    while i < 4
        invariant
            i <= 4,
            forall|a: int| 0 <= a < i ==> res[a] == w1[a] ^ w2[a],
        decreases 4 - i,
    {
        res[i] = w1[i] ^ w2[i];
        i = i + 1;
    }
    res
}

/// Rotates a word left by one position.
pub fn cycle(word: &[u8; 4]) -> (r: [u8; 4])
    ensures
        forall|i: int| 0 <= i < 4 ==> r[i] == word[(i + 1) % 4],
{
    let mut res: [u8; 4] = [0; 4];
    res[0] = word[1];
    res[1] = word[2];
    res[2] = word[3];
    res[3] = word[0];
    res
}

/// Passes each byte of a word through the forward substitution box.
pub fn sub_word(word: &[u8; 4]) -> (r: [u8; 4])
    ensures
        forall|i: int| 0 <= i < 4 ==> r[i] == sbox(word[i]),
{
    let mut res: [u8; 4] = [0; 4];
    let mut i: usize = 0;
    while i < 4
        invariant
            i <= 4,
            forall|a: int| 0 <= a < i ==> res[a] == sbox(word[a]),
        decreases 4 - i,
    {
        res[i] = aff(inv(word[i]));
        i = i + 1;
    }
    res
}

/// The round constant of round `i`.
pub fn rc(i: usize) -> (r: u8)
    requires
        i >= 1,
    ensures
        r == rcon(i as int),
{
    let mut res: u8 = 1;
    let mut k: usize = 1;
    while k < i
        invariant
            1 <= k <= i,
            res == rcon(k as int),
        decreases i - k,
    {
        res = byte_multiply(&2, &res);
        k = k + 1;
    }
    res
}

/// Fills round keys `cur` to 10 of the schedule, each from the one before it,
/// and returns the schedule.
pub fn key_schedule_helper(schedule: &mut [Block; 11], cur: usize) -> (r: [Block; 11])
    requires
        cur >= 1,
    ensures
        r == *final(schedule),
        forall|k: int| 0 <= k < cur && k <= 10 ==> final(schedule)[k] == old(schedule)[k],
        forall|k: int| cur <= k <= 10 ==> grid(#[trigger] final(schedule)[k]) == next_key(grid(final(schedule)[k - 1]), k),
{
    let ghost s0 = *schedule;
    let mut rnd: usize = cur;
    while rnd < 11
        invariant
            cur >= 1,
            cur <= rnd,
            rnd >= 1,
            forall|k: int| 0 <= k < cur && k <= 10 ==> schedule[k] == s0[k],
            forall|k: int| rnd <= k <= 10 ==> schedule[k] == s0[k],
            forall|k: int| cur <= k < rnd && k <= 10 ==> grid(#[trigger] schedule[k]) == next_key(grid(schedule[k - 1]), k),
        decreases 11 - rnd,
    {
        let prev_key: Block = schedule[rnd - 1];
        let w0: [u8; 4] = get_column_as_array(&prev_key, 0);
        let w1: [u8; 4] = get_column_as_array(&prev_key, 1);
        let w2: [u8; 4] = get_column_as_array(&prev_key, 2);
        let w3: [u8; 4] = get_column_as_array(&prev_key, 3);
        let mut rc_word: [u8; 4] = [0; 4];
        rc_word[0] = rc(rnd);
        let w4: [u8; 4] = word_add(&w0, &word_add(&rc_word, &sub_word(&cycle(&w3))));
        let w5: [u8; 4] = word_add(&w4, &w1);
        let w6: [u8; 4] = word_add(&w5, &w2);
        let w7: [u8; 4] = word_add(&w6, &w3);
        let mut cur_key: Block = [[0; 4]; 4];
        let mut i: usize = 0;
        while i < 4
            invariant
                i <= 4,
                forall|a: int| 0 <= a < i ==> cur_key[a]@ == seq![w4[a], w5[a], w6[a], w7[a]],
            decreases 4 - i,
        {
            cur_key[i] = [w4[i], w5[i], w6[i], w7[i]];
            i = i + 1;
        }
        proof {
            let p = grid(prev_key);
            assert forall|a: int, c: int| 0 <= a < 4 && 0 <= c < 4 implies cur_key[a][c] == key_byte(p, rnd as int, a, c) by {
                assert(rc_word[a] == (if a == 0 { rcon(rnd as int) } else { 0u8 }));
                assert(cur_key[a]@[c] == cur_key[a][c]);
                reveal_with_fuel(key_byte, 4);
            }
            assert(grid(cur_key) =~~= next_key(p, rnd as int));
        }
        schedule[rnd] = cur_key;
        rnd = rnd + 1;
    }
    *schedule
}

/// A chain of round keys that starts at `key`, each derived from the one
/// before it, is the schedule of `key`.
proof fn lemma_chain_is_schedule(s: [Block; 11], key: Block, n: int)
    requires
        0 <= n <= 10,
        s[0] == key,
        forall|j: int| 1 <= j <= 10 ==> grid(#[trigger] s[j]) == next_key(grid(s[j - 1]), j),
    ensures
        forall|j: int| 0 <= j <= n ==> grid(#[trigger] s[j]) == schedule_key(grid(key), j),
    decreases n,
{
    if n > 0 {
        lemma_chain_is_schedule(s, key, n - 1);
        assert(grid(s[n]) == next_key(grid(s[n - 1]), n));
    }
}

/// Expands a key into the eleven round keys; round key 0 is the key itself.
pub fn key_schedule(key: Block) -> (r: [Block; 11])
    ensures
        r[0] == key,
        forall|k: int| 0 <= k <= 10 ==> grid(#[trigger] r[k]) == schedule_key(grid(key), k),
{
    let mut schedule: [Block; 11] = [[[0; 4]; 4]; 11];
    schedule[0] = key;
    let r = key_schedule_helper(&mut schedule, 1);
    proof {
        lemma_chain_is_schedule(r, key, 10);
    }
    r
}


/// Encrypts a message block under a key with ten rounds.
#[allow(non_snake_case)]
pub fn AES_encrypt(message: Block, key: Block) -> (r: Block)
    ensures
        grid(r) == encrypt_grid(grid(message), grid(key)),
{
    let schedule = key_schedule(key);
    let mut state: Block = message;
    add_round_key(&mut state, schedule[0]);
    let mut r: usize = 1;
    while r <= 10
        invariant
            1 <= r <= 11,
            forall|k: int| 0 <= k <= 10 ==> grid(#[trigger] schedule[k]) == schedule_key(grid(key), k),
            grid(state) == enc_after(grid(message), grid(key), r - 1),
        decreases 11 - r,
    {
        sub_bytes(&mut state);
        shift_rows(&mut state);
        if r != 10 {
            mix_columns(&mut state);
        }
        add_round_key(&mut state, schedule[r]);
        r = r + 1;
    }
    state
}

/// Decrypts a ciphertext block under a key: the mirror of `AES_encrypt`.
#[allow(non_snake_case)]
pub fn AES_decrypt(ciphertext: Block, key: Block) -> (r: Block)
    ensures
        grid(r) == decrypt_grid(grid(ciphertext), grid(key)),
{
    let schedule = key_schedule(key);
    let mut state: Block = ciphertext;
    add_round_key(&mut state, schedule[10]);
    let mut r: usize = 10;
    while r > 0
        invariant
            r <= 10,
            forall|k: int| 0 <= k <= 10 ==> grid(#[trigger] schedule[k]) == schedule_key(grid(key), k),
            grid(state) == dec_after(grid(ciphertext), grid(key), r as int),
        decreases r,
    {
        r = r - 1;
        inv_sub_bytes(&mut state);
        inv_shift_rows(&mut state);
        add_round_key(&mut state, schedule[r]);
        if r != 0 {
            inv_mix_columns(&mut state);
        }
    }
    state
}

/// The all-zero block.
pub open spec fn zero_grid() -> Seq<Seq<u8>> {
    Seq::new(4, |i: int| Seq::new(4, |j: int| 0u8))
}

/// The sample encryption: the all-zero block under the all-zero key.
#[allow(non_snake_case)]
pub fn AES_main() -> (r: Block)
    ensures
        grid(r) == encrypt_grid(zero_grid(), zero_grid()),
{
    let zero: Block = [[0; 4]; 4];
    assert(grid(zero) =~~= zero_grid());
    AES_encrypt(zero, zero)
}


/// The key schedule is a function of the key alone: any two schedules that
/// start at the same key and derive each round key from the one before it as
/// `key_schedule` does are identical, and round key 0 is the key.
pub proof fn lemma_schedule_deterministic(key: Block, s1: [Block; 11], s2: [Block; 11])
    requires
        forall|k: int| 0 <= k <= 10 ==> grid(#[trigger] s1[k]) == schedule_key(grid(key), k),
        forall|k: int| 0 <= k <= 10 ==> grid(#[trigger] s2[k]) == schedule_key(grid(key), k),
    ensures
        s1 == s2,
        s1[0] == key,
{
    assert forall|k: int| 0 <= k <= 10 implies s1[k] == s2[k] by {
        lemma_grid_injective(s1[k], s2[k]);
    }
    assert(s1 =~= s2);
    lemma_grid_injective(s1[0], key);
}

/// Two blocks with the same view are the same block.
pub proof fn lemma_grid_injective(a: Block, b: Block)
    requires
        grid(a) == grid(b),
    ensures
        a == b,
{
    assert forall|i: int| 0 <= i < 4 implies a[i] == b[i] by {
        assert(grid(a)[i] == grid(b)[i]);
        assert(a[i] =~= b[i]);
    }
    assert(a =~= b);
}



/// Multiplication by x in GF(2^8): a left shift, with 0x1B added where the
/// top bit falls out.
pub open spec fn xtime(x: u8) -> u8 {
    ((x as u16) << 1) as u8 ^ ((x >> 7) * 0x1Bu8) as u8
}

/// Product with one of the constants of the mixing matrices, by doublings.
pub open spec fn times(k: u8, x: u8) -> u8 {
    let x2 = xtime(x);
    let x4 = xtime(x2);
    let x8 = xtime(x4);
    if k == 1 {
        x
    } else if k == 2 {
        x2
    } else if k == 3 {
        x2 ^ x
    } else if k == 0x09 {
        x8 ^ x
    } else if k == 0x0B {
        x8 ^ x2 ^ x
    } else if k == 0x0D {
        x8 ^ x4 ^ x
    } else {
        x8 ^ x4 ^ x2
    }
}

proof fn lemma_mul_by_constants(x: u8)
    by (bit_vector)
    ensures
        gf_mul(1, x) == times(1, x),
        gf_mul(2, x) == times(2, x),
        gf_mul(3, x) == times(3, x),
        gf_mul(0x09, x) == times(0x09, x),
        gf_mul(0x0B, x) == times(0x0B, x),
        gf_mul(0x0D, x) == times(0x0D, x),
        gf_mul(0x0E, x) == times(0x0E, x),
{
}

#[verifier::rlimit(100)]
proof fn lemma_column_bits(c0: u8, c1: u8, c2: u8, c3: u8, m0: u8, m1: u8, m2: u8, m3: u8)
    by (bit_vector)
    requires
        m0 == ((times(0x02, c0) ^ times(0x03, c1)) ^ times(0x01, c2)) ^ times(0x01, c3),
        m1 == ((times(0x01, c0) ^ times(0x02, c1)) ^ times(0x03, c2)) ^ times(0x01, c3),
        m2 == ((times(0x01, c0) ^ times(0x01, c1)) ^ times(0x02, c2)) ^ times(0x03, c3),
        m3 == ((times(0x03, c0) ^ times(0x01, c1)) ^ times(0x01, c2)) ^ times(0x02, c3),
    ensures
        ((times(0x0E, m0) ^ times(0x0B, m1)) ^ times(0x0D, m2)) ^ times(0x09, m3) == c0,
        ((times(0x09, m0) ^ times(0x0E, m1)) ^ times(0x0B, m2)) ^ times(0x0D, m3) == c1,
        ((times(0x0D, m0) ^ times(0x09, m1)) ^ times(0x0E, m2)) ^ times(0x0B, m3) == c2,
        ((times(0x0B, m0) ^ times(0x0D, m1)) ^ times(0x09, m2)) ^ times(0x0E, m3) == c3,
{
}

/// The inverse mixing matrix undoes the forward one on a column.
proof fn lemma_column(c0: u8, c1: u8, c2: u8, c3: u8)
    ensures
        ({
            let m0 = ((gf_mul(0x02, c0) ^ gf_mul(0x03, c1)) ^ gf_mul(0x01, c2)) ^ gf_mul(0x01, c3);
            let m1 = ((gf_mul(0x01, c0) ^ gf_mul(0x02, c1)) ^ gf_mul(0x03, c2)) ^ gf_mul(0x01, c3);
            let m2 = ((gf_mul(0x01, c0) ^ gf_mul(0x01, c1)) ^ gf_mul(0x02, c2)) ^ gf_mul(0x03, c3);
            let m3 = ((gf_mul(0x03, c0) ^ gf_mul(0x01, c1)) ^ gf_mul(0x01, c2)) ^ gf_mul(0x02, c3);
            ((gf_mul(0x0E, m0) ^ gf_mul(0x0B, m1)) ^ gf_mul(0x0D, m2)) ^ gf_mul(0x09, m3) == c0 &&
            ((gf_mul(0x09, m0) ^ gf_mul(0x0E, m1)) ^ gf_mul(0x0B, m2)) ^ gf_mul(0x0D, m3) == c1 &&
            ((gf_mul(0x0D, m0) ^ gf_mul(0x09, m1)) ^ gf_mul(0x0E, m2)) ^ gf_mul(0x0B, m3) == c2 &&
            ((gf_mul(0x0B, m0) ^ gf_mul(0x0D, m1)) ^ gf_mul(0x09, m2)) ^ gf_mul(0x0E, m3) == c3
        }),
{
    lemma_mul_by_constants(c0);
    lemma_mul_by_constants(c1);
    lemma_mul_by_constants(c2);
    lemma_mul_by_constants(c3);
    let m0 = ((gf_mul(0x02, c0) ^ gf_mul(0x03, c1)) ^ gf_mul(0x01, c2)) ^ gf_mul(0x01, c3);
    let m1 = ((gf_mul(0x01, c0) ^ gf_mul(0x02, c1)) ^ gf_mul(0x03, c2)) ^ gf_mul(0x01, c3);
    let m2 = ((gf_mul(0x01, c0) ^ gf_mul(0x01, c1)) ^ gf_mul(0x02, c2)) ^ gf_mul(0x03, c3);
    let m3 = ((gf_mul(0x03, c0) ^ gf_mul(0x01, c1)) ^ gf_mul(0x01, c2)) ^ gf_mul(0x02, c3);
    lemma_mul_by_constants(m0);
    lemma_mul_by_constants(m1);
    lemma_mul_by_constants(m2);
    lemma_mul_by_constants(m3);
    lemma_column_bits(c0, c1, c2, c3, m0, m1, m2, m3);
}

/// A 4x4 matrix of bytes.
pub open spec fn is_grid(g: Seq<Seq<u8>>) -> bool {
    g.len() == 4 && forall|i: int| 0 <= i < 4 ==> (#[trigger] g[i]).len() == 4
}

/// Inverse column mixing undoes column mixing.
pub proof fn lemma_mix_inverse(g: Seq<Seq<u8>>)
    requires
        is_grid(g),
    ensures
        inv_mix_grid(mix_grid(g)) == g,
{
    let h = mix_grid(g);
    let f = mix_matrix(false);
    let e = mix_matrix(true);
    assert(f[0][0] == 0x02 && e[0][0] == 0x0E);
    assert(f[0][1] == 0x03 && e[0][1] == 0x0B);
    assert(f[0][2] == 0x01 && e[0][2] == 0x0D);
    assert(f[0][3] == 0x01 && e[0][3] == 0x09);
    assert(f[1][0] == 0x01 && e[1][0] == 0x09);
    assert(f[1][1] == 0x02 && e[1][1] == 0x0E);
    assert(f[1][2] == 0x03 && e[1][2] == 0x0B);
    assert(f[1][3] == 0x01 && e[1][3] == 0x0D);
    assert(f[2][0] == 0x01 && e[2][0] == 0x0D);
    assert(f[2][1] == 0x01 && e[2][1] == 0x09);
    assert(f[2][2] == 0x02 && e[2][2] == 0x0E);
    assert(f[2][3] == 0x03 && e[2][3] == 0x0B);
    assert(f[3][0] == 0x03 && e[3][0] == 0x0B);
    assert(f[3][1] == 0x01 && e[3][1] == 0x0D);
    assert(f[3][2] == 0x01 && e[3][2] == 0x09);
    assert(f[3][3] == 0x02 && e[3][3] == 0x0E);
    assert forall|i: int, j: int| 0 <= i < 4 && 0 <= j < 4 implies #[trigger] inv_mix_grid(h)[i][j] == g[i][j] by {
        lemma_column(g[0][j], g[1][j], g[2][j], g[3][j]);
        assert(h[0][j] == mix_entry(f, g, 0, j));
        assert(h[1][j] == mix_entry(f, g, 1, j));
        assert(h[2][j] == mix_entry(f, g, 2, j));
        assert(h[3][j] == mix_entry(f, g, 3, j));
        assert(inv_mix_grid(h)[i][j] == mix_entry(e, h, i, j));
    }
    assert(inv_mix_grid(h) =~~= g);
}


proof fn lemma_xor_twice(x: u8, k: u8)
    by (bit_vector)
    ensures
        (x ^ k) ^ k == x,
{
}

/// Adding a round key twice restores the state.
pub proof fn lemma_add_twice(g: Seq<Seq<u8>>, k: Seq<Seq<u8>>)
    requires
        is_grid(g),
    ensures
        add_grid(add_grid(g, k), k) == g,
{
    assert forall|i: int, j: int| 0 <= i < 4 && 0 <= j < 4 implies #[trigger] add_grid(add_grid(g, k), k)[i][j] == g[i][j] by {
        lemma_xor_twice(g[i][j], k[i][j]);
    }
    assert(add_grid(add_grid(g, k), k) =~~= g);
}

/// Rotating each row right undoes rotating it left.
pub proof fn lemma_shift_inverse(g: Seq<Seq<u8>>)
    requires
        is_grid(g),
    ensures
        inv_shift_grid(shift_grid(g)) == g,
{
    assert forall|i: int, j: int| 0 <= i < 4 && 0 <= j < 4 implies #[trigger] inv_shift_grid(shift_grid(g))[i][j] == g[i][j] by {
        let jj = (j + 4 - i) % 4;
        assert((jj + i) % 4 == j);
    }
    assert(inv_shift_grid(shift_grid(g)) =~~= g);
}

/// The inverse substitution of every byte undoes the forward one.
pub proof fn lemma_sub_inverse(g: Seq<Seq<u8>>)
    requires
        is_grid(g),
    ensures
        inv_sub_grid(sub_grid(g)) == g,
{
    assert forall|i: int, j: int| 0 <= i < 4 && 0 <= j < 4 implies #[trigger] inv_sub_grid(sub_grid(g))[i][j] == g[i][j] by {
        lemma_sbox_inverse(g[i][j]);
    }
    assert(inv_sub_grid(sub_grid(g)) =~~= g);
}

proof fn lemma_inv_sub_shift(g: Seq<Seq<u8>>)
    requires
        is_grid(g),
    ensures
        inv_sub_grid(shift_grid(g)) == shift_grid(inv_sub_grid(g)),
{
    assert(inv_sub_grid(shift_grid(g)) =~~= shift_grid(inv_sub_grid(g)));
}

/// Decryption from round `r` on, applied to a ciphertext, reaches the state
/// that encryption had before the substitution of round `r`.
proof fn lemma_decrypt_rounds(m: Seq<Seq<u8>>, key: Seq<Seq<u8>>, r: int)
    requires
        is_grid(m),
        is_grid(key),
        0 <= r <= 10,
    ensures
        r >= 1 ==> dec_after(encrypt_grid(m, key), key, r) == shift_grid(sub_grid(enc_after(m, key, r - 1))),
        r == 0 ==> dec_after(encrypt_grid(m, key), key, r) == m,
    decreases 10 - r,
{
    let c = encrypt_grid(m, key);
    if r == 10 {
        lemma_add_twice(shift_grid(sub_grid(enc_after(m, key, 9))), schedule_key(key, 10));
    } else {
        lemma_decrypt_rounds(m, key, r + 1);
        let e = enc_after(m, key, r);
        lemma_inv_sub_shift(sub_grid(e));
        lemma_sub_inverse(e);
        lemma_shift_inverse(inv_sub_grid(sub_grid(e)));
        assert(inv_shift_grid(inv_sub_grid(dec_after(c, key, r + 1))) == e);
        if r == 0 {
            assert(schedule_key(key, 0) == key);
            lemma_add_twice(m, key);
        } else {
            let s = shift_grid(sub_grid(enc_after(m, key, r - 1)));
            lemma_add_twice(mix_grid(s), schedule_key(key, r));
            lemma_mix_inverse(s);
        }
    }
}

/// Decryption undoes encryption: for every message block and key, decrypting
/// the ciphertext under the same key gives back the message.
pub proof fn lemma_round_trip(message: Block, key: Block)
    ensures
        decrypt_grid(encrypt_grid(grid(message), grid(key)), grid(key)) == grid(message),
{
    lemma_decrypt_rounds(grid(message), grid(key), 0);
}

} // verus!
