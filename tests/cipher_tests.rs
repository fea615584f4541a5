use aes_cipher::ciphers::{
    add_round_key, aff, cycle, get_column_as_array, inv, inv_aff, inv_mix_columns, inv_shift_rows,
    inv_sub_bytes, key_schedule, mix_columns, rc, shift_rows, sub_bytes, sub_word, word_add,
    AES_decrypt, AES_encrypt, AES_main,
};
use aes_cipher::math_helper::byte_multiply;

fn sample_message() -> [[u8; 4]; 4] {
    [
        [0x54, 0x4f, 0x4e, 0x20],
        [0x77, 0x6e, 0x69, 0x54],
        [0x6f, 0x65, 0x6e, 0x77],
        [0x20, 0x20, 0x65, 0x6f],
    ]
}

fn sample_key() -> [[u8; 4]; 4] {
    [
        [0x54, 0x73, 0x20, 0x67],
        [0x68, 0x20, 0x4b, 0x20],
        [0x61, 0x6d, 0x75, 0x46],
        [0x74, 0x79, 0x6e, 0x75],
    ]
}

#[test]
fn test_inv() {
    assert_eq!(inv(0), 0);
    assert_eq!(inv(1), 1);
    assert_eq!(inv(255), 28);
    assert_eq!(inv(247), 140);
    assert_eq!(inv(79), 9);
}

#[test]
fn test_sub_bytes() {
    let mut state: [[u8; 4]; 4] = [
        [0x00, 0x18, 0x2b, 0x30],
        [0x4f, 0x5a, 0x62, 0x74],
        [0x88, 0x9c, 0xae, 0xb5],
        [0xc9, 0xdd, 0xe2, 0xf3],
    ];
    sub_bytes(&mut state);
    let res: [[u8; 4]; 4] = [
        [0x63, 0xad, 0xf1, 0x04],
        [0x84, 0xbe, 0xaa, 0x92],
        [0xc4, 0xde, 0xe4, 0xd5],
        [0xdd, 0xc1, 0x98, 0x0d],
    ];
    assert_eq!(state, res);
}

#[test]
fn test_inv_sub_bytes() {
    let mut state: [[u8; 4]; 4] = [
        [0x63, 0xad, 0xf1, 0x04],
        [0x84, 0xbe, 0xaa, 0x92],
        [0xc4, 0xde, 0xe4, 0xd5],
        [0xdd, 0xc1, 0x98, 0x0d],
    ];
    inv_sub_bytes(&mut state);
    let res: [[u8; 4]; 4] = [
        [0x00, 0x18, 0x2b, 0x30],
        [0x4f, 0x5a, 0x62, 0x74],
        [0x88, 0x9c, 0xae, 0xb5],
        [0xc9, 0xdd, 0xe2, 0xf3],
    ];
    assert_eq!(state, res);
}

#[allow(non_snake_case)]
#[test]
fn test_AES_encrypt() {
    let ciphertext: [[u8; 4]; 4] = AES_encrypt(sample_message(), sample_key());
    let res: [[u8; 4]; 4] = [
        [0x29, 0x57, 0x40, 0x1a],
        [0xc3, 0x14, 0x22, 0x02],
        [0x50, 0x20, 0x99, 0xd7],
        [0x5f, 0xf6, 0xb3, 0x3a],
    ];
    assert_eq!(ciphertext, res);
}

#[test]
fn test_byte_multiply() {
    assert_eq!(byte_multiply(&0, &237), 0);
    assert_eq!(byte_multiply(&1, &83), 83);
    assert_eq!(byte_multiply(&33, &122), 163);
    assert_eq!(byte_multiply(&191, &249), 3);
}

#[test]
fn multiply_zero_one_and_commutative_for_all_bytes() {
    for a in 0..=255u8 {
        assert_eq!(byte_multiply(&a, &0), 0);
        assert_eq!(byte_multiply(&a, &1), a);
        for b in 0..=255u8 {
            assert_eq!(byte_multiply(&a, &b), byte_multiply(&b, &a));
        }
    }
}

#[test]
fn multiply_known_products() {
    assert_eq!(byte_multiply(&0x57, &0x83), 0xc1);
    assert_eq!(byte_multiply(&0x57, &0x13), 0xfe);
    assert_eq!(byte_multiply(&2, &0x80), 0x1b);
}

#[test]
fn inverse_times_byte_is_one() {
    assert_eq!(inv(0), 0);
    for a in 1..=255u8 {
        assert_eq!(byte_multiply(&a, &inv(a)), 1);
    }
}

#[test]
fn sbox_round_trip_for_all_bytes() {
    for x in 0..=255u8 {
        assert_eq!(inv(inv_aff(aff(inv(x)))), x);
    }
    assert_eq!(aff(inv(0)), 0x63);
    assert_eq!(aff(inv(0x53)), 0xed);
}

#[test]
fn affine_maps_are_inverse() {
    assert_eq!(aff(0), 0x63);
    assert_eq!(inv_aff(0x63), 0);
    for x in 0..=255u8 {
        assert_eq!(inv_aff(aff(x)), x);
    }
}

#[test]
fn shift_rows_rotates_each_row() {
    let mut state: [[u8; 4]; 4] = [[0, 1, 2, 3], [4, 5, 6, 7], [8, 9, 10, 11], [12, 13, 14, 15]];
    shift_rows(&mut state);
    assert_eq!(state, [[0, 1, 2, 3], [5, 6, 7, 4], [10, 11, 8, 9], [15, 12, 13, 14]]);
    inv_shift_rows(&mut state);
    assert_eq!(state, [[0, 1, 2, 3], [4, 5, 6, 7], [8, 9, 10, 11], [12, 13, 14, 15]]);
}

#[test]
fn mix_columns_known_column_and_inverse() {
    let mut state: [[u8; 4]; 4] = [
        [0xdb, 0xf2, 0x01, 0xc6],
        [0x13, 0x0a, 0x01, 0xc6],
        [0x53, 0x22, 0x01, 0xc6],
        [0x45, 0x5c, 0x01, 0xc6],
    ];
    let before = state;
    mix_columns(&mut state);
    assert_eq!(
        state,
        [
            [0x8e, 0x9f, 0x01, 0xc6],
            [0x4d, 0xdc, 0x01, 0xc6],
            [0xa1, 0x58, 0x01, 0xc6],
            [0xbc, 0x9d, 0x01, 0xc6],
        ]
    );
    inv_mix_columns(&mut state);
    assert_eq!(state, before);
}

#[test]
fn add_round_key_is_self_inverse() {
    let mut state = sample_message();
    add_round_key(&mut state, sample_key());
    assert_eq!(state[0][0], 0x54 ^ 0x54);
    assert_eq!(state[3][3], 0x6f ^ 0x75);
    add_round_key(&mut state, sample_key());
    assert_eq!(state, sample_message());
}

#[test]
fn word_helpers() {
    let m = sample_key();
    assert_eq!(get_column_as_array(&m, 1), [0x73, 0x20, 0x6d, 0x79]);
    assert_eq!(word_add(&[1, 2, 3, 4], &[3, 2, 1, 4]), [2, 0, 2, 0]);
    assert_eq!(cycle(&[1, 2, 3, 4]), [2, 3, 4, 1]);
    assert_eq!(sub_word(&[0x00, 0x53, 0x01, 0xff]), [0x63, 0xed, 0x7c, 0x16]);
}

#[test]
fn round_constants() {
    let expected: [u8; 10] = [0x01, 0x02, 0x04, 0x08, 0x10, 0x20, 0x40, 0x80, 0x1b, 0x36];
    for i in 1..=10usize {
        assert_eq!(rc(i), expected[i - 1]);
    }
}

#[test]
fn key_schedule_starts_with_key_and_is_deterministic() {
    let s1 = key_schedule(sample_key());
    let s2 = key_schedule(sample_key());
    assert_eq!(s1, s2);
    assert_eq!(s1[0], sample_key());
    assert_eq!(
        s1[1],
        [
            [0xe2, 0x91, 0xb1, 0xd6],
            [0x32, 0x12, 0x59, 0x79],
            [0xfc, 0x91, 0xe4, 0xa2],
            [0xf1, 0x88, 0xe6, 0x93],
        ]
    );
}

#[test]
fn decrypt_undoes_encrypt() {
    let c = AES_encrypt(sample_message(), sample_key());
    assert_eq!(AES_decrypt(c, sample_key()), sample_message());
    let m: [[u8; 4]; 4] = [[0xff; 4], [0x00; 4], [0x12, 0x34, 0x56, 0x78], [0x9a, 0xbc, 0xde, 0xf0]];
    let k: [[u8; 4]; 4] = [[0x01; 4], [0xfe; 4], [0x0f, 0xf0, 0x55, 0xaa], [0x00, 0x11, 0x22, 0x33]];
    assert_eq!(AES_decrypt(AES_encrypt(m, k), k), m);
}

#[test]
fn sample_encryption_of_zero_block() {
    let zero: [[u8; 4]; 4] = [[0; 4]; 4];
    let c = AES_main();
    assert_eq!(c, AES_encrypt(zero, zero));
    assert_eq!(c[0], [0x66, 0xef, 0x88, 0xca]);
    assert_eq!(AES_decrypt(c, zero), zero);
}
