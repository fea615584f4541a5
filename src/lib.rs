//! A 128-bit block cipher over GF(2^8): field arithmetic, the substitution
//! box, the four state transformations, the key schedule and the ten-round
//! encryption and decryption of one 4x4 byte block.
pub mod ciphers;
pub mod math_helper;
