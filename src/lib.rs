//! Block-cipher operating modes (ECB, CBC, CTR) with PKCS#7 padding, and the
//! classic oracle attacks against them: byte-at-a-time ECB decryption, the CBC
//! padding-oracle attack, ECB detection and CBC bit flipping.
pub mod bitflipping;
pub mod bytes;
pub mod cbc;
pub mod codec;
pub mod cipher;
pub mod cut_and_paste;
pub mod ctr;
pub mod ecb;
pub mod ecb_attack;
pub mod error;
pub mod mt19937;
pub mod oracles;
pub mod padding_oracle;
pub mod pkcs7;
pub mod query;
mod random;
pub mod xor;
