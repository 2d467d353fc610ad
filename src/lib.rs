//! Torus fully homomorphic encryption: LWE, GLWE and GGSW ciphertexts over the 64-bit
//! torus, and the programmable bootstrap built from them.
//!
//! - `lwe`: LWE ciphertexts and their linear algebra modulo the ciphertext modulus.
//! - `container`: a flat buffer read as a sequence of equally sized entities.
//! - `polynomial`: negacyclic polynomial arithmetic in `Z_{2^64}[X] / (X^N + 1)`.
//! - `decomposition`: signed gadget decomposition and rounding.
//! - `glwe`, `ggsw`: GLWE ciphertexts, sample extraction, the external product and CMUX.
//! - `bootstrap`: the bootstrapping key, blind rotation and bootstrap.
//! - `scratch`: sizing of the working memory of those operations.
//! - `random`, `encryption`, `keys`: key generation and encryption.
//! - `boolean`, `shortint`, `integer`: encrypted booleans, short integers and radix
//!   integers evaluated through the bootstrap.
//!
//! Every executable function is verified: its `ensures` clause states the result over the
//! mathematical model of the data (coefficients modulo the ciphertext modulus,
//! polynomials of `Z_{2^64}[X] / (X^N + 1)`).

pub mod arith;
pub mod modulus;
pub mod lwe;
pub mod container;
pub mod polynomial;
pub mod decomposition;
pub mod glwe;
pub mod ggsw;
pub mod bootstrap;
pub mod random;
pub mod encryption;
pub mod keys;
pub mod boolean;
pub mod shortint;
pub mod integer;
pub mod scratch;
