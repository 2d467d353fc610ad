use tfhe::lwe::{
    lwe_ciphertext_add, lwe_ciphertext_add_assign, lwe_ciphertext_cleartext_mul,
    lwe_ciphertext_cleartext_mul_assign, lwe_ciphertext_opposite_assign,
    lwe_ciphertext_plaintext_add_assign, lwe_ciphertext_sub, lwe_ciphertext_sub_assign, Cleartext,
    LweCiphertext, Plaintext,
};
use tfhe::modulus::CiphertextModulus;

fn native(data: Vec<u64>) -> LweCiphertext {
    LweCiphertext::from_container(data, CiphertextModulus::new_native())
}

fn small(data: Vec<u64>, log2: u32) -> LweCiphertext {
    LweCiphertext::from_container(data, CiphertextModulus::try_new_power_of_2(log2).unwrap())
}

#[test]
fn add_assign_wraps_at_native_modulus() {
    let mut lhs = native(vec![u64::MAX, 1, 2]);
    let rhs = native(vec![2, 3, u64::MAX]);
    lwe_ciphertext_add_assign(&mut lhs, &rhs);
    assert_eq!(lhs.data, vec![1, 4, 1]);
}

#[test]
fn add_assign_reduces_modulo_small_power_of_two() {
    let mut lhs = small(vec![200, 17, 255], 8);
    let rhs = small(vec![100, 1, 1], 8);
    lwe_ciphertext_add_assign(&mut lhs, &rhs);
    assert_eq!(lhs.data, vec![44, 18, 0]);
}

#[test]
fn add_into_output() {
    let mut out = small(vec![0, 0], 4);
    let lhs = small(vec![9, 15], 4);
    let rhs = small(vec![9, 2], 4);
    lwe_ciphertext_add(&mut out, &lhs, &rhs);
    assert_eq!(out.data, vec![2, 1]);
}

#[test]
fn sub_assign_native_and_small() {
    let mut lhs = native(vec![1, 10]);
    let rhs = native(vec![2, 3]);
    lwe_ciphertext_sub_assign(&mut lhs, &rhs);
    assert_eq!(lhs.data, vec![u64::MAX, 7]);

    let mut lhs = small(vec![1, 10], 4);
    let rhs = small(vec![2, 3], 4);
    lwe_ciphertext_sub_assign(&mut lhs, &rhs);
    assert_eq!(lhs.data, vec![15, 7]);
}

#[test]
fn sub_into_output() {
    let mut out = native(vec![0, 0, 0]);
    let lhs = native(vec![5, 0, 7]);
    let rhs = native(vec![3, 1, 7]);
    lwe_ciphertext_sub(&mut out, &lhs, &rhs);
    assert_eq!(out.data, vec![2, u64::MAX, 0]);
}

#[test]
fn plaintext_add_changes_body_only() {
    let mut ct = native(vec![5, 6, u64::MAX]);
    lwe_ciphertext_plaintext_add_assign(&mut ct, Plaintext(3));
    assert_eq!(ct.data, vec![5, 6, 2]);

    let mut ct = small(vec![5, 6, 250], 8);
    lwe_ciphertext_plaintext_add_assign(&mut ct, Plaintext(10));
    assert_eq!(ct.data, vec![5, 6, 4]);
}

#[test]
fn opposite_negates_every_coefficient() {
    let mut ct = native(vec![0, 1, u64::MAX]);
    lwe_ciphertext_opposite_assign(&mut ct);
    assert_eq!(ct.data, vec![0, u64::MAX, 1]);
}

#[test]
fn cleartext_mul_scales_with_wrapping() {
    let mut ct = native(vec![3, 1 << 63, 7]);
    lwe_ciphertext_cleartext_mul_assign(&mut ct, Cleartext(2));
    assert_eq!(ct.data, vec![6, 0, 14]);

    let mut out = native(vec![0, 0, 0]);
    let lhs = native(vec![1, 2, 3]);
    lwe_ciphertext_cleartext_mul(&mut out, &lhs, Cleartext(5));
    assert_eq!(out.data, vec![5, 10, 15]);
}

#[test]
fn modulus_constructors() {
    assert!(CiphertextModulus::try_new_power_of_2(0).is_none());
    assert!(CiphertextModulus::try_new_power_of_2(65).is_none());
    assert!(CiphertextModulus::new_native().is_native_modulus());
    assert_eq!(CiphertextModulus::try_new_power_of_2(10).unwrap().get(), 1024);
    assert_eq!(CiphertextModulus::new_native().get(), 1u128 << 64);
}

#[test]
fn lwe_new_and_accessors() {
    let ct = LweCiphertext::new(7, 4, CiphertextModulus::new_native());
    assert_eq!(ct.lwe_size(), 4);
    assert_eq!(ct.lwe_dimension(), 3);
    assert_eq!(ct.get_body(), 7);
}
