use tfhe::boolean::FheBoolParameters;
use tfhe::integer::{decrypt_radix, encrypt_radix, ServerKey};
use tfhe::keys::{generate_keys, ClientKey};
use tfhe::shortint::ShortintEngine;

fn setup(seed: u64) -> (ClientKey, ServerKey, ShortintEngine) {
    let mut engine = ShortintEngine::new(seed);
    let (ck, sk) = generate_keys(FheBoolParameters::default(), &mut engine.generator);
    (ck, ServerKey::new(sk, 2, 2), engine)
}

#[test]
fn radix_encrypt_decrypt_round_trip() {
    let (ck, _sk, mut engine) = setup(21);
    let ct = encrypt_radix(&mut engine, &ck, 11, 2, 2, 4);
    assert_eq!(ct.blocks.len(), 4);
    assert_eq!(decrypt_radix(&engine, &ck, &ct), 11);
}

#[test]
fn radix_scalar_add_propagates_carries() {
    let (ck, sk, mut engine) = setup(22);
    let ct = encrypt_radix(&mut engine, &ck, 7, 2, 2, 4);
    let r = sk.scalar_add_parallelized(&ct, 5);
    assert_eq!(decrypt_radix(&engine, &ck, &r), 12);
    assert!(sk.block_carries_are_empty(&r));
}

#[test]
fn radix_smart_scalar_add_without_propagation() {
    let (ck, sk, mut engine) = setup(23);
    let mut ct = encrypt_radix(&mut engine, &ck, 5, 2, 2, 4);
    assert!(sk.is_scalar_add_possible(&ct, 2));
    let r = sk.smart_scalar_add_parallelized(&mut ct, 2);
    assert_eq!(r.blocks[1].degree, 1);
    assert_eq!(decrypt_radix(&engine, &ck, &r), 7);
}

#[test]
fn radix_neg_is_twos_complement() {
    let (ck, sk, mut engine) = setup(24);
    let ct = encrypt_radix(&mut engine, &ck, 3, 2, 2, 4);
    let r = sk.neg_parallelized(&ct);
    assert_eq!(decrypt_radix(&engine, &ck, &r) % 16, 13);
}

#[test]
fn radix_smart_neg_of_zero_is_zero() {
    let (ck, sk, mut engine) = setup(25);
    let mut ct = encrypt_radix(&mut engine, &ck, 0, 2, 2, 3);
    let mut r = sk.smart_neg_parallelized(&mut ct);
    sk.full_propagate_parallelized(&mut r);
    assert_eq!(decrypt_radix(&engine, &ck, &r) % 8, 0);
}
