use tfhe::boolean::FheBoolParameters;
use tfhe::keys::{generate_keys, ClientKey, ServerKey};
use tfhe::shortint::{ShortintCiphertext, ShortintEngine};

fn setup(seed: u64) -> (ClientKey, ServerKey, ShortintEngine) {
    let mut engine = ShortintEngine::new(seed);
    let (ck, sk) = generate_keys(FheBoolParameters::default(), &mut engine.generator);
    (ck, sk, engine)
}

fn bootstrap_with_table(sk: &ServerKey, ct: &mut ShortintCiphertext, table: &Vec<u64>) {
    let acc = ShortintEngine::generate_accumulator(sk, ct.message_modulus, ct.carry_modulus, table);
    ShortintEngine::apply_lookup_table(sk, ct, &acc);
}

#[test]
fn identity_lookup_table_bootstrap_keeps_three() {
    let (ck, sk, mut engine) = setup(11);
    let mut ct = engine.encrypt(&ck, 3, 4, 1);
    assert_eq!(engine.decrypt(&ck, &ct), 3);
    let identity: Vec<u64> = (0..4).collect();
    bootstrap_with_table(&sk, &mut ct, &identity);
    assert_eq!(engine.decrypt(&ck, &ct), 3);
}

#[test]
fn square_lookup_table_of_two_is_zero() {
    let (ck, sk, mut engine) = setup(12);
    let mut ct = engine.encrypt(&ck, 2, 4, 1);
    let square: Vec<u64> = (0..4u64).map(|x| (x * x) % 4).collect();
    bootstrap_with_table(&sk, &mut ct, &square);
    assert_eq!(engine.decrypt(&ck, &ct), 0);
}

#[test]
fn lookup_table_bootstrap_every_message() {
    let (ck, sk, mut engine) = setup(13);
    let table: Vec<u64> = vec![2, 0, 3, 1];
    for m in 0..4u64 {
        let mut ct = engine.encrypt(&ck, m, 4, 1);
        bootstrap_with_table(&sk, &mut ct, &table);
        assert_eq!(engine.decrypt(&ck, &ct), table[m as usize]);
    }
}

#[test]
fn encrypt_reduces_message_and_sets_degree() {
    let (ck, _sk, mut engine) = setup(14);
    let ct = engine.encrypt(&ck, 6, 4, 1);
    assert_eq!(ct.degree, 2);
    assert_eq!(engine.decrypt(&ck, &ct), 2);
}

#[test]
fn unchecked_scalar_sub_adds_negated_scalar() {
    let (ck, _sk, mut engine) = setup(15);
    let ct = engine.encrypt(&ck, 1, 2, 2);
    let r = engine.unchecked_scalar_sub(&ct, 1);
    assert_eq!(r.degree, 2);
    assert_eq!(engine.decrypt_message_and_carry(&ck, &r), 2);
    assert_eq!(engine.decrypt(&ck, &r), 0);
}

#[test]
fn smart_scalar_sub_direct_when_possible() {
    let (ck, sk, mut engine) = setup(16);
    let mut ct = engine.encrypt(&ck, 1, 2, 2);
    let r = engine.smart_scalar_sub(&sk, &mut ct, 1);
    assert_eq!(r.degree, 2);
    assert_eq!(engine.decrypt(&ck, &r), 0);
}

#[test]
fn smart_scalar_sub_bootstraps_when_degree_too_large() {
    let (ck, sk, mut engine) = setup(17);
    let mut ct = engine.encrypt(&ck, 0, 4, 1);
    let mut r = engine.smart_scalar_sub(&sk, &mut ct, 1);
    assert_eq!(engine.decrypt(&ck, &r), 3);
    engine.smart_scalar_sub_assign(&sk, &mut r, 2);
    assert_eq!(r.degree, 3);
    assert_eq!(engine.decrypt(&ck, &r), 1);
}
