use tfhe::boolean::{FheBool, FheBoolParameters};
use tfhe::keys::{generate_keys, ClientKey, ServerKey};
use tfhe::random::Generator;

struct Keys {
    client: ClientKey,
    server: ServerKey,
    generator: Generator,
}

fn setup_static_default() -> Keys {
    let mut generator = Generator::new(0x5eed_0001);
    let (client, server) = generate_keys(FheBoolParameters::default(), &mut generator);
    Keys { client, server, generator }
}

fn setup_static_tfhe() -> Keys {
    let mut generator = Generator::new(0x5eed_0002);
    let (client, server) = generate_keys(FheBoolParameters::tfhe_lib(), &mut generator);
    Keys { client, server, generator }
}

fn encrypt_pair(keys: &mut Keys) -> (FheBool, FheBool) {
    let ttrue = keys.client.encrypt(true, &mut keys.generator);
    let ffalse = keys.client.encrypt(false, &mut keys.generator);
    (ttrue, ffalse)
}

fn xor_truth_table(ttrue: &FheBool, ffalse: &FheBool, keys: &Keys) {
    let sk = &keys.server;
    let r = sk.xor(ffalse, ffalse);
    assert_eq!(keys.client.decrypt(&r), false);

    let r = sk.xor(ffalse, ttrue);
    assert_eq!(keys.client.decrypt(&r), true);

    let r = sk.xor(ttrue, ffalse);
    assert_eq!(keys.client.decrypt(&r), true);

    let r = sk.xor(ttrue, ttrue);
    assert_eq!(keys.client.decrypt(&r), false);
}

fn and_truth_table(ttrue: &FheBool, ffalse: &FheBool, keys: &Keys) {
    let sk = &keys.server;
    let r = sk.and(ffalse, ffalse);
    assert_eq!(keys.client.decrypt(&r), false);

    let r = sk.and(ffalse, ttrue);
    assert_eq!(keys.client.decrypt(&r), false);

    let r = sk.and(ttrue, ffalse);
    assert_eq!(keys.client.decrypt(&r), false);

    let r = sk.and(ttrue, ttrue);
    assert_eq!(keys.client.decrypt(&r), true);
}

fn or_truth_table(ttrue: &FheBool, ffalse: &FheBool, keys: &Keys) {
    let sk = &keys.server;
    let r = sk.or(ffalse, ffalse);
    assert_eq!(keys.client.decrypt(&r), false);

    let r = sk.or(ffalse, ttrue);
    assert_eq!(keys.client.decrypt(&r), true);

    let r = sk.or(ttrue, ffalse);
    assert_eq!(keys.client.decrypt(&r), true);

    let r = sk.or(ttrue, ttrue);
    assert_eq!(keys.client.decrypt(&r), true);
}

fn not_truth_table(ttrue: &FheBool, ffalse: &FheBool, keys: &Keys) {
    let sk = &keys.server;
    let r = sk.not(ffalse);
    assert_eq!(keys.client.decrypt(&r), true);

    let r = sk.not(ttrue);
    assert_eq!(keys.client.decrypt(&r), false);
}

#[test]
fn test_xor_truth_table_static_default() {
    let mut keys = setup_static_default();
    let (ttrue, ffalse) = encrypt_pair(&mut keys);
    xor_truth_table(&ttrue, &ffalse, &keys);
}

#[test]
fn test_and_truth_table_static_default() {
    let mut keys = setup_static_default();
    let (ttrue, ffalse) = encrypt_pair(&mut keys);
    and_truth_table(&ttrue, &ffalse, &keys);
}

#[test]
fn test_or_truth_table_static_default() {
    let mut keys = setup_static_default();
    let (ttrue, ffalse) = encrypt_pair(&mut keys);
    or_truth_table(&ttrue, &ffalse, &keys);
}

#[test]
fn test_not_truth_table_static_default() {
    let mut keys = setup_static_default();
    let (ttrue, ffalse) = encrypt_pair(&mut keys);
    not_truth_table(&ttrue, &ffalse, &keys);
}

#[test]
fn test_xor_truth_table_static_tfhe() {
    let mut keys = setup_static_tfhe();
    let (ttrue, ffalse) = encrypt_pair(&mut keys);
    xor_truth_table(&ttrue, &ffalse, &keys);
}

#[test]
fn test_and_truth_table_static_tfhe() {
    let mut keys = setup_static_tfhe();
    let (ttrue, ffalse) = encrypt_pair(&mut keys);
    and_truth_table(&ttrue, &ffalse, &keys);
}

#[test]
fn test_or_truth_table_static_tfhe() {
    let mut keys = setup_static_tfhe();
    let (ttrue, ffalse) = encrypt_pair(&mut keys);
    or_truth_table(&ttrue, &ffalse, &keys);
}

#[test]
fn test_not_truth_table_static_tfhe() {
    let mut keys = setup_static_tfhe();
    let (ttrue, ffalse) = encrypt_pair(&mut keys);
    not_truth_table(&ttrue, &ffalse, &keys);
}
