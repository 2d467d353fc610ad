use tfhe::bootstrap::{pbs_modulus_switch, FourierLweBootstrapKey};
use tfhe::boolean::FheBoolParameters;
use tfhe::encryption::{decrypt_lwe_ciphertext, encrypt_ggsw, LweSecretKey};
use tfhe::ggsw::{cmux, GgswCiphertext, GgswShape};
use tfhe::glwe::{extract_lwe_sample_from_glwe_ciphertext, GlweCiphertext};
use tfhe::keys::generate_keys;
use tfhe::lwe::LweCiphertext;
use tfhe::modulus::CiphertextModulus;
use tfhe::random::Generator;
use tfhe::scratch::{blind_rotate_scratch, bootstrap_scratch, cmux_scratch, ScratchRequirement};

#[test]
fn modulus_switch_rounds_to_nearest_rotation() {
    assert_eq!(pbs_modulus_switch(0, 256), 0);
    assert_eq!(pbs_modulus_switch(1 << 63, 256), 256);
    assert_eq!(pbs_modulus_switch(1 << 58, 256), 8);
    assert_eq!(pbs_modulus_switch((1 << 58) + (1 << 54), 256), 9);
    assert_eq!(pbs_modulus_switch((1 << 58) + (1 << 54) - 1, 256), 8);
    assert_eq!(pbs_modulus_switch(u64::MAX, 256), 0);
}

fn trivial_glwe(body: Vec<u64>, n: usize) -> GlweCiphertext {
    let mut data = vec![0u64; n];
    data.extend(body);
    GlweCiphertext::from_container(data, n, CiphertextModulus::new_native())
}

fn phase_of_constant(glwe: &GlweCiphertext, key: &LweSecretKey) -> u64 {
    let n = glwe.polynomial_size();
    let mut lwe = LweCiphertext::new(0, n + 1, CiphertextModulus::new_native());
    extract_lwe_sample_from_glwe_ciphertext(glwe, &mut lwe);
    decrypt_lwe_ciphertext(key, &lwe)
}

#[test]
fn cmux_selects_by_encrypted_bit() {
    let mut generator = Generator::new(99);
    let (ck, _sk) = generate_keys(FheBoolParameters::default(), &mut generator);
    let n = 256;
    let shape = GgswShape { polynomial_size: n, glwe_size: 2, base_log: 10, level_count: 3 };
    let key = ck.glwe_secret_key.as_lwe_secret_key();
    let m0 = 3u64 << 60;
    let m1 = 5u64 << 60;
    for bit in 0..2u64 {
        let ggsw = GgswCiphertext::from_container(
            encrypt_ggsw(&ck.glwe_secret_key, bit, shape, 20, &mut generator),
            shape,
        );
        let mut ct0 = trivial_glwe(vec![m0; n], n);
        let ct1 = trivial_glwe(vec![m1; n], n);
        cmux(&mut ct0, &ct1, &ggsw);
        let phase = phase_of_constant(&ct0, &key);
        let expected = if bit == 0 { m0 } else { m1 };
        let error = phase.wrapping_sub(expected) as i64;
        assert!(error.unsigned_abs() < 1 << 50, "bit {bit}: error {error}");
    }
}

#[test]
fn bootstrap_key_shape_and_ggsw_views() {
    let mut generator = Generator::new(7);
    let (_ck, sk) = generate_keys(FheBoolParameters::tfhe_lib(), &mut generator);
    let bsk = sk.bootstrapping_key.clone();
    assert_eq!(bsk.input_lwe_dimension(), 256);
    assert_eq!(bsk.polynomial_size(), 128);
    assert_eq!(bsk.glwe_size(), 3);
    assert_eq!(bsk.decomposition_base_log(), 10);
    assert_eq!(bsk.decomposition_level_count(), 3);
    assert_eq!(bsk.output_lwe_dimension(), 256);
    let len = 3 * 3 * 3 * 128;
    let data = bsk.clone().data();
    let ggsws = bsk.into_ggsw_iter();
    assert_eq!(ggsws.len(), 256);
    assert_eq!(ggsws[5].data, data[5 * len..6 * len].to_vec());
}

#[test]
fn zero_key_from_container_and_new() {
    let key = FourierLweBootstrapKey::new(2, 2, 4, 2, 2);
    assert_eq!(key.data.len(), 2 * 4 * 2 * 2 * 2);
    assert!(key.data.iter().all(|x| *x == 0));
    let again = FourierLweBootstrapKey::from_container(key.data.clone(), 2, 2, 4, 2, 2);
    assert_eq!(again.input_lwe_dimension(), 2);
}

#[test]
fn bootstrap_with_skipped_zero_mask_matches_trivial_rotation() {
    // A key of zeros: every CMUX adds the zero external product, so only the body rotates.
    let n = 4;
    let key = FourierLweBootstrapKey::new(2, 2, n, 2, 2);
    let mut lut = trivial_glwe(vec![10, 20, 30, 40], n);
    // body 2^62 switches to rotation N/2... 2N = 8 slots, 2^62 -> 2
    key.blind_rotate_assign(&mut lut, &[0, 1 << 61, 1 << 62]);
    assert_eq!(lut.data[n..].to_vec(), vec![30, 40, 0u64.wrapping_sub(10), 0u64.wrapping_sub(20)]);
    assert_eq!(lut.data[..n].to_vec(), vec![0, 0, 0, 0]);
}

#[test]
fn bootstrap_extracts_constant_coefficient() {
    let n = 4;
    let key = FourierLweBootstrapKey::new(1, 2, n, 2, 2);
    let lut = trivial_glwe(vec![10, 20, 30, 40], n);
    let lwe_in = LweCiphertext::from_container(vec![0, 1 << 61], CiphertextModulus::new_native());
    let mut lwe_out = LweCiphertext::new(0, n + 1, CiphertextModulus::new_native());
    key.bootstrap(&mut lwe_out, &lwe_in, &lut);
    assert_eq!(lwe_out.data, vec![0, 0, 0, 0, 20]);
}

#[test]
fn scratch_sizes() {
    let cmux_req = cmux_scratch(2, 256).unwrap();
    assert_eq!(cmux_req, ScratchRequirement { size_bytes: 18432, align_bytes: 64 });
    assert_eq!(blind_rotate_scratch(2, 256).unwrap().size_bytes, 22528);
    assert_eq!(bootstrap_scratch(2, 256).unwrap().size_bytes, 26624);
    assert!(cmux_scratch(1, usize::MAX / 4).is_err());
}

#[test]
fn skipping_zero_mask_matches_never_skipping_sweep() {
    let mut generator = Generator::new(31);
    let (_ck, sk) = generate_keys(FheBoolParameters::tfhe_lib(), &mut generator);
    let bsk = sk.bootstrapping_key.clone();
    let n = bsk.polynomial_size();
    let mut lwe = vec![0u64; bsk.input_lwe_dimension() + 1];
    for (i, a) in lwe.iter_mut().enumerate() {
        if i % 3 != 0 {
            *a = generator.next_u64();
        }
    }
    let body_index = lwe.len() - 1;
    lwe[body_index] = 1 << 61;
    let body: Vec<u64> = (0..n as u64).map(|t| t << 50).collect();
    let lut = trivial_glwe_k(body, n, 3);

    let mut skipped = lut.clone();
    bsk.blind_rotate_assign(&mut skipped, &lwe);

    let ggsws = bsk.clone().into_ggsw_iter();
    let mut acc = GlweCiphertext::from_container(
        tfhe::glwe::glwe_monomial_rotate(&lut.data, n, pbs_modulus_switch(lwe[body_index], n), true),
        n,
        CiphertextModulus::new_native(),
    );
    for i in 0..body_index {
        let rotated = GlweCiphertext::from_container(
            tfhe::glwe::glwe_monomial_rotate(&acc.data, n, pbs_modulus_switch(lwe[i], n), false),
            n,
            CiphertextModulus::new_native(),
        );
        cmux(&mut acc, &rotated, &ggsws[i]);
    }
    assert_eq!(skipped.data, acc.data);
}

fn trivial_glwe_k(body: Vec<u64>, n: usize, glwe_size: usize) -> GlweCiphertext {
    let mut data = vec![0u64; n * (glwe_size - 1)];
    data.extend(body);
    GlweCiphertext::from_container(data, n, CiphertextModulus::new_native())
}
