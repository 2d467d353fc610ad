use tfhe::decomposition::{closest_representable_exec, decompose};
use tfhe::polynomial::{
    polynomial_wrapping_add_assign, polynomial_wrapping_monic_monomial_div_assign,
    polynomial_wrapping_monic_monomial_mul_assign, polynomial_wrapping_mul,
    polynomial_wrapping_sub_assign,
};

#[test]
fn monomial_mul_rotates_with_sign() {
    let mut p = vec![1, 2, 3, 4];
    polynomial_wrapping_monic_monomial_mul_assign(&mut p, 1);
    assert_eq!(p, vec![0u64.wrapping_sub(4), 1, 2, 3]);
    let mut q = vec![1, 2, 3, 4];
    polynomial_wrapping_monic_monomial_mul_assign(&mut q, 4);
    assert_eq!(q, vec![0u64.wrapping_sub(1), 0u64.wrapping_sub(2), 0u64.wrapping_sub(3), 0u64.wrapping_sub(4)]);
    let mut r = vec![1, 2, 3, 4];
    polynomial_wrapping_monic_monomial_mul_assign(&mut r, 8);
    assert_eq!(r, vec![1, 2, 3, 4]);
}

#[test]
fn monomial_div_undoes_mul() {
    let start = vec![5, 0, 9, 1 << 40, 3, 3, 7, 11];
    for d in 0..20 {
        let mut p = start.clone();
        polynomial_wrapping_monic_monomial_mul_assign(&mut p, d);
        polynomial_wrapping_monic_monomial_div_assign(&mut p, d);
        assert_eq!(p, start);
    }
    let mut p = vec![1, 2, 3, 4];
    polynomial_wrapping_monic_monomial_div_assign(&mut p, 1);
    assert_eq!(p, vec![2, 3, 4, 0u64.wrapping_sub(1)]);
}

#[test]
fn negacyclic_product() {
    // (1 + X) * (1 + X) = 1 + 2X + X^2 ; with N = 2, X^2 = -1, so 2X.
    assert_eq!(polynomial_wrapping_mul(&vec![1, 1], &vec![1, 1]), vec![0, 2]);
    // X^3 * X = X^4 = -1 with N = 4.
    assert_eq!(
        polynomial_wrapping_mul(&vec![0, 0, 0, 1], &vec![0, 1, 0, 0]),
        vec![u64::MAX, 0, 0, 0]
    );
    assert_eq!(polynomial_wrapping_mul(&vec![0, 0, 0], &vec![4, 5, 6]), vec![0, 0, 0]);
}

#[test]
fn add_and_sub_wrap() {
    let mut p = vec![u64::MAX, 3];
    polynomial_wrapping_add_assign(&mut p, &vec![2, 4]);
    assert_eq!(p, vec![1, 7]);
    polynomial_wrapping_sub_assign(&mut p, &vec![2, 8]);
    assert_eq!(p, vec![u64::MAX, u64::MAX]);
}

#[test]
fn closest_representable_rounds_to_top_bits() {
    // keep the 8 top bits
    let x = 0x1280_0000_0000_0000u64;
    assert_eq!(closest_representable_exec(x, 8, 1), 0x1300_0000_0000_0000);
    assert_eq!(closest_representable_exec(0x127f_ffff_ffff_ffff, 8, 1), 0x1200_0000_0000_0000);
    assert_eq!(closest_representable_exec(u64::MAX, 8, 1), 0);
    assert_eq!(closest_representable_exec(0, 4, 3), 0);
}

#[test]
fn decomposition_digits_reconstruct_rounded_value() {
    let base_log = 4u32;
    let levels = 3u32;
    for &x in &[0u64, 1 << 60, 0x8765_4321_0000_0000, u64::MAX, 0x0fff_0000_0000_0000] {
        let digits = decompose(x, base_log, levels);
        assert_eq!(digits.len(), 3);
        let mut sum = 0u64;
        for (i, d) in digits.iter().enumerate() {
            let signed = *d as i64;
            assert!(signed >= -8 && signed < 8);
            sum = sum.wrapping_add(d.wrapping_mul(1u64 << (64 - base_log as usize * (i + 1))));
        }
        assert_eq!(sum, closest_representable_exec(x, base_log, levels));
    }
    assert_eq!(decompose(0x3000_0000_0000_0000, 4, 2), vec![3, 0]);
    assert_eq!(decompose(0xf000_0000_0000_0000, 4, 1), vec![u64::MAX]);
}
