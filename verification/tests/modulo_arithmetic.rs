use algolib::number_theory::modulo_arithmetic::ModuloArithmetic;

const MODULO: i64 = 1_000_000_007;

#[test]
fn test_modulo_arithmetic() {
    let modulo_arithmetic = ModuloArithmetic::new(MODULO);
    assert_eq!(modulo_arithmetic.add(1, 2), 3);
    assert_eq!(modulo_arithmetic.sub(2, 2), 0);
    assert_eq!(modulo_arithmetic.mul(2, 2), 4);
    assert_eq!(modulo_arithmetic.bin_pow(2, 2), 4);
    assert_eq!(modulo_arithmetic.div(4, 2), 2);
}

#[test]
fn main_test_modulo_arithmetic() {
    let modulo_arithmetic = ModuloArithmetic::new(MODULO);
    assert_eq!(modulo_arithmetic.add(1, 2), 3);
    assert_eq!(modulo_arithmetic.sub(2, 2), 0);
    assert_eq!(modulo_arithmetic.mul(2, 2), 4);
    assert_eq!(modulo_arithmetic.bin_pow(2, 2), 4);
    assert_eq!(modulo_arithmetic.div(4, 2), 2);
}

#[test]
fn test_div_odd() {
    let modulo_arithmetic = ModuloArithmetic::new(MODULO);
    let a = 7;
    let b = 3;
    let expected = (a / b) % MODULO;
    let actual = modulo_arithmetic.div(a - (a % b), b);
    assert_eq!(actual, expected);
}

#[test]
fn main_test_div_odd() {
    let modulo_arithmetic = ModuloArithmetic::new(MODULO);
    let a = 7;
    let b = 3;
    let expected = (a / b) % MODULO;
    let actual = modulo_arithmetic.div(a - (a % b), b);
    assert_eq!(actual, expected);
}

fn samples() -> Vec<(i64, i64)> {
    let mut seed: u64 = 0x1234_5678_9abc_def1;
    let mut next = || {
        seed ^= seed << 13;
        seed ^= seed >> 7;
        seed ^= seed << 17;
        (seed as i64) % MODULO
    };
    let mut out = vec![(0, 0), (MODULO - 1, MODULO - 1), (1 - MODULO, 1 - MODULO), (MODULO - 1, 1 - MODULO)];
    for _ in 0..2000 {
        out.push((next(), next()));
    }
    out
}

#[test]
fn add_is_the_remainder_of_the_sum() {
    let m = ModuloArithmetic::new(MODULO);
    for (a, b) in samples() {
        assert_eq!(m.add(a, b), (a + b) % MODULO);
    }
    assert_eq!(m.add(MODULO - 1, 1), 0);
    assert_eq!(m.add(-5, 2), -3);
}

#[test]
fn sub_is_the_remainder_of_the_shifted_difference() {
    let m = ModuloArithmetic::new(MODULO);
    for (a, b) in samples() {
        assert_eq!(m.sub(a, b), (a - b + MODULO) % MODULO);
    }
    assert_eq!(m.sub(2, 5), MODULO - 3);
    assert_eq!(m.sub(5, 2), 3);
}

#[test]
fn mul_is_the_remainder_of_the_product() {
    let m = ModuloArithmetic::new(MODULO);
    for (a, b) in samples() {
        assert_eq!(m.mul(a, b) as i128, (a as i128 * b as i128) % MODULO as i128);
    }
    assert_eq!(m.mul(MODULO - 1, MODULO - 1), 1);
    assert_eq!(m.mul(-3, 4), -12);
}

#[test]
fn bin_pow_is_the_remainder_of_the_power() {
    let m = ModuloArithmetic::new(MODULO);
    assert_eq!(m.bin_pow(2, 10), 1024);
    assert_eq!(m.bin_pow(2, 62) as i128, (1i128 << 62) % MODULO as i128);
    assert_eq!(m.bin_pow(3, 0), 1);
    assert_eq!(m.bin_pow(0, 0), 1);
    assert_eq!(m.bin_pow(0, 5), 0);
    assert_eq!(m.bin_pow(7, 1), 7);
    assert_eq!(m.bin_pow(-2, 3), -8);
    assert_eq!(m.bin_pow(-2, 4), 16);
    assert_eq!(m.bin_pow(2, -3), 8);
    for (a, _) in samples().into_iter().take(200) {
        let mut expected: i128 = 1;
        for e in 0..40i64 {
            if e > 0 {
                assert_eq!(m.bin_pow(a, e) as i128, expected);
            }
            expected = (expected * a as i128) % MODULO as i128;
        }
    }
}

#[test]
fn bin_pow_under_modulus_one() {
    let m = ModuloArithmetic::new(1);
    assert_eq!(m.bin_pow(5, 0), 1);
    assert_eq!(m.bin_pow(5, 1), 0);
    assert_eq!(m.bin_pow(5, 6), 0);
}

#[test]
fn div_undoes_mul_under_a_prime_modulus() {
    let m = ModuloArithmetic::def();
    assert_eq!(m.div(1, 2), 500_000_004);
    assert_eq!(m.div(10, 5), 2);
    for (a, b) in samples().into_iter().take(300) {
        let (a, b) = (a.abs(), b.abs());
        if b != 0 {
            assert_eq!(m.mul(m.div(a, b), b), a);
        }
    }
}

#[test]
fn fact_is_the_remainder_of_the_factorial() {
    let m = ModuloArithmetic::new(MODULO);
    assert_eq!(m.fact(-3), 1);
    assert_eq!(m.fact(0), 1);
    assert_eq!(m.fact(1), 1);
    assert_eq!(m.fact(5), 120);
    assert_eq!(m.fact(10), 3_628_800);
    assert_eq!(m.fact(13), 6_227_020_800 % MODULO);
    assert_eq!(m.fact(20), 146_326_063);
    let small = ModuloArithmetic::new(7);
    assert_eq!(small.fact(6), 6);
    assert_eq!(small.fact(7), 0);
}

#[test]
fn def_is_the_usual_prime() {
    let m = ModuloArithmetic::def();
    assert_eq!(m.add(1_000_000_006, 1), 0);
    assert_eq!(m.add(1_000_000_006, 2), 1);
}
