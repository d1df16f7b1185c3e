use horcrux::gf2n::{
    GF1024, GF128, GF128u128, GF128u32, GF256u128, GF16, GF192, GF2048, GF256, GF256u32, GF32, GF384, GF512, GF64,
    GF64u32, GF768, GF8, GF1536,
};

fn gf8(v: u8) -> GF8 {
    GF8::from_byte(v)
}

/// All-ones, and every single-bit perturbation of all-ones and of zero.
fn nonzero_values_gf64u32() -> Vec<GF64u32> {
    let mut values = vec![GF64u32::new([u32::MAX, u32::MAX])];
    for i in 0..32 {
        for j in 0..2 {
            let mut w = [0u32, 0u32];
            w[j] ^= 1 << i;
            values.push(GF64u32::new(w));
            let mut w = [u32::MAX, u32::MAX];
            w[j] ^= 1 << i;
            values.push(GF64u32::new(w));
        }
    }
    values
}

#[test]
fn gf8_aes_product_and_inverse() {
    assert_eq!(gf8(0x53).mul(&gf8(0xca)), GF8::one());
    assert_eq!(gf8(0x53).invert(), gf8(0xca));
    assert_eq!(gf8(0x57).mul(&gf8(0x83)), gf8(0xc1));
    assert_eq!(gf8(0x57).mul(&gf8(0x13)), gf8(0xfe));
}

#[test]
fn gf8_inverse_of_every_nonzero_byte() {
    for v in 1..=255u8 {
        assert_eq!(gf8(v).mul(&gf8(v).invert()), GF8::one(), "v = {v}");
    }
}

#[test]
fn gf8_product_by_x_reduces() {
    // x^7 * x = x^8 = x^4 + x^3 + x + 1
    assert_eq!(gf8(0x80).mul(&gf8(2)), gf8(0x1b));
    assert_eq!(GF8::xn(7).mul(&GF8::xn(1)), gf8(0x1b));
}

#[test]
fn addition_is_xor() {
    assert_eq!(gf8(0xab).add(gf8(0x47)), gf8(0xec));
    assert_eq!(gf8(0xab).sub(gf8(0x47)), gf8(0xec));
    let mut x = gf8(0xf0);
    x.add_assign(&gf8(0x0f));
    assert_eq!(x, gf8(0xff));
}

#[test]
fn additive_group_laws() {
    let values = nonzero_values_gf64u32();
    let z = GF64u32::zero();
    for x in &values {
        assert_eq!(x.add(z), *x);
        assert_eq!(x.sub(*x), z);
        for y in values.iter().take(20) {
            assert_eq!(x.add(*y), y.add(*x));
            for w in values.iter().take(5) {
                assert_eq!(x.add(*y).add(*w), x.add(y.add(*w)));
            }
        }
    }
}

#[test]
fn multiplicative_unit_and_zero() {
    let values = nonzero_values_gf64u32();
    for x in &values {
        assert_eq!(GF64u32::one().mul(x), *x);
        assert_eq!(x.mul(&GF64u32::one()), *x);
        assert_eq!(GF64u32::zero().mul(x), GF64u32::zero());
        assert_eq!(x.mul(&GF64u32::zero()), GF64u32::zero());
    }
}

#[test]
fn multiplicative_group_laws() {
    let values = nonzero_values_gf64u32();
    for x in values.iter().take(12) {
        assert_eq!(x.mul(&x.invert()), GF64u32::one());
        for y in values.iter().take(12) {
            assert_eq!(x.mul(y), y.mul(x));
            for z in values.iter().take(6) {
                assert_eq!(x.mul(y).mul(z), x.mul(&y.mul(z)));
            }
        }
    }
}

#[test]
fn distributivity() {
    let values = nonzero_values_gf64u32();
    for x in values.iter().take(10) {
        for y in values.iter().take(10) {
            for z in values.iter().take(10) {
                assert_eq!(x.mul(&y.add(*z)), x.mul(y).add(x.mul(z)));
            }
        }
    }
}

#[test]
fn inverse_in_larger_fields() {
    let x = GF128::from_bytes(&[0x5a; 16]).unwrap();
    assert_eq!(x.mul(&x.invert()), GF128::one());
    let y = GF128u32::from_bytes(&[0x5a; 16]).unwrap();
    assert_eq!(y.mul(&y.invert()), GF128u32::one());
    let z = GF256::xn(200);
    assert_eq!(z.mul(&z.invert()), GF256::one());
    let w = GF16::from_byte(0x77);
    assert_eq!(w.mul(&w.invert()), GF16::one());
    let v = GF32::from_byte(0x77);
    assert_eq!(v.mul(&v.invert()), GF32::one());
}

#[test]
fn word_sizes_agree() {
    // The same polynomials, built from their coefficients, multiply alike
    // whatever the word width.
    let pa = [0usize, 3, 31, 32, 64, 77, 100, 127];
    let pb = [1usize, 2, 63, 65, 90, 126];
    let mut a = GF128::zero();
    let mut a32 = GF128u32::zero();
    for &k in &pa {
        a = a.add(GF128::xn(k));
        a32 = a32.add(GF128u32::xn(k));
    }
    let mut b = GF128::zero();
    let mut b32 = GF128u32::zero();
    for &k in &pb {
        b = b.add(GF128::xn(k));
        b32 = b32.add(GF128u32::xn(k));
    }
    let p = a.mul(&b);
    let p32 = a32.mul(&b32);
    for k in 0..128 {
        assert_eq!(p.get_bit(k), p32.get_bit(k), "bit {k}");
    }
    let c = GF256::xn(255).add(GF256::xn(7));
    let c32 = GF256u32::xn(255).add(GF256u32::xn(7));
    let q = c.mul(&c);
    let q32 = c32.mul(&c32);
    for k in 0..256 {
        assert_eq!(q.get_bit(k), q32.get_bit(k), "bit {k}");
    }
}

#[test]
fn gf64_all_ones_squared() {
    let x = GF64::from_bytes(&[0xff; 8]).unwrap();
    let sq = x.mul(&x);
    // (sum of x^i for i < 64)^2 = sum of x^(2i), reduced bit by bit.
    let mut expected = GF64::zero();
    for i in 0..64usize {
        let mut t = GF64::xn(i);
        t = t.mul(&GF64::xn(i));
        expected = expected.add(t);
    }
    assert_eq!(sq, expected);
}

#[test]
fn from_diff_matches_subtraction() {
    for u in 0..=255u8 {
        for v in [0u8, 1, 2, 0x47, 0x80, 0xff] {
            assert_eq!(GF8::from_diff(u, v), gf8(u).sub(gf8(v)));
            assert_eq!(GF128::from_diff(u, v), GF128::from_byte(u).sub(GF128::from_byte(v)));
        }
    }
}

#[test]
fn bytes_round_trip() {
    let bytes: Vec<u8> = (0..32u8).collect();
    let x = GF256::from_bytes(&bytes).unwrap();
    assert_eq!(x.to_bytes(), bytes);
    let x32 = GF256u32::from_bytes(&bytes).unwrap();
    assert_eq!(x32.to_bytes(), bytes);
    assert_eq!(GF256::from_bytes(&bytes[..31]), None);
    assert_eq!(GF8::from_bytes(&[]), None);
    assert_eq!(GF8::from_bytes(&[1, 2]), None);
}

#[test]
fn byte_layout_puts_word_zero_first() {
    let mut bytes = [0u8; 16];
    bytes[7] = 1;
    assert_eq!(GF128::from_bytes(&bytes).unwrap(), GF128::one());
    let mut top = [0u8; 16];
    top[8] = 0x80;
    assert_eq!(GF128::from_bytes(&top).unwrap(), GF128::xn(127));
}

#[test]
fn hex_form() {
    assert_eq!(gf8(0xec).to_hex(), "ec");
    assert_eq!(GF16::from_byte(0x0a).to_hex(), "000a");
    assert_eq!(GF128::one().to_hex(), "00000000000000010000000000000000");
    assert_eq!(GF8::from_hex(b"EC"), Some(gf8(0xec)));
    assert_eq!(GF8::from_hex(b"e"), None);
    assert_eq!(GF8::from_hex(b"ecec"), None);
    assert_eq!(GF8::from_hex(b"zz"), None);
}

#[test]
fn bits_and_monomials() {
    let x = GF512::xn(300);
    for k in 0..512 {
        assert_eq!(x.get_bit(k), k == 300);
    }
    assert!(gf8(0x80).get_bit(7));
    assert!(!gf8(0x80).get_bit(6));
}

#[test]
fn equality_and_zero_test() {
    assert!(GF384::zero().is_zero());
    assert!(!GF384::one().is_zero());
    assert!(GF768::xn(700).equals(&GF768::xn(700)));
    assert!(!GF768::xn(700).equals(&GF768::xn(701)));
}

#[test]
fn large_fields_multiply_by_x() {
    let top = GF1024::xn(1023);
    // x^1024 = x^19 + x^6 + x + 1
    let expected = GF1024::xn(19).add(GF1024::xn(6)).add(GF1024::xn(1)).add(GF1024::one());
    assert_eq!(top.mul(&GF1024::xn(1)), expected);
    let top = GF2048::xn(2047);
    let expected = GF2048::xn(19).add(GF2048::xn(14)).add(GF2048::xn(13)).add(GF2048::one());
    assert_eq!(top.mul(&GF2048::xn(1)), expected);
    let top = GF1536::xn(1535);
    let expected = GF1536::xn(21).add(GF1536::xn(6)).add(GF1536::xn(2)).add(GF1536::one());
    assert_eq!(top.mul(&GF1536::xn(1)), expected);
    let top = GF192::xn(191);
    let expected = GF192::xn(7).add(GF192::xn(2)).add(GF192::xn(1)).add(GF192::one());
    assert_eq!(top.mul(&GF192::xn(1)), expected);
}

#[test]
fn uniform_elements_are_usable() {
    let x = GF128::uniform();
    let y = GF128::uniform();
    assert_eq!(x.add(y).sub(y), x);
    if !x.is_zero() {
        assert_eq!(x.mul(&x.invert()), GF128::one());
    }
}

#[test]
fn words_of_128_bits_agree_with_64() {
    let pa = [0usize, 5, 63, 64, 100, 127];
    let pb = [1usize, 64, 65, 126];
    let mut a = GF128::zero();
    let mut a128 = GF128u128::zero();
    for &k in &pa {
        a = a.add(GF128::xn(k));
        a128 = a128.add(GF128u128::xn(k));
    }
    let mut b = GF128::zero();
    let mut b128 = GF128u128::zero();
    for &k in &pb {
        b = b.add(GF128::xn(k));
        b128 = b128.add(GF128u128::xn(k));
    }
    let p = a.mul(&b);
    let p128 = a128.mul(&b128);
    for k in 0..128 {
        assert_eq!(p.get_bit(k), p128.get_bit(k), "bit {k}");
    }
    assert_eq!(a128.mul(&a128.invert()), GF128u128::one());
    let c = GF256u128::xn(255);
    assert_eq!(c.mul(&c.invert()), GF256u128::one());
    assert_eq!(c.mul_fused_carry(&c), c.mul(&c));
    assert_eq!(GF128u128::one().to_hex(), "00000000000000000000000000000001");
}

#[test]
fn new_of_zero_words_is_zero() {
    assert_eq!(GF128::new([0, 0]), GF128::zero());
    assert!(GF128::new([0, 0]).is_zero());
    assert_eq!(GF128::new([1, 0]), GF128::one());
    assert_eq!(GF128::one().words(), [1, 0]);
}
