use horcrux::gf2n::{GF2n, GF1024, GF128, GF16, GF256, GF256u32, GF32, GF64, GF64u32, GF8};
use horcrux::word::Word;

fn check_shifts<W: Word, const N: usize, const A: usize, const B: usize, const C: usize>(wbits: usize) {
    let nbits = wbits * N;
    for x in GF2n::<W, N, A, B, C>::get_test_values() {
        assert_eq!(x.shl1_ret(), x.shl_word_ret(1));
        let mut y = x;
        for shift in 1..wbits {
            y = y.shl1_ret();
            assert_eq!(y, x.shl_word_ret(shift));
        }
        y = y.shl1_ret();
        assert_eq!(y, x.shlt_ret());
        if wbits < nbits {
            assert_eq!(x.shlt_ret(), x.mul(&GF2n::xn(wbits)));
        }
        let mut z = x;
        for shift in 0..nbits.min(3 * wbits + 2) {
            assert_eq!(z, x.shl(shift));
            z = z.shl1_ret();
        }
    }
}

fn check_fused<W: Word, const N: usize, const A: usize, const B: usize, const C: usize>() {
    let values = GF2n::<W, N, A, B, C>::get_test_values();
    for x in values.iter().step_by(3) {
        for y in values.iter().step_by(5) {
            assert_eq!(x.mul_fused_carry(y), x.mul(y));
        }
    }
}

#[test]
fn shifts_gf8() {
    check_shifts::<u8, 1, 4, 3, 1>(8);
}

#[test]
fn shifts_gf16() {
    check_shifts::<u16, 1, 5, 3, 1>(16);
}

#[test]
fn shifts_gf64u32() {
    check_shifts::<u32, 2, 4, 3, 1>(32);
}

#[test]
fn shifts_gf128() {
    check_shifts::<u64, 2, 7, 2, 1>(64);
}

#[test]
fn shifts_gf256u32() {
    check_shifts::<u32, 8, 10, 5, 2>(32);
}

#[test]
fn fused_carry_matches_shift_and_add() {
    check_fused::<u8, 1, 4, 3, 1>();
    check_fused::<u16, 1, 5, 3, 1>();
    check_fused::<u32, 1, 7, 3, 2>();
    check_fused::<u64, 1, 4, 3, 1>();
    check_fused::<u32, 2, 4, 3, 1>();
    check_fused::<u64, 2, 7, 2, 1>();
    check_fused::<u64, 4, 10, 5, 2>();
}

#[test]
fn fused_carry_gf64_all_ones() {
    let x = GF64::all_ones();
    assert_eq!(x.mul_fused_carry(&x), x.mul(&x));
    let y = GF1024::all_ones();
    assert_eq!(y.mul_fused_carry(&y), y.mul(&y));
}

#[test]
fn propagate_carries_folds_high_half() {
    // x^8 = x^4 + x^3 + x + 1 in GF(2^8)
    assert_eq!(GF8::propagate_carries([0], [1]), GF8::from_byte(0x1b));
    // x^128 = x^7 + x^2 + x + 1 in GF(2^128)
    let expected = GF128::xn(7).add(GF128::xn(2)).add(GF128::xn(1)).add(GF128::one());
    assert_eq!(GF128::propagate_carries([0, 0], [1, 0]), expected);
    // x^255 = x^127 (x^128) in GF(2^128)
    let top = GF128::propagate_carries([0, 0], [0, 1 << 63]);
    assert_eq!(top, GF128::xn(127).mul(&expected));
    assert_eq!(GF16::propagate_carries([5], [0]), GF16::from_byte(5));
}

#[test]
fn shl_by_whole_words() {
    let x = GF256::xn(3);
    assert_eq!(x.shl(64), GF256::xn(67));
    assert_eq!(x.shl(250), GF256::xn(253));
    assert_eq!(GF256::xn(255).shl(1), GF256::xn(10).add(GF256::xn(5)).add(GF256::xn(2)).add(GF256::one()));
    let y = GF32::xn(31);
    assert_eq!(y.shlt_ret(), y.mul(&GF32::xn(31)).mul(&GF32::xn(1)));
}

#[test]
fn word_shifts_are_products_by_monomials() {
    for x in GF64u32::get_nonzero_test_values().iter().take(20) {
        assert_eq!(x.shlt_ret(), x.mul(&GF64u32::xn(32)));
        assert_eq!(x.shl_word_ret(5), x.mul(&GF64u32::xn(5)));
    }
    for x in GF256u32::get_nonzero_test_values().iter().take(10) {
        assert_eq!(x.shlt_ret().shlt_ret(), x.mul(&GF256u32::xn(64)));
    }
}

#[test]
fn test_values_shape() {
    let values = GF8::get_test_values();
    assert_eq!(values.len(), 18);
    assert_eq!(values[0], GF8::from_byte(0xff));
    assert_eq!(values[1], GF8::from_byte(1));
    assert_eq!(values[2], GF8::from_byte(0xfe));
    assert_eq!(values[17], GF8::zero());
    let nonzero = GF128::get_nonzero_test_values();
    assert_eq!(nonzero.len(), 257);
    assert!(nonzero.iter().all(|v| !v.is_zero()));
}

#[test]
fn shifts_gf256u128() {
    check_shifts::<u128, 2, 10, 5, 2>(128);
}
