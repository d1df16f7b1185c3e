use horcrux::gf2n::{GF128, GF128u128, GF16, GF256, GF256u128, GF32, GF64, GF8};
use horcrux::shamir::{check_random_reconstruct_parameters, check_reconstruct_parameters, check_split_parameters, CompactShamir, GetX, RandomShamir, Shamir, Share};

fn gf8(v: u8) -> GF8 {
    GF8::from_byte(v)
}

#[test]
fn e1_compact_shares_of_known_polynomial() {
    let secret = gf8(0xab);
    let shares = CompactShamir::split_with_polynom(&secret, &vec![gf8(0x47)], 3);
    assert_eq!(shares.len(), 3);
    assert_eq!(shares[0].getx(), 1);
    assert_eq!(shares[0].gety(), gf8(0xec));
    assert_eq!(shares[1].getx(), 2);
    assert_eq!(shares[1].gety(), gf8(0xab ^ 0x8e));
    assert_eq!(shares[2].getx(), 3);
    assert_eq!(shares[2].gety(), gf8(0xab ^ 0xc9));
    for (i, j) in [(0, 1), (0, 2), (1, 2), (2, 0)] {
        let pair = [shares[i], shares[j]];
        assert_eq!(CompactShamir::reconstruct(&pair, 2), Some(secret));
    }
}

#[test]
fn e2_zero_secret() {
    let secret = GF8::zero();
    let shares = CompactShamir::split(&secret, 3, 5);
    assert_eq!(shares.len(), 5);
    assert_eq!(CompactShamir::reconstruct(&shares, 3), Some(secret));
    assert_eq!(CompactShamir::reconstruct(&shares[2..], 3), Some(secret));
}

#[test]
fn e3_random_gf128_drop_half() {
    let secret = GF128::uniform();
    let shares = RandomShamir::split(&secret, 10, 20);
    assert_eq!(shares.len(), 20);
    let kept: Vec<_> = shares.iter().enumerate().filter(|(i, _)| i % 2 == 1).map(|(_, s)| *s).collect();
    assert_eq!(RandomShamir::reconstruct(&kept, 10), Some(secret));
}

#[test]
fn e4_threshold_one_copies_secret() {
    let secret = GF256::from_bytes(&[0x3c; 32]).unwrap();
    let shares = CompactShamir::split(&secret, 1, 5);
    assert_eq!(shares.len(), 5);
    for s in &shares {
        assert_eq!(s.gety(), secret);
    }
    let rshares = RandomShamir::split(&secret, 1, 5);
    for s in &rshares {
        assert_eq!(s.gety(), secret);
    }
}

#[test]
fn e6_parse_compact_gf8_share() {
    let share = <CompactShamir as Shamir<GF8>>::parse_share("2|ec").unwrap();
    let expected: Share<u8, GF8> = CompactShamir::share(2, gf8(0xec));
    assert_eq!(share, expected);
    assert_eq!(share.getx(), 2);
    assert_eq!(share.gety(), gf8(0xec));
}

#[test]
fn compact_round_trip_all_small_parameters() {
    let secret = GF16::from_bytes(&[0x12, 0x34]).unwrap();
    for n in 1..=6 {
        for k in 1..=n {
            let shares = CompactShamir::split(&secret, k, n);
            assert_eq!(shares.len(), n);
            for (i, s) in shares.iter().enumerate() {
                assert_eq!(s.getx() as usize, i + 1);
            }
            assert_eq!(CompactShamir::reconstruct(&shares, k), Some(secret));
        }
    }
}

#[test]
fn random_round_trip_small_parameters() {
    let secret = GF32::from_bytes(&[1, 2, 3, 4]).unwrap();
    for n in 1..=5 {
        for k in 1..=n {
            let shares = RandomShamir::split(&secret, k, n);
            assert_eq!(shares.len(), n);
            assert_eq!(RandomShamir::reconstruct(&shares, k), Some(secret));
        }
    }
}

#[test]
fn random_x_coordinates_are_distinct_and_nonzero() {
    let secret = gf8(0x11);
    let shares = RandomShamir::split(&secret, 3, 255);
    assert_eq!(shares.len(), 255);
    for (i, s) in shares.iter().enumerate() {
        assert!(!s.getx().is_zero());
        for t in &shares[i + 1..] {
            assert_ne!(s.getx(), t.getx());
        }
    }
}

#[test]
fn every_pair_and_triple_reconstructs() {
    let secret = GF64::from_bytes(&[9, 8, 7, 6, 5, 4, 3, 2]).unwrap();
    let shares = CompactShamir::split(&secret, 2, 6);
    for i in 0..6 {
        for j in 0..6 {
            if i != j {
                assert_eq!(CompactShamir::reconstruct(&[shares[i], shares[j]], 2), Some(secret));
            }
        }
    }
    let shares = CompactShamir::split(&secret, 3, 5);
    for i in 0..5 {
        for j in i + 1..5 {
            for l in j + 1..5 {
                let three = [shares[l], shares[i], shares[j]];
                assert_eq!(CompactShamir::reconstruct(&three, 3), Some(secret));
            }
        }
    }
}

#[test]
fn more_shares_than_threshold() {
    let secret = gf8(0x5e);
    let shares = CompactShamir::split(&secret, 4, 10);
    assert_eq!(CompactShamir::reconstruct(&shares, 4), Some(secret));
    assert_eq!(CompactShamir::reconstruct(&shares[3..], 4), Some(secret));
}

#[test]
fn big_compact_split() {
    let secret = gf8(0xc3);
    let shares = CompactShamir::split(&secret, 5, 255);
    assert_eq!(shares.len(), 255);
    assert_eq!(shares[254].getx(), 255);
    assert_eq!(CompactShamir::reconstruct(&shares[100..], 5), Some(secret));
}

#[test]
fn reconstruct_at_gives_back_shares() {
    let secret = GF128::from_bytes(&[0x44; 16]).unwrap();
    let shares = CompactShamir::split(&secret, 3, 6);
    for s in &shares {
        assert_eq!(CompactShamir::reconstruct_at(&shares[3..], 3, s.getx()), Some(*s));
    }
    assert_eq!(CompactShamir::reconstruct_at(&shares, 3, 0).unwrap().gety(), secret);
    let rshares = RandomShamir::split(&secret, 3, 6);
    for s in &rshares {
        assert_eq!(RandomShamir::reconstruct_at(&rshares[..3], 3, s.getx()), Some(*s));
    }
    assert_eq!(RandomShamir::reconstruct_at(&rshares, 3, GF128::zero()).unwrap().gety(), secret);
}

#[test]
fn compact_text_round_trip() {
    let secret = GF32::from_bytes(&[0xde, 0xad, 0xbe, 0xef]).unwrap();
    let shares = CompactShamir::split(&secret, 2, 200);
    for s in &shares {
        let line = s.to_text();
        assert_eq!(<CompactShamir as Shamir<GF32>>::parse_share(&line), Some(*s));
    }
    assert_eq!(shares[9].to_text().split('|').next(), Some("10"));
    assert_eq!(shares[199].to_text().split('|').next(), Some("200"));
}

#[test]
fn random_text_round_trip() {
    let secret = GF64::from_bytes(&[1, 2, 3, 4, 5, 6, 7, 8]).unwrap();
    let shares = RandomShamir::split(&secret, 3, 8);
    for s in &shares {
        let line = s.to_text();
        assert_eq!(line.len(), 33);
        assert_eq!(<RandomShamir as Shamir<GF64>>::parse_share(&line), Some(*s));
    }
}

#[test]
fn compact_text_form() {
    let share: Share<u8, GF16> = CompactShamir::share(7, GF16::from_bytes(&[0x0a, 0xbc]).unwrap());
    assert_eq!(share.to_text(), "7|0abc");
    let share: Share<u8, GF8> = CompactShamir::share(255, gf8(1));
    assert_eq!(share.to_text(), "255|01");
}

#[test]
fn compact_parse_rejects_ill_formed_lines() {
    let bad = ["", "2", "2|", "|ec", "256|ec", "0|ec", "00|ec", "+2|ec", "2|e", "2|ecec", "2|zz", "a|ec", "2|ec|", "2 |ec", "-1|ec"];
    for line in bad {
        assert_eq!(<CompactShamir as Shamir<GF8>>::parse_share(line), None, "line {line:?}");
    }
    assert_eq!(
        <CompactShamir as Shamir<GF8>>::parse_share("007|EC"),
        Some(CompactShamir::share(7, gf8(0xec)))
    );
}

#[test]
fn random_parse_rejects_ill_formed_lines() {
    let bad = ["", "ec", "ec|", "|ec", "0|ec", "ec|e", "gg|ec", "ec|ec|ec"];
    for line in bad {
        assert_eq!(<RandomShamir as Shamir<GF8>>::parse_share(line), None, "line {line:?}");
    }
    assert_eq!(
        <RandomShamir as Shamir<GF8>>::parse_share("0A|ec"),
        Some(RandomShamir::share(gf8(0x0a), gf8(0xec)))
    );
}

#[test]
fn parse_x_coordinates() {
    assert_eq!(<CompactShamir as Shamir<GF8>>::parse_x("17"), Some(17));
    assert_eq!(<CompactShamir as Shamir<GF8>>::parse_x("+17"), None);
    assert_eq!(<CompactShamir as Shamir<GF8>>::parse_x("017"), Some(17));
    assert_eq!(<CompactShamir as Shamir<GF8>>::parse_x("255"), Some(255));
    assert_eq!(<CompactShamir as Shamir<GF8>>::parse_x("256"), None);
    assert_eq!(<CompactShamir as Shamir<GF8>>::parse_x(""), None);
    assert_eq!(<CompactShamir as Shamir<GF8>>::parse_x("+"), None);
    assert_eq!(<CompactShamir as Shamir<GF8>>::parse_x("1x"), None);
    assert_eq!(<RandomShamir as Shamir<GF16>>::parse_x("beef"), GF16::from_bytes(&[0xbe, 0xef]));
    assert_eq!(<RandomShamir as Shamir<GF16>>::parse_x("bee"), None);
    assert_eq!(<RandomShamir as Shamir<GF16>>::parse_x("beefbeef"), None);
}

#[test]
fn parameter_checks() {
    assert!(check_split_parameters(1, 1));
    assert!(check_split_parameters(3, 255));
    assert!(!check_split_parameters(0, 3));
    assert!(!check_split_parameters(4, 3));
    assert!(!check_split_parameters(3, 256));
    let s1: Share<u8, GF8> = CompactShamir::share(1, gf8(1));
    let s2: Share<u8, GF8> = CompactShamir::share(2, gf8(1));
    assert!(check_reconstruct_parameters(&[s1, s2], 2));
    assert!(!check_reconstruct_parameters(&[s1, s1], 2));
    assert!(!check_reconstruct_parameters(&[s1, s2], 3));
    assert!(!check_reconstruct_parameters(&[s1, s2], 0));
}

#[test]
fn accept_x_rejects_zero_and_repeats() {
    let taken = vec![gf8(3), gf8(9)];
    assert!(!RandomShamir::accept_x(&taken, &GF8::zero()));
    assert!(!RandomShamir::accept_x(&taken, &gf8(9)));
    assert!(RandomShamir::accept_x(&taken, &gf8(4)));
}

#[test]
fn split_at_given_points() {
    let secret = gf8(0xab);
    let xs = vec![gf8(1), gf8(2), gf8(3)];
    let shares = RandomShamir::split_at_points(&secret, &vec![gf8(0x47)], &xs);
    assert_eq!(shares[0].gety(), gf8(0xec));
    assert_eq!(shares[1].gety(), gf8(0xab ^ 0x8e));
    assert_eq!(shares[2].getx(), gf8(3));
    assert_eq!(RandomShamir::reconstruct(&shares[1..], 2), Some(secret));
}

#[test]
fn evaluate_polynomial() {
    let secret = gf8(1);
    // 1 + x + x^2 at x = 2 is 1 ^ 2 ^ 4
    let y = horcrux::shamir::evaluate(&secret, &vec![gf8(1), gf8(1)], &gf8(2));
    assert_eq!(y, gf8(7));
}

#[test]
fn round_trip_on_128_bit_words() {
    let secret = GF256u128::from_bytes(&[0x9a; 32]).unwrap();
    let shares = CompactShamir::split(&secret, 3, 5);
    assert_eq!(CompactShamir::reconstruct(&shares[1..4], 3), Some(secret));
    let x = GF128u128::from_bytes(&[0x31; 16]).unwrap();
    let rshares = RandomShamir::split(&x, 2, 4);
    assert_eq!(RandomShamir::reconstruct(&rshares[2..], 2), Some(x));
    for s in &rshares {
        assert_eq!(<RandomShamir as Shamir<GF128u128>>::parse_share(&s.to_text()), Some(*s));
    }
}

#[test]
fn random_parameter_checks() {
    let a: Share<GF16, GF16> = RandomShamir::share(GF16::from_byte(1), GF16::from_byte(5));
    let b: Share<GF16, GF16> = RandomShamir::share(GF16::from_byte(2), GF16::from_byte(5));
    assert!(check_random_reconstruct_parameters(&[a, b], 2));
    assert!(!check_random_reconstruct_parameters(&[a, a], 2));
    assert!(!check_random_reconstruct_parameters(&[a, b], 3));
    assert!(!check_random_reconstruct_parameters(&[a, b], 0));
}

#[test]
fn random_split_has_n_shares_for_every_n() {
    let secret = GF8::from_byte(0x42);
    for n in [1usize, 2, 17, 254, 255] {
        let shares = RandomShamir::split(&secret, 1, n);
        assert_eq!(shares.len(), n);
        assert!(shares.iter().all(|s| s.gety() == secret));
    }
}
