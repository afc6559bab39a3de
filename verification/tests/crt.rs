use crt_eg::{
    bezout_coeffs, collect_parsed, combine, gate_in_mod, parse, product, prove_solution,
    solution, split_list, BigInt, CrtError,
};

fn big(v: i64) -> BigInt {
    BigInt::from_signed_bytes_le(num::BigInt::from(v).to_signed_bytes_le())
}

fn num_of(v: &BigInt) -> num::BigInt {
    num::BigInt::from_signed_bytes_le(v.as_signed_bytes_le())
}

fn bigs(vs: &[i64]) -> Vec<BigInt> {
    vs.iter().map(|v| big(*v)).collect()
}

fn pair(r: (BigInt, BigInt)) -> (num::BigInt, num::BigInt) {
    (num_of(&r.0), num_of(&r.1))
}

fn gate(s: i64, n: i64) -> num::BigInt {
    num_of(&gate_in_mod(&big(s), &big(n)).unwrap())
}

fn end_to_end(moduli: &[i64], congruents: &[i64]) -> Result<BigInt, CrtError> {
    let n_i = bigs(moduli);
    let a_i = bigs(congruents);
    let big_n = product(&n_i);
    let mut terms = Vec::new();
    for idx in 0..n_i.len() {
        terms.push(solution(&big_n, &n_i[idx], &a_i[idx])?);
    }
    let s = combine(&terms, &big_n)?;
    prove_solution(&s, &n_i, &a_i)?;
    Ok(s)
}

#[test]
fn bezout() {
    assert_eq!(
        bezout_coeffs(&BigInt::from_i64(2), &BigInt::from_i64(3)),
        (BigInt::from_i64(-1), BigInt::from_i64(1))
    );
    assert_eq!(
        bezout_coeffs(&BigInt::from_i64(7), &BigInt::from_i64(2)),
        (BigInt::from_i64(1), BigInt::from_i64(-3))
    );
}

fn gated(s: i64, n: i64) -> BigInt {
    gate_in_mod(&BigInt::from_i64(s), &BigInt::from_i64(n)).unwrap()
}

#[test]
fn gate_works() {
    assert_eq!(gated(-6, 3), BigInt::from_i64(0));
    assert_eq!(gated(-5, 3), BigInt::from_i64(1));
    assert_eq!(gated(-4, 3), BigInt::from_i64(2));
    assert_eq!(gated(-3, 3), BigInt::from_i64(0));
    assert_eq!(gated(-2, 3), BigInt::from_i64(1));
    assert_eq!(gated(-1, 3), BigInt::from_i64(2));
    assert_eq!(gated(0, 3), BigInt::from_i64(0));
    assert_eq!(gated(1, 3), BigInt::from_i64(1));
    assert_eq!(gated(2, 3), BigInt::from_i64(2));
    assert_eq!(gated(3, 3), BigInt::from_i64(0));
    assert_eq!(gated(4, 3), BigInt::from_i64(1));
    assert_eq!(gated(5, 3), BigInt::from_i64(2));
    assert_eq!(gated(6, 3), BigInt::from_i64(0));
}

#[test]
fn from_i64_agrees_with_num() {
    let samples = [
        0i64, 1, -1, 127, 128, -128, -129, 255, 256, -256, -257, 32767, 32768, -32768, -32769,
        65535, 65536, 1 << 40, -(1 << 40), i64::MAX, i64::MIN, i64::MAX - 1, i64::MIN + 1,
    ];
    for v in samples {
        let made = BigInt::from_i64(v);
        assert_eq!(num_of(&made), num::BigInt::from(v));
        assert_eq!(made.as_signed_bytes_le(), &num::BigInt::from(v).to_signed_bytes_le()[..]);
    }
}

#[test]
fn equality_is_by_value() {
    assert_eq!(BigInt::from_signed_bytes_le(vec![]), BigInt::from_i64(0));
    assert_eq!(BigInt::from_signed_bytes_le(vec![5, 0, 0]), BigInt::from_i64(5));
    assert_eq!(BigInt::from_signed_bytes_le(vec![0xfb, 0xff]), BigInt::from_i64(-5));
    assert_ne!(BigInt::from_i64(5), BigInt::from_i64(-5));
    assert_ne!(BigInt::from_i64(255), BigInt::from_i64(-1));
}

#[test]
fn bezout_with_zero_divisor() {
    assert_eq!(
        pair(bezout_coeffs(&big(5), &big(0))),
        (num::BigInt::from(1), num::BigInt::from(0))
    );
    assert_eq!(
        pair(bezout_coeffs(&big(0), &big(0))),
        (num::BigInt::from(1), num::BigInt::from(0))
    );
}

#[test]
fn bezout_identity_on_samples() {
    let samples: [(i64, i64, i64); 5] =
        [(240, 46, 2), (17, 5, 1), (35, 3, 1), (1, 1, 1), (0, 9, 9)];
    for (a, b, g) in samples {
        let (s, t) = pair(bezout_coeffs(&big(a), &big(b)));
        assert_eq!(num::BigInt::from(a) * s + num::BigInt::from(b) * t, num::BigInt::from(g));
    }
}

#[test]
fn bezout_of_240_and_46() {
    assert_eq!(
        pair(bezout_coeffs(&big(240), &big(46))),
        (num::BigInt::from(-9), num::BigInt::from(47))
    );
}

#[test]
fn bezout_on_a_negative_operand_reaches_the_negated_divisor() {
    let (s, t) = pair(bezout_coeffs(&big(-1), &big(0)));
    assert_eq!((s.clone(), t.clone()), (num::BigInt::from(1), num::BigInt::from(0)));
    assert_eq!(num::BigInt::from(-1) * s + num::BigInt::from(0) * t, num::BigInt::from(-1));
}

#[test]
fn gate_is_in_range_and_congruent() {
    for n in 1..8i64 {
        for s in -40..40i64 {
            let r = gate(s, n);
            assert!(r >= num::BigInt::from(0) && r < num::BigInt::from(n));
            assert_eq!(r, num::BigInt::from(s.rem_euclid(n)));
        }
    }
}

#[test]
fn gate_is_idempotent() {
    for s in -20..20i64 {
        let once = gate_in_mod(&big(s), &big(7)).unwrap();
        let twice = gate_in_mod(&once, &big(7)).unwrap();
        assert_eq!(num_of(&once), num_of(&twice));
    }
}

#[test]
fn gate_refuses_a_zero_modulus() {
    assert!(matches!(gate_in_mod(&big(5), &big(0)), Err(CrtError::InvalidModulus)));
    assert!(matches!(gate_in_mod(&big(-5), &big(0)), Err(CrtError::InvalidModulus)));
}

#[test]
fn gate_at_a_negative_modulus_truncates() {
    assert_eq!(gate(7, -3), num::BigInt::from(1));
    assert_eq!(gate(-7, -3), num::BigInt::from(-1));
}

#[test]
fn gate_on_a_large_value() {
    let s: num::BigInt = "-123456789012345678901234567890123456789".parse().unwrap();
    let n: num::BigInt = "1000000000000000000000000000057".parse().unwrap();
    let r = gate_in_mod(
        &BigInt::from_signed_bytes_le(s.to_signed_bytes_le()),
        &BigInt::from_signed_bytes_le(n.to_signed_bytes_le()),
    )
    .unwrap();
    let expected = ((&s % &n) + &n) % &n;
    assert_eq!(num_of(&r), expected);
}

#[test]
fn solution_terms_for_3_5_7() {
    let big_n = big(105);
    assert_eq!(num_of(&solution(&big_n, &big(3), &big(2)).unwrap()), num::BigInt::from(-70));
    assert_eq!(num_of(&solution(&big_n, &big(5), &big(3)).unwrap()), num::BigInt::from(63));
    assert_eq!(num_of(&solution(&big_n, &big(7), &big(2)).unwrap()), num::BigInt::from(30));
}

#[test]
fn solution_refuses_a_modulus_that_does_not_divide() {
    assert!(matches!(solution(&big(10), &big(3), &big(1)), Err(CrtError::Divisibility)));
    assert!(matches!(solution(&big(10), &big(0), &big(1)), Err(CrtError::Divisibility)));
}

#[test]
fn solution_refuses_a_zero_modulus_of_a_zero_product() {
    assert!(matches!(solution(&big(0), &big(0), &big(1)), Err(CrtError::InvalidModulus)));
}

#[test]
fn solution_refuses_a_shared_factor() {
    match solution(&big(24), &big(4), &big(1)) {
        Err(CrtError::Coprimality { cofactor }) => {
            assert_eq!(num_of(&cofactor), num::BigInt::from(6))
        }
        other => panic!("{:?}", other),
    }
}

#[test]
fn end_to_end_3_5_7() {
    let moduli = bigs(&[3, 5, 7]);
    assert_eq!(num_of(&product(&moduli)), num::BigInt::from(105));
    let s = end_to_end(&[3, 5, 7], &[2, 3, 2]).unwrap();
    assert_eq!(num_of(&s), num::BigInt::from(23));
    assert_eq!(num_of(&s) % 3, num::BigInt::from(2));
    assert_eq!(num_of(&s) % 5, num::BigInt::from(3));
    assert_eq!(num_of(&s) % 7, num::BigInt::from(2));
}

#[test]
fn end_to_end_4_6_is_not_coprime() {
    assert!(matches!(end_to_end(&[4, 6], &[1, 1]), Err(CrtError::Coprimality { .. })));
    assert!(matches!(end_to_end(&[4, 6], &[0, 5]), Err(CrtError::Coprimality { .. })));
}

#[test]
fn end_to_end_with_a_residue_out_of_range_fails_the_check() {
    match end_to_end(&[3, 5], &[5, 1]) {
        Err(CrtError::Verification { index, expected, actual }) => {
            assert_eq!(index, 0);
            assert_eq!(num_of(&expected), num::BigInt::from(5));
            assert_eq!(num_of(&actual), num::BigInt::from(2));
        }
        other => panic!("{:?}", other),
    }
}

#[test]
fn combine_does_not_depend_on_the_order() {
    let big_n = big(105);
    let forward = bigs(&[-70, 63, 30]);
    let backward = bigs(&[30, 63, -70]);
    let mixed = bigs(&[63, -70, 30]);
    let a = num_of(&combine(&forward, &big_n).unwrap());
    assert_eq!(a, num::BigInt::from(23));
    assert_eq!(num_of(&combine(&backward, &big_n).unwrap()), a);
    assert_eq!(num_of(&combine(&mixed, &big_n).unwrap()), a);
}

#[test]
fn combine_of_nothing_is_zero() {
    assert_eq!(num_of(&combine(&[], &big(5)).unwrap()), num::BigInt::from(0));
    assert!(matches!(combine(&[], &big(0)), Err(CrtError::InvalidModulus)));
}

#[test]
fn product_of_nothing_is_one() {
    assert_eq!(num_of(&product(&[])), num::BigInt::from(1));
}

#[test]
fn product_of_large_moduli() {
    let moduli = parse("1000000007,1000000009,998244353").unwrap();
    let expected: num::BigInt = "998244368971909710889394239".parse().unwrap();
    assert_eq!(num_of(&product(&moduli)), expected);
}

#[test]
fn prove_solution_accepts_23() {
    assert!(prove_solution(&big(23), &bigs(&[3, 5, 7]), &bigs(&[2, 3, 2])).is_ok());
    assert!(prove_solution(&big(23), &[], &[]).is_ok());
}

#[test]
fn prove_solution_stops_at_the_first_mismatch() {
    match prove_solution(&big(23), &bigs(&[3, 5, 7]), &bigs(&[2, 4, 3])) {
        Err(CrtError::Verification { index, expected, actual }) => {
            assert_eq!(index, 1);
            assert_eq!(num_of(&expected), num::BigInt::from(4));
            assert_eq!(num_of(&actual), num::BigInt::from(3));
        }
        other => panic!("{:?}", other),
    }
}

#[test]
fn prove_solution_uses_the_truncating_remainder() {
    assert!(prove_solution(&big(-7), &bigs(&[3]), &bigs(&[-1])).is_ok());
    assert!(matches!(
        prove_solution(&big(-7), &bigs(&[3]), &bigs(&[2])),
        Err(CrtError::Verification { index: 0, .. })
    ));
}

#[test]
fn prove_solution_refuses_a_zero_modulus() {
    assert!(matches!(
        prove_solution(&big(23), &bigs(&[3, 0]), &bigs(&[2, 0])),
        Err(CrtError::InvalidModulus)
    ));
}

#[test]
fn prove_solution_refuses_lists_of_different_length() {
    assert!(matches!(
        prove_solution(&big(23), &bigs(&[3, 5]), &bigs(&[2])),
        Err(CrtError::InputShape { moduli: 2, congruents: 1 })
    ));
}

#[test]
fn parse_reads_a_list() {
    let v = parse("3,5,-7,+11").unwrap();
    let got: Vec<num::BigInt> = v.iter().map(num_of).collect();
    assert_eq!(
        got,
        vec![
            num::BigInt::from(3),
            num::BigInt::from(5),
            num::BigInt::from(-7),
            num::BigInt::from(11)
        ]
    );
}

#[test]
fn parse_reads_one_large_number() {
    let v = parse("123456789012345678901234567890").unwrap();
    assert_eq!(v.len(), 1);
    let expected: num::BigInt = "123456789012345678901234567890".parse().unwrap();
    assert_eq!(num_of(&v[0]), expected);
}

#[test]
fn parse_names_the_first_bad_piece() {
    assert!(matches!(parse("1,x,3,y"), Err(CrtError::Parse { index: 1 })));
    assert!(matches!(parse(""), Err(CrtError::Parse { index: 0 })));
    assert!(matches!(parse("1,"), Err(CrtError::Parse { index: 1 })));
    assert!(matches!(parse(",1"), Err(CrtError::Parse { index: 0 })));
    assert!(matches!(parse("1, 2"), Err(CrtError::Parse { index: 1 })));
}

#[test]
fn bytes_round_trip() {
    for v in [0i64, 1, -1, 127, 128, -128, -129, 255, 256, 65535, -65536, i64::MAX, i64::MIN] {
        assert_eq!(num_of(&big(v)), num::BigInt::from(v));
        assert_eq!(num_of(&big(v).copy()), num::BigInt::from(v));
    }
    assert_eq!(num_of(&BigInt::from_signed_bytes_le(vec![])), num::BigInt::from(0));
    assert_eq!(num_of(&BigInt::from_signed_bytes_le(vec![0xfa])), num::BigInt::from(-6));
    assert_eq!(num_of(&BigInt::from_signed_bytes_le(vec![0x00, 0x01])), num::BigInt::from(256));
}

#[test]
fn solve_3_5_7() {
    let s = crt_eg::solve(&bigs(&[3, 5, 7]), &bigs(&[2, 3, 2])).unwrap();
    assert_eq!(num_of(&s), num::BigInt::from(23));
}

#[test]
fn solve_agrees_with_the_steps() {
    let moduli: [i64; 4] = [11, 13, 17, 19];
    let congruents: [i64; 4] = [10, 0, 5, 18];
    let whole = crt_eg::solve(&bigs(&moduli), &bigs(&congruents)).unwrap();
    let steps = end_to_end(&moduli, &congruents).unwrap();
    assert_eq!(num_of(&whole), num_of(&steps));
    for (m, a) in moduli.iter().zip(congruents.iter()) {
        assert_eq!(num_of(&whole) % *m, num::BigInt::from(*a));
    }
}

#[test]
fn solve_names_each_error() {
    assert!(matches!(
        crt_eg::solve(&bigs(&[4, 6]), &bigs(&[1, 1])),
        Err(CrtError::Coprimality { .. })
    ));
    assert!(matches!(
        crt_eg::solve(&bigs(&[3, 5]), &bigs(&[1])),
        Err(CrtError::InputShape { moduli: 2, congruents: 1 })
    ));
    assert!(matches!(
        crt_eg::solve(&bigs(&[0]), &bigs(&[1])),
        Err(CrtError::InvalidModulus)
    ));
    assert!(matches!(
        crt_eg::solve(&bigs(&[3, 0]), &bigs(&[1, 1])),
        Err(CrtError::Coprimality { .. })
    ));
    assert!(matches!(
        crt_eg::solve(&bigs(&[3, 5]), &bigs(&[4, 1])),
        Err(CrtError::Verification { index: 0, .. })
    ));
}

#[test]
fn solve_of_no_congruence_is_zero() {
    assert_eq!(num_of(&crt_eg::solve(&[], &[]).unwrap()), num::BigInt::from(0));
}

#[test]
fn split_list_cuts_at_every_comma() {
    assert_eq!(split_list("3,5,7"), vec!["3", "5", "7"]);
    assert_eq!(split_list(""), vec![""]);
    assert_eq!(split_list("12"), vec!["12"]);
    assert_eq!(split_list(","), vec!["", ""]);
    assert_eq!(split_list("a,,b,"), vec!["a", "", "b", ""]);
    assert_eq!(split_list("\u{2208},\u{2115}x"), vec!["\u{2208}", "\u{2115}x"]);
}

#[test]
fn collect_parsed_keeps_the_order_or_names_the_gap() {
    let all = [Some(BigInt::from_i64(3)), Some(BigInt::from_i64(-5))];
    assert_eq!(collect_parsed(&all).unwrap(), vec![BigInt::from_i64(3), BigInt::from_i64(-5)]);
    let gap = [Some(BigInt::from_i64(3)), None, Some(BigInt::from_i64(7)), None];
    assert!(matches!(collect_parsed(&gap), Err(CrtError::Parse { index: 1 })));
    assert_eq!(collect_parsed(&[]).unwrap(), Vec::<BigInt>::new());
}

#[test]
fn solve_of_large_moduli_meets_every_congruence() {
    let moduli = parse("1000000007,1000000009,998244353,18446744073709551557").unwrap();
    let congruents = parse("123456789,987654321,555555555,12345678901234567890").unwrap();
    let x = crt_eg::solve(&moduli, &congruents).unwrap();
    let big_n = product(&moduli);
    assert!(num_of(&x) >= num::BigInt::from(0) && num_of(&x) < num_of(&big_n));
    for (m, a) in moduli.iter().zip(congruents.iter()) {
        assert_eq!(num_of(&x) % num_of(m), num_of(a));
    }
}
