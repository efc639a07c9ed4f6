use decimal_rs::Decimal;

        fn test_neg_assert_neg(val: &str, expected: &str) {
            let val = val.parse::<Decimal>().unwrap();
            let expected = expected.parse::<Decimal>().unwrap();
            {
                let neg_val = val.neg();
                assert_eq!(neg_val, expected);
            }
            {
                let neg_val = (&val).neg();
                assert_eq!(neg_val, expected);
            }
        }

#[test]
fn test_neg() {

        test_neg_assert_neg("00000.00000", "0");
        test_neg_assert_neg("1.0", "-1");
        test_neg_assert_neg("-1.0", "1");
        test_neg_assert_neg("1.234", "-1.234");
        test_neg_assert_neg("-1.234", "1.234");
    }

        fn ops_test_add_assert_add(val1: &str, val2: &str, expected: &str) {
            let var1 = val1.parse::<Decimal>().unwrap();
            let var2 = val2.parse::<Decimal>().unwrap();
            let expected = expected.parse::<Decimal>().unwrap();

            let result = var1.checked_add(&var2).unwrap();
            assert_eq!(result, expected);
        }

#[test]
fn ops_test_add() {

        ops_test_add_assert_add("0.000000001", "100000000", "100000000.000000001");
        ops_test_add_assert_add("123456789.987654321", "-123456789.987654321", "0");
        ops_test_add_assert_add("987654321.123456789", "-987654321.123456789", "0");
        ops_test_add_assert_add(
            "123456789.987654321",
            "987654321.123456789",
            "1111111111.11111111",
        );
        ops_test_add_assert_add("123456789.987654321", "00000.00000", "123456789.987654321");
        ops_test_add_assert_add(
            "123456789.987654321",
            "-987654321.123456789",
            "-864197531.135802468",
        );
        ops_test_add_assert_add("00000.00000", "987654321.123456789", "987654321.123456789");
        ops_test_add_assert_add("00000.00000", "00000.00000", "0");
        ops_test_add_assert_add(
            "00000.00000",
            "-987654321.123456789",
            "-987654321.123456789",
        );
        ops_test_add_assert_add(
            "-123456789.987654321",
            "987654321.123456789",
            "864197531.135802468",
        );
        ops_test_add_assert_add(
            "-123456789.987654321",
            "00000.00000",
            "-123456789.987654321",
        );
        ops_test_add_assert_add(
            "-123456789.987654321",
            "-987654321.123456789",
            "-1111111111.11111111",
        );
        ops_test_add_assert_add("-1e28", "-1e122", "-1e122");
    }

        fn ops_test_sub_assert_sub(val1: &str, val2: &str, expected1: &str, expected2: &str) {
            let var1 = val1.parse::<Decimal>().unwrap();
            let var2 = val2.parse::<Decimal>().unwrap();
            let expected1 = expected1.parse::<Decimal>().unwrap();
            let expected2 = expected2.parse::<Decimal>().unwrap();

            let result1 = var1.checked_sub(&var2).unwrap();
            assert_eq!(result1, expected1);

            let result2 = var2.checked_sub(&var1).unwrap();
            assert_eq!(result2, expected2);
        }

#[test]
fn ops_test_sub() {

        ops_test_sub_assert_sub(
            "0.000000001",
            "100000000",
            "-99999999.999999999",
            "99999999.999999999",
        );
        ops_test_sub_assert_sub(
            "123456789.987654321",
            "123456789.987654321",
            "0.000000000",
            "0.000000000",
        );
        ops_test_sub_assert_sub(
            "987654321.123456789",
            "987654321.123456789",
            "0.000000000",
            "0.000000000",
        );
        ops_test_sub_assert_sub(
            "123456789.987654321",
            "987654321.123456789",
            "-864197531.135802468",
            "864197531.135802468",
        );
        ops_test_sub_assert_sub(
            "123456789.987654321",
            "00000.00000",
            "123456789.987654321",
            "-123456789.987654321",
        );
        ops_test_sub_assert_sub(
            "123456789.987654321",
            "-987654321.123456789",
            "1111111111.111111110",
            "-1111111111.111111110",
        );
        ops_test_sub_assert_sub(
            "00000.00000",
            "987654321.123456789",
            "-987654321.123456789",
            "987654321.123456789",
        );
        ops_test_sub_assert_sub("00000.00000", "00000.00000", "0.00000", "0.00000");
        ops_test_sub_assert_sub(
            "00000.00000",
            "-987654321.123456789",
            "987654321.123456789",
            "-987654321.123456789",
        );
        ops_test_sub_assert_sub(
            "-123456789.987654321",
            "987654321.123456789",
            "-1111111111.111111110",
            "1111111111.111111110",
        );
        ops_test_sub_assert_sub(
            "-123456789.987654321",
            "00000.00000",
            "-123456789.987654321",
            "123456789.987654321",
        );
        ops_test_sub_assert_sub(
            "-123456789.987654321",
            "-987654321.123456789",
            "864197531.135802468",
            "-864197531.135802468",
        );
        ops_test_sub_assert_sub("-1e28", "-1e122", "1e122", "-1e122");
    }

        fn ops_test_mul_assert_mul(val1: &str, val2: &str, expected: &str) {
            let var1 = val1.parse::<Decimal>().unwrap();
            let var2 = val2.parse::<Decimal>().unwrap();
            let expected = expected.parse::<Decimal>().unwrap();

            let result = var1.checked_mul(&var2).unwrap();
            assert_eq!(result, expected);
        }

#[test]
fn ops_test_mul() {

        ops_test_mul_assert_mul("0.000000001", "100000000", "0.1");
        ops_test_mul_assert_mul(
            "123456789.987654321",
            "-123456789.987654321",
            "-15241578994055784.200731595789971041",
        );
        ops_test_mul_assert_mul(
            "987654321.123456789",
            "-987654321.123456789",
            "-975461058033836303.240512116750190521",
        );
        ops_test_mul_assert_mul(
            "123456789.987654321",
            "987654321.123456789",
            "121932632103337905.662094193112635269",
        );
        ops_test_mul_assert_mul("123456789.987654321", "00000.00000", "0");
        ops_test_mul_assert_mul(
            "123456789.987654321",
            "-987654321.123456789",
            "-121932632103337905.662094193112635269",
        );
        ops_test_mul_assert_mul("00000.00000", "987654321.123456789", "0");
        ops_test_mul_assert_mul("00000.00000", "00000.00000", "0");
        ops_test_mul_assert_mul("00000.00000", "-987654321.123456789", "0");
        ops_test_mul_assert_mul(
            "-123456789.987654321",
            "987654321.123456789",
            "-121932632103337905.662094193112635269",
        );
        ops_test_mul_assert_mul("-123456789.987654321", "00000.00000", "0");
        ops_test_mul_assert_mul(
            "-123456789.987654321",
            "-987654321.123456789",
            "121932632103337905.662094193112635269",
        );
    }

        fn test_div_assert_div(val1: &str, val2: &str, expected: &str) {
            let var1 = val1.parse::<Decimal>().unwrap();
            let var2 = val2.parse::<Decimal>().unwrap();
            let expected = expected.parse::<Decimal>().unwrap();

            let result = var1.checked_div(&var2).unwrap();
            assert_eq!(result, expected);
        }

#[test]
fn test_div() {

        test_div_assert_div("0.000000001", "100000000", "0.00000000000000001");
        test_div_assert_div("100000000", "0.000000001", "100000000000000000");
        test_div_assert_div("123456789.987654321", "123456789.987654321", "1");
        test_div_assert_div("987654321.123456789", "987654321.123456789", "1");
        test_div_assert_div(
            "123456789.987654321",
            "987654321.123456789",
            "0.12499999984531250017595703104984887718",
        );
        test_div_assert_div(
            "987654321.123456789",
            "123456789.987654321",
            "8.000000009900000000990000000099",
        );
        test_div_assert_div("00000.00000", "123456789.987654321", "0");
        test_div_assert_div(
            "123456789.987654321",
            "-987654321.123456789",
            "-0.12499999984531250017595703104984887718",
        );
        test_div_assert_div(
            "-987654321.123456789",
            "123456789.987654321",
            "-8.000000009900000000990000000099",
        );
        test_div_assert_div("00000.00000", "987654321.123456789", "0");
        test_div_assert_div("00000.00000", "-987654321.123456789", "0");
        test_div_assert_div(
            "-123456789.987654321",
            "987654321.123456789",
            "-0.12499999984531250017595703104984887718",
        );
        test_div_assert_div(
            "987654321.123456789",
            "-123456789.987654321",
            "-8.000000009900000000990000000099",
        );
        test_div_assert_div("00000.00000", "-123456789.987654321", "0");
        test_div_assert_div(
            "-123456789.987654321",
            "-987654321.123456789",
            "0.12499999984531250017595703104984887718",
        );
        test_div_assert_div(
            "-987654321.123456789",
            "-123456789.987654321",
            "8.000000009900000000990000000099",
        );
        test_div_assert_div("1", "3", "0.33333333333333333333333333333333333333");
        test_div_assert_div("1", "33", "0.030303030303030303030303030303030303030");
        test_div_assert_div(
            "-3.1415926",
            "-0.12345678901234567890123456789012345678",
            "25.446900289022102624101133879320318304",
        );
    }

        fn test_rem_assert_rem(val1: &str, val2: &str, expected: &str) {
            let var1 = val1.parse::<Decimal>().unwrap();
            let var2 = val2.parse::<Decimal>().unwrap();
            let expected = expected.parse::<Decimal>().unwrap();

            let result = var1.checked_rem(&var2).unwrap();
            assert_eq!(result, expected);
        }

#[test]
fn test_rem() {

        test_rem_assert_rem("0.000000001", "100000000", "0.000000001");
        test_rem_assert_rem("100000000", "0.000000001", "0.000000000");
        test_rem_assert_rem("123456789.987654321", "123456789.987654321", "0");
        test_rem_assert_rem("987654321.123456789", "987654321.123456789", "0");
        test_rem_assert_rem(
            "123456789.987654321",
            "987654321.123456789",
            "123456789.987654321",
        );
        test_rem_assert_rem("987654321.123456789", "123456789.987654321", "1.222222221");
        test_rem_assert_rem("00000.00000", "123456789.987654321", "0");
        test_rem_assert_rem(
            "123456789.987654321",
            "-987654321.123456789",
            "123456789.987654321",
        );
        test_rem_assert_rem(
            "-987654321.123456789",
            "123456789.987654321",
            "-1.222222221",
        );
        test_rem_assert_rem("00000.00000", "987654321.123456789", "0.000000000");
        test_rem_assert_rem("00000.00000", "-987654321.123456789", "0.000000000");
        test_rem_assert_rem(
            "-123456789.987654321",
            "987654321.123456789",
            "-123456789.987654321",
        );
        test_rem_assert_rem("987654321.123456789", "-123456789.987654321", "1.222222221");
        test_rem_assert_rem("00000.00000", "-123456789.987654321", "0.000000000");
        test_rem_assert_rem(
            "-123456789.987654321",
            "-987654321.123456789",
            "-123456789.987654321",
        );
        test_rem_assert_rem(
            "-987654321.123456789",
            "-123456789.987654321",
            "-1.222222221",
        );
        test_rem_assert_rem("100", "5", "0");
        test_rem_assert_rem("2e1", "1", "0");
        test_rem_assert_rem("2", "1", "0");
        test_rem_assert_rem("1", "3", "1");
        test_rem_assert_rem("1", "0.5", "0");
        test_rem_assert_rem("1.5", "1", "0.5");
        test_rem_assert_rem("1", "3e-2", "1e-2");
        test_rem_assert_rem("10", "0.003", "0.001");
        test_rem_assert_rem("3", "2", "1");
        test_rem_assert_rem("-3", "2", "-1");
        test_rem_assert_rem("3", "-2", "1");
        test_rem_assert_rem("-3", "-2", "-1");
        test_rem_assert_rem("-3", "-1", "0");
        test_rem_assert_rem("12.34", "1.233", "0.01");
        test_rem_assert_rem("5e42", "0.3", "0.2");
        test_rem_assert_rem("-5e42", "0.3", "-0.2");
        test_rem_assert_rem("5e42", "-0.3", "0.2");
        test_rem_assert_rem("-5e42", "-0.3", "-0.2");
        test_rem_assert_rem("5e42", "0.03", "0.02");
        test_rem_assert_rem("5e42", "3", "2");
        test_rem_assert_rem("5e60", "3", "2");
        test_rem_assert_rem("5e60", "300", "200");
        test_rem_assert_rem("5e76", "3", "2");
        test_rem_assert_rem("5e77", "3", "2");
        test_rem_assert_rem("5e-42", "3e-84", "2e-84");
        test_rem_assert_rem("3", "5e42", "3");
    }

        fn test_sum_assert_sum(vals: &[&str], expected: &str) {
            let result: Decimal = vals.iter().map(|val| val.parse::<Decimal>().unwrap()).fold(Decimal::zero(), |acc, x| acc.checked_add(&x).unwrap());
            let expected = expected.parse::<Decimal>().unwrap();
            assert_eq!(result, expected);
        }

#[test]
fn test_sum() {

        test_sum_assert_sum(&["1", "10", "100", "1000", "10000"], "11111");
        test_sum_assert_sum(&["-1", "-10", "-100", "-1000", "-10000"], "-11111");
        test_sum_assert_sum(&["0", "0", "0", "0", "0"], "0");
    }

        fn test_product_assert_product(vals: &[&str], expected: &str) {
            let result: Decimal = vals
                .iter()
                .map(|val| val.parse::<Decimal>().unwrap())
                .fold(Decimal::one(), |acc, x| acc.checked_mul(&x).unwrap());
            let expected = expected.parse::<Decimal>().unwrap();
            assert_eq!(result, expected);
        }

#[test]
fn test_product() {

        test_product_assert_product(&["1", "2", "3", "4", "5"], "120");
        test_product_assert_product(&["-1", "-2", "-3", "-4", "-5"], "-120");
        test_product_assert_product(&["0", "0", "0", "0", "0"], "0");
    }

#[test]
fn rem_rescales_across_many_digits() {
    let a: Decimal = "5e125".parse().unwrap();
    let b: Decimal = "3e-130".parse().unwrap();
    assert_eq!(a.checked_rem(&b).unwrap(), "2e-130".parse::<Decimal>().unwrap());
    assert!(a.checked_rem(&Decimal::zero()).is_none());
}

#[test]
fn scenario_add_widens_scale() {
    let a: Decimal = "12345678901.23456789".parse().unwrap();
    let b: Decimal = "123456.7890123456789".parse().unwrap();
    assert_eq!(a.checked_add(&b).unwrap().to_string(), "12345802358.0235802356789");
}

#[test]
fn scenario_sqrt_two() {
    let a: Decimal = "2".parse().unwrap();
    assert_eq!(a.sqrt().unwrap().to_string(), "1.4142135623730950488016887242096980786");
    assert!("-2".parse::<Decimal>().unwrap().sqrt().is_none());
}

#[test]
fn scenario_exact_product() {
    let a: Decimal = "123456789.987654321".parse().unwrap();
    let b: Decimal = "987654321.123456789".parse().unwrap();
    assert_eq!(a.checked_mul(&b).unwrap().to_string(), "121932632103337905.662094193112635269");
}

#[test]
fn scenario_one_third() {
    let a: Decimal = "1".parse().unwrap();
    let b: Decimal = "3".parse().unwrap();
    assert_eq!(a.checked_div(&b).unwrap().to_string(), "0.33333333333333333333333333333333333333");
    assert!(a.checked_div(&Decimal::zero()).is_none());
}

#[test]
fn scenario_carry_into_39th_digit() {
    let a: Decimal = "99999999999999999999999999999999999999".parse().unwrap();
    let b: Decimal = "1".parse().unwrap();
    let r = a.checked_add(&b).unwrap();
    assert_eq!(r, "1e38".parse::<Decimal>().unwrap());
    assert_eq!(r, Decimal::from_parts(1, -38, false).unwrap());
    assert_eq!(r.into_parts(), (10u128.pow(37), -1, false));
}

#[test]
fn scenario_encode_bytes() {
    let a: Decimal = "184467440.73709551615".parse().unwrap();
    let bytes = a.encode();
    assert_eq!(bytes.len(), 10);
    assert_eq!(bytes[0], 0x02);
    assert_eq!(bytes[1], 0x0B);
    assert_eq!(&bytes[2..], &[0xFF; 8]);
    assert_eq!(Decimal::decode(&bytes), a);
    assert_eq!(Decimal::decode(&bytes).into_parts(), a.into_parts());
}

#[test]
fn compact_encoding_of_small_integers() {
    assert_eq!(Decimal::from(200u32).compact_encode(), vec![200]);
    assert_eq!(Decimal::from(300u32).compact_encode(), vec![44, 1]);
    assert_eq!(Decimal::from(300u32).encode(), vec![2, 0, 44, 1]);
    assert_eq!(Decimal::from(-3i32).compact_encode(), vec![3, 0, 3]);
}

#[test]
fn sign_of_product_and_quotient() {
    let a: Decimal = "-1.5".parse().unwrap();
    let b: Decimal = "2".parse().unwrap();
    assert!(a.checked_mul(&b).unwrap().is_sign_negative());
    assert!(a.checked_mul(&a).unwrap().is_sign_positive());
    assert!(a.checked_div(&b).unwrap().is_sign_negative());
    let z = a.checked_mul(&Decimal::zero()).unwrap();
    assert!(z.is_zero() && z.is_sign_positive());
    assert_eq!(Decimal::zero().neg().into_parts(), (0, 0, false));
}

#[test]
fn add_then_sub_gives_back_operand() {
    let a: Decimal = "123.456".parse().unwrap();
    let b: Decimal = "-98765.4321".parse().unwrap();
    assert_eq!(a.checked_add(&b).unwrap().checked_sub(&b).unwrap(), a);
}

#[test]
fn mul_then_div_gives_back_operand() {
    let a: Decimal = "123.456".parse().unwrap();
    let b: Decimal = "-0.25".parse().unwrap();
    assert_eq!(a.checked_mul(&b).unwrap().checked_div(&b).unwrap(), a);
}

#[test]
fn normalized_forms_of_equal_values_agree() {
    let a = Decimal::from_parts(12345, 3, false).unwrap();
    let b = Decimal::from_parts(123450, 4, false).unwrap();
    assert_eq!(a, b);
    assert_eq!(a.normalize().into_parts(), b.normalize().into_parts());
}

#[test]
fn display_then_parse_round_trips() {
    for s in ["0", "-1.5", "123456789.000000001", "1e-100", "99999999999999999999999999999999999999"] {
        let d: Decimal = s.parse().unwrap();
        assert_eq!(d.to_string().parse::<Decimal>().unwrap(), d);
    }
}
