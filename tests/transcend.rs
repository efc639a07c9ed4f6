use decimal_rs::Decimal;

        fn test_pow_assert_pow_uint(base: &str, exponent: u64, expected: &str) {
            let decimal = base.parse::<Decimal>().unwrap().pow_u64(exponent).unwrap();
            let expected = expected.parse::<Decimal>().unwrap();
            assert_eq!(decimal, expected);
        }

        fn test_pow_assert_pow_int(base: &str, exponent: i64, expected: &str) {
            let decimal = base.parse::<Decimal>().unwrap().pow_i64(exponent).unwrap();
            let expected = expected.parse::<Decimal>().unwrap();
            assert_eq!(decimal, expected);
        }

        fn test_pow_assert_pow_decimal(base: &str, exponent: &str, expected: &str) {
            let exponent = exponent.parse::<Decimal>().unwrap();
            let decimal = base.parse::<Decimal>().unwrap().checked_pow(&exponent).unwrap();
            let expected = expected.parse::<Decimal>().unwrap();
            assert_eq!(decimal, expected);
        }

#[test]
fn test_pow() {

        test_pow_assert_pow_uint("0", 0, "1");
        test_pow_assert_pow_uint("0", 2, "0");
        test_pow_assert_pow_uint("30.03", 11, "17910538937279543.381440174900003379415");
        test_pow_assert_pow_uint("0.9999999", 123456, "0.98773029366878871282374552006725694652");
        test_pow_assert_pow_uint("2", 418, "676921312041214565326761275425557544830000000000000000000000000000000000000000000000000000000000000000000000000000000000000000");
        test_pow_assert_pow_int("3.333", 3, "37.025927037");
        test_pow_assert_pow_int("123456", -2, "0.000000000065610839816062225597621740797803625383");
        test_pow_assert_pow_int("16.66666", -6, "0.000000046656111974556764327215254493713994963");
        test_pow_assert_pow_int("15", -15, "0.0000000000000000022836582605211672220051325163651837732");
        test_pow_assert_pow_int(
            "2",
            200,
            "1606938044258990275541962092341162602500000000000000000000000",
        );
        test_pow_assert_pow_int("100", -9223372036854775808, "0");
        test_pow_assert_pow_decimal("-3", "0", "1");
        test_pow_assert_pow_decimal("3.333", "3", "37.025927037");
        test_pow_assert_pow_decimal("3.3", "2.2", "13.827086118044145328600539201031810464");
        test_pow_assert_pow_decimal("2", "50.1", "1206709641626009.0372720478765230064730");
        test_pow_assert_pow_decimal("2", "-50.1", "0.00000000000000082869976795124193101335598234941507825");
        test_pow_assert_pow_decimal("123456", "2.2", "158974271527.98285353227767713306007512");
        test_pow_assert_pow_decimal(
            "123456",
            "-12.2",
            "0.0000000000000000000000000000000000000000000000000000000000000076480574247485409303800372083765338615",
        );
        test_pow_assert_pow_decimal("123456.789", "0.9999999", "123456.64426370977396175023229704225849");
        test_pow_assert_pow_decimal(
            "234567890123456.789",
            "5.8822",
            "3379043109285747020459941490972051546800000000000000000000000000000000000000000000000",
        );
        test_pow_assert_pow_decimal("0.9999999", "0.789", "0.99999992109999916760496639898664270396");
        test_pow_assert_pow_decimal("0.9999999", "123456.789", "0.98773021573686772017452509110356382471");
        test_pow_assert_pow_decimal(
            "0.9",
            "22222220000000000000000000000000000000000000000000000000000000",
            "0",
        );
        test_pow_assert_pow_decimal(
            "1",
            "22222220000000000000000000000000000000000000000000000000000000",
            "1",
        );
        test_pow_assert_pow_decimal("2", "418.1", "725506298471023093722890872060236907240000000000000000000000000000000000000000000000000000000000000000000000000000000000000000");
        test_pow_assert_pow_decimal(
            "1.0000000000000000000000000000000000001",
            "340282366920938463463374607431768211450",
            "600171577097065.40413095725314413792835",
        );
        test_pow_assert_pow_decimal("100", "-170141183460469231731687303715884105720", "0");
        test_pow_assert_pow_decimal("5", "-4188888888888888888444444444444444000000000000000000000000", "0");
    }

        fn test_ln_assert_ln(val: &str, expected: &str) {
            let decimal = val.parse::<Decimal>().unwrap().ln().unwrap();
            let expected = expected.parse::<Decimal>().unwrap();
            assert_eq!(decimal, expected);
        }

#[test]
fn test_ln() {

        test_ln_assert_ln(
            "1.0000000000000000000000000000000000001",
            "0.000000000000000000000000000000000000099999999999999999999999999999999999996",
        );
        test_ln_assert_ln("0.000123456789", "-8.9996193497605301750219641082491662814");
        test_ln_assert_ln("13.3", "2.5877640352277080810963887206466690594");
        test_ln_assert_ln("1000", "6.9077552789821370520539743640530926228");
        test_ln_assert_ln("12345.67891", "9.4210613950018353041649175905084849130");
        test_ln_assert_ln("1500000000000000", "34.944241503018849642247884935729812251");
        test_ln_assert_ln(
            "1500000000000000000000000000000.123456",
            "69.483017897929534902517756755995357669",
        );
        test_ln_assert_ln(
            "15000000000000000000000000000000000000000000000000000000000000000000000000000",
            "175.40193217565563636734536367147602892",
        );
    }

        fn test_exp_assert_exp(exponent: &str, expected: &str) {
            let decimal = exponent.parse::<Decimal>().unwrap().exp().unwrap();
            let expected = expected.parse::<Decimal>().unwrap();
            assert_eq!(decimal, expected);
        }

#[test]
fn test_exp() {

        test_exp_assert_exp("1", "2.7182818284590452353602874713526624975");
        test_exp_assert_exp("0.00000012", "1.0000001200000072000002880000086400002");
        test_exp_assert_exp(
            "0.9999999999999999999999999999999999999",
            "2.7182818284590452353602874713526624971",
        );
        test_exp_assert_exp("-0.00000012", "0.99999988000000719999971200000863999979");
        test_exp_assert_exp(
            "-0.9999999999999999999999999999999999999",
            "0.36787944117144232159552377016146086748",
        );
        test_exp_assert_exp("12.3456789", "229964.19456908213454430507162889547155");
        test_exp_assert_exp("-50.1", "0.00000000000000000000017452050324689209452230894746470912110");
        test_exp_assert_exp("259.11111", "33925423113202888041488548716222730394000000000000000000000000000000000000000000000000000000000000000000000000000");
        test_exp_assert_exp("290.123456", "997736847550168914657296864583252087210000000000000000000000000000000000000000000000000000000000000000000000000000000000000000");
    }

#[test]
fn generate_exp_array() {
        // [e^0, e^290]
        for i in 0..291 {
            let exponent = Decimal::from(i);
            let result = exponent.exp_decimal().unwrap();

            if i % 5 == 0 {
                println!("// e^{}", i);
            }
            println!(
                "Decimal::from_parts_unchecked({}, {}, {}),",
                result.into_parts().0,
                result.into_parts().1,
                result.into_parts().2,
            );
        }
    }

#[test]
fn generate_exp_negative_array() {
    // e^-291
    let exp_negative_291 = Decimal::from_parts(41716298478166806118243377939293045745, 164, false).unwrap();
    // [e^-299, e^-291]
    for i in 291..300u32 {
        let table_entry = Decimal::from(i - 291).exp().unwrap();
        let result = exp_negative_291.checked_div(&table_entry).unwrap();
        if i % 5 == 0 {
            println!("// e^-{}", i);
        }
        let (m, e, s) = result.into_parts();
        println!("Decimal::from_parts_unchecked({}, {}, {}),", m, e, s);
    }
}

#[test]
fn exp_and_ln_edges() {
    assert_eq!(Decimal::zero().exp().unwrap(), Decimal::one());
    assert!("291".parse::<Decimal>().unwrap().exp().is_none());
    assert_eq!("-300".parse::<Decimal>().unwrap().exp().unwrap(), Decimal::zero());
    assert_eq!(Decimal::one().ln().unwrap(), Decimal::zero());
    assert!(Decimal::zero().ln().is_none());
    assert!("-1".parse::<Decimal>().unwrap().ln().is_none());
    assert!(Decimal::zero().checked_pow(&"-1".parse::<Decimal>().unwrap()).is_none());
    assert!("-3".parse::<Decimal>().unwrap().checked_pow(&"0.5".parse::<Decimal>().unwrap()).is_none());
}

#[test]
fn negative_base_to_odd_powers() {
    let x: Decimal = "-2".parse().unwrap();
    assert_eq!(x.checked_pow(&"3".parse::<Decimal>().unwrap()).unwrap(), "-8".parse::<Decimal>().unwrap());
    assert_eq!(x.checked_pow(&"-1".parse::<Decimal>().unwrap()).unwrap(), "-0.5".parse::<Decimal>().unwrap());
    assert!(x.checked_pow(&"100001".parse::<Decimal>().unwrap()).is_none());
    let one_point_zero: Decimal = "1.0".parse().unwrap();
    assert_eq!(one_point_zero.ln().unwrap(), Decimal::zero());
    assert_eq!(one_point_zero.checked_pow(&"2.5".parse::<Decimal>().unwrap()).unwrap(), Decimal::one());
}
