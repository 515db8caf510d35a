use num_bigint::{BigInt, Sign};
use wr_core::bigint::{BigSign, BigValue};
use wr_core::numsys::{ArithmeticOp, NumSysError, RelationalOp};

fn big(v: i64) -> BigValue {
    BigValue::from_i64(v)
}

fn to_value(x: &BigInt) -> BigValue {
    let (sign, digits) = x.to_u32_digits();
    let sign = match sign {
        Sign::Minus => BigSign::Minus,
        Sign::NoSign => BigSign::NoSign,
        Sign::Plus => BigSign::Plus,
    };
    BigValue { sign, digits }
}

#[test]
fn relational_op_compare_int_and_big_int_agree_on_every_op() {
    let ops = [
        RelationalOp::Equal,
        RelationalOp::NotEqual,
        RelationalOp::LessThan,
        RelationalOp::GreaterThan,
        RelationalOp::LessEqThan,
        RelationalOp::GreaterEqThan,
    ];
    for op in ops {
        for a in [-3i32, -1, 0, 1, 3] {
            for b in [-3i32, -1, 0, 1, 3] {
                assert_eq!(
                    op.compare(a, b),
                    op.compare_big_int(&big(a as i64), &big(b as i64)),
                    "{op:?} disagrees on ({a}, {b})"
                );
            }
        }
    }
}

#[test]
fn relational_op_compare_big_int_is_exact_far_outside_i32() {
    let huge = to_value(&(BigInt::from(i64::MAX) * BigInt::from(1_000_000)));
    let five = big(5);
    assert!(RelationalOp::GreaterThan.compare_big_int(&huge, &five));
    assert!(!RelationalOp::LessThan.compare_big_int(&huge, &five));
    let huge_plus_one = ArithmeticOp::Plus.arith_big_int(&huge, &big(1)).unwrap();
    assert!(RelationalOp::NotEqual.compare_big_int(&huge, &huge_plus_one));
    assert!(RelationalOp::Equal.compare_big_int(&huge, &huge.clone()));
}

#[test]
fn arithmetic_op_arith_big_int_div_floors_toward_negative_infinity() {
    let cases: [(i64, i64, i64); 8] = [
        (7, 2, 3),
        (-7, 2, -4),
        (7, -2, -4),
        (-7, -2, 3),
        (-8, 2, -4),
        (8, -2, -4),
        (0, 5, 0),
        (-1, 5, -1),
    ];
    for (a, b, expected) in cases {
        assert_eq!(
            ArithmeticOp::Div.arith_big_int(&big(a), &big(b)),
            Ok(big(expected)),
            "floor({a} / {b})"
        );
    }
}

#[test]
fn arithmetic_op_arith_big_int_errors_match_the_int_overload() {
    assert_eq!(
        ArithmeticOp::Div.arith_big_int(&big(5), &big(0)),
        Err(NumSysError::DivisionByZero)
    );
    assert_eq!(
        ArithmeticOp::UnaryNegative.arith_big_int(&big(1), &big(2)),
        Err(NumSysError::UnexpectedOperator("_"))
    );
}

#[test]
fn arithmetic_op_arith_big_int_never_overflows() {
    let b = BigInt::from(i64::MAX);
    assert_eq!(
        ArithmeticOp::Mult.arith_big_int(&big(i64::MAX), &big(i64::MAX)),
        Ok(to_value(&(&b * &b)))
    );
    assert!(matches!(
        ArithmeticOp::Mult.arith(i32::MAX, 2),
        Err(NumSysError::ArithmeticIntOverflow(_))
    ));
}

#[test]
fn from_i64_writes_the_digits_of_the_value() {
    assert_eq!(big(0), BigValue { sign: BigSign::NoSign, digits: vec![] });
    assert_eq!(big(-1125), BigValue { sign: BigSign::Minus, digits: vec![1125] });
    assert_eq!(big(4294967296), BigValue { sign: BigSign::Plus, digits: vec![0, 1] });
    assert_eq!(big(-112500000000), BigValue { sign: BigSign::Minus, digits: vec![830850304, 26] });
    assert_eq!(big(i64::MIN), to_value(&BigInt::from(i64::MIN)));
    assert_eq!(big(i64::MAX), to_value(&BigInt::from(i64::MAX)));
}

#[test]
fn signum_reads_the_value_not_the_sign_field() {
    assert_eq!(big(-7).signum(), -1);
    assert_eq!(big(0).signum(), 0);
    assert_eq!(big(9).signum(), 1);
    let zero_with_sign = BigValue { sign: BigSign::Minus, digits: vec![0, 0] };
    assert_eq!(zero_with_sign.signum(), 0);
    let sign_without_digits = BigValue { sign: BigSign::NoSign, digits: vec![3] };
    assert_eq!(sign_without_digits.signum(), 0);
}

#[test]
fn arith_big_int_computes_sum_difference_and_product() {
    assert_eq!(ArithmeticOp::Plus.arith_big_int(&big(-3), &big(10)), Ok(big(7)));
    assert_eq!(ArithmeticOp::Minus.arith_big_int(&big(-3), &big(10)), Ok(big(-13)));
    assert_eq!(ArithmeticOp::Mult.arith_big_int(&big(-3), &big(10)), Ok(big(-30)));
    assert_eq!(ArithmeticOp::Minus.arith_big_int(&big(5), &big(5)), Ok(big(0)));
    let carry = ArithmeticOp::Plus.arith_big_int(&big(4294967295), &big(1)).unwrap();
    assert_eq!(carry, BigValue { sign: BigSign::Plus, digits: vec![0, 1] });
}

#[test]
fn division_by_a_zero_written_with_digits_is_still_division_by_zero() {
    let zero = BigValue { sign: BigSign::Plus, digits: vec![0] };
    assert_eq!(
        ArithmeticOp::Div.arith_big_int(&big(5), &zero),
        Err(NumSysError::DivisionByZero)
    );
}

#[test]
fn arith_big_int_divides_values_beyond_i64() {
    let a = BigInt::from(i64::MAX) * BigInt::from(i64::MAX);
    let q = ArithmeticOp::Div.arith_big_int(&to_value(&-&a), &big(i64::MAX)).unwrap();
    assert_eq!(q, big(-i64::MAX));
    let q = ArithmeticOp::Div.arith_big_int(&to_value(&(-&a - 1)), &big(i64::MAX)).unwrap();
    assert_eq!(q, big(-i64::MAX - 1));
}
