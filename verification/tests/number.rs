use bintree::number::{Number, NumberView};

fn double(x: f64) -> Number {
    Number::from_double_bits(x.to_bits()).unwrap()
}

#[test]
fn numbers_are_written_as_json_writes_them() {
    assert_eq!(Number::from_u64(1000).text(), "1000");
    assert_eq!(Number::from_u64(0).text(), "0");
    assert_eq!(Number::from_u64(u64::MAX).text(), "18446744073709551615");
    assert_eq!(Number::from_i64(-7).text(), "-7");
    assert_eq!(Number::from_i64(i64::MIN).text(), "-9223372036854775808");
    assert_eq!(double(2.0).text(), "2.0");
    assert_eq!(double(1.5e300).text(), "1.5e+300");
    assert_eq!(double(-0.0).text(), "-0.0");
}

#[test]
fn numbers_that_are_not_finite_are_no_json_numbers() {
    assert_eq!(Number::from_double_bits(f64::NAN.to_bits()), None);
    assert_eq!(Number::from_double_bits(f64::INFINITY.to_bits()), None);
    assert_eq!(Number::from_double_bits(f64::NEG_INFINITY.to_bits()), None);
}

#[test]
fn integers_and_their_ranges() {
    assert_eq!(Number::from_i64(5), Number::from_u64(5));
    assert_eq!(Number::from_i64(-5).shape(), NumberView::NegInt(-5));
    assert_eq!(Number::from_i64(-5).as_i64(), Some(-5));
    assert_eq!(Number::from_i64(-5).as_u64(), None);
    assert_eq!(Number::from_u64(i64::MAX as u64).as_i64(), Some(i64::MAX));
    assert_eq!(Number::from_u64(i64::MAX as u64 + 1).as_i64(), None);
    assert_eq!(Number::from_u64(u64::MAX).as_u64(), Some(u64::MAX));
    assert_eq!(double(1.0).as_i64(), None);
    assert_eq!(double(1.0).as_u64(), None);
}

#[test]
fn zeros_of_either_sign_are_equal() {
    assert_eq!(double(0.0), double(-0.0));
    assert_ne!(double(0.0).shape(), double(-0.0).shape());
    assert_ne!(double(1.0), double(-1.0));
    assert_ne!(double(1.0), Number::from_u64(1));
    assert_ne!(Number::from_i64(-1), Number::from_u64(1));
}

#[test]
fn integer_texts_are_read_back() {
    for i in [0, 1, -1, 42, i64::MAX, i64::MIN] {
        assert_eq!(Number::from_i64(i).text().parse::<i64>(), Ok(i));
    }
}
