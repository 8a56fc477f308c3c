//! The bit-level number model against real binary64 floating point: the
//! library's equality, ordering and negation on bit patterns must agree
//! with the hardware's on the encoded values.

use rlox::value::num_eq;
use rlox::value::num_le;
use rlox::value::num_lt;
use rlox::value::Value;

fn samples() -> Vec<f64> {
    vec![
        0.0,
        -0.0,
        1.0,
        -1.0,
        0.5,
        -0.5,
        2.0,
        1000.5,
        -1000.5,
        f64::MIN_POSITIVE,
        -f64::MIN_POSITIVE,
        5e-324,
        -5e-324,
        f64::MAX,
        f64::MIN,
        f64::INFINITY,
        f64::NEG_INFINITY,
        f64::NAN,
        -f64::NAN,
    ]
}

#[test]
fn equality_matches_hardware() {
    for &a in samples().iter() {
        for &b in samples().iter() {
            assert_eq!(
                num_eq(a.to_bits(), b.to_bits()),
                a == b,
                "eq {a} {b}"
            );
        }
    }
}

#[test]
fn ordering_matches_hardware() {
    for &a in samples().iter() {
        for &b in samples().iter() {
            assert_eq!(num_lt(a.to_bits(), b.to_bits()), a < b, "lt {a} {b}");
            assert_eq!(num_le(a.to_bits(), b.to_bits()), a <= b, "le {a} {b}");
        }
    }
}

#[test]
fn negation_matches_hardware() {
    for &a in samples().iter() {
        let v = Value::Number(a.to_bits());
        match v.unary('-') {
            Some(Value::Number(bits)) => {
                assert_eq!(bits, (-a).to_bits(), "neg {a}");
            }
            other => panic!("negation of a number gave {other:?}"),
        }
    }
}

#[test]
fn equality_reflexive_but_not_for_nan() {
    let n = Value::Number(1.5f64.to_bits());
    assert!(n.equals(&n));
    let z = Value::Number(0.0f64.to_bits());
    let nz = Value::Number((-0.0f64).to_bits());
    assert!(z.equals(&nz));
    let nan = Value::Number(f64::NAN.to_bits());
    assert!(!nan.equals(&nan));
    assert!(Value::Nil.equals(&Value::Nil));
    assert!(Value::Bool(true).equals(&Value::Bool(true)));
    assert!(Value::from_str("abc").equals(&Value::from_str("abc")));
    assert!(!Value::from_str("abc").equals(&Value::from_str("abd")));
    assert!(!Value::Nil.equals(&Value::Bool(false)));
}

#[test]
fn decimal_rendering() {
    assert_eq!(rlox::text::dec_string(0), "0".to_string());
    assert_eq!(rlox::text::dec_string(7), "7".to_string());
    assert_eq!(rlox::text::dec_string(42), "42".to_string());
    assert_eq!(rlox::text::dec_string(1000), "1000".to_string());
    assert_eq!(rlox::text::dec_string(987654), "987654".to_string());
}

#[test]
fn rendering_of_non_numbers() {
    assert_eq!(rlox::value::Value::Nil.render(), Some("nil".to_string()));
    assert_eq!(
        rlox::value::Value::Bool(true).render(),
        Some("true".to_string())
    );
    assert_eq!(
        rlox::value::Value::Bool(false).render(),
        Some("false".to_string())
    );
    assert_eq!(
        rlox::value::Value::from_str("hi").render(),
        Some("hi".to_string())
    );
    assert_eq!(rlox::value::Value::Number(0).render(), None);
}
