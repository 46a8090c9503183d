use uiua::context::Num;

fn num(x: f64) -> Num {
    Num { bits: x.to_bits() }
}

#[test]
fn natural_numbers_get_their_double() {
    for n in [0usize, 1, 2, 3, 10, 255, 256, 1000, 65535, 1 << 40, (1 << 53) - 1] {
        let made = Num::from_nat(n).unwrap();
        assert_eq!(f64::from_bits(made.bits), n as f64);
    }
    assert_eq!(Num::from_nat(1 << 53), None);
    assert_eq!(Num::from_nat(usize::MAX), None);
    assert_eq!(f64::from_bits(Num::from_byte(200).bits), 200.0);
}

#[test]
fn doubles_that_are_natural_numbers() {
    assert_eq!(num(0.0).as_nat(), Some(0));
    assert_eq!(num(-0.0).as_nat(), Some(0));
    assert_eq!(num(1.0).as_nat(), Some(1));
    assert_eq!(num(3.0).as_nat(), Some(3));
    assert_eq!(num(4096.0).as_nat(), Some(4096));
    assert_eq!(num((1u64 << 60) as f64).as_nat(), Some(1 << 60));
    assert_eq!(num(9007199254740993.0).as_nat(), Some(9007199254740992));
}

#[test]
fn doubles_that_are_no_natural_numbers() {
    assert_eq!(num(2.5).as_nat(), None);
    assert_eq!(num(0.1).as_nat(), None);
    assert_eq!(num(-1.0).as_nat(), None);
    assert_eq!(num(f64::NAN).as_nat(), None);
    assert_eq!(num(f64::INFINITY).as_nat(), None);
    assert_eq!(num(1e300).as_nat(), None);
    assert_eq!(num(18446744073709551616.0).as_nat(), None);
    assert_eq!(num(5e-324).as_nat(), None);
}

#[test]
fn round_trip_of_natural_numbers() {
    for n in [0usize, 1, 7, 128, 12345, 1 << 52, (1 << 53) - 1] {
        assert_eq!(Num::from_nat(n).unwrap().as_nat(), Some(n));
    }
}
