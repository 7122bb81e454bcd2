use orderbook::binary64::{price_of, Binary64};
use ordered_float::OrderedFloat;

fn num(x: f64) -> Binary64 {
    Binary64::from_bits(x.to_bits())
}

struct Numbers {
    state: u64,
}

impl Numbers {
    fn next(&mut self) -> u64 {
        self.state ^= self.state << 13;
        self.state ^= self.state >> 7;
        self.state ^= self.state << 17;
        self.state
    }
}

fn corners() -> Vec<f64> {
    vec![
        0.0,
        -0.0,
        f64::from_bits(1),
        f64::from_bits(2),
        f64::MIN_POSITIVE,
        f64::from_bits(f64::MIN_POSITIVE.to_bits() - 1),
        0.1,
        0.3,
        1.0,
        f64::from_bits(1.0f64.to_bits() - 1),
        f64::from_bits(1.0f64.to_bits() + 1),
        -1.0,
        9.5,
        -9.5,
        9007199254740992.0,
        9007199254740991.0,
        1e300,
        f64::MAX,
        f64::MIN,
        f64::INFINITY,
        f64::NEG_INFINITY,
        f64::NAN,
        -f64::NAN,
    ]
}

fn check_difference(a: f64, b: f64) {
    let (a, b) = if a < b { (b, a) } else { (a, b) };
    if b > 0.0 && b.is_finite() && !a.is_nan() {
        let r = num(a).subtract(num(b));
        assert_eq!(f64::from_bits(r.bits), a - b, "{} - {}", a, b);
    }
}

#[test]
fn differences_are_rounded_to_the_nearest() {
    let mut numbers = Numbers { state: 0x9e37_79b9_7f4a_7c15 };
    for a in corners() {
        for b in corners() {
            check_difference(a, b);
        }
    }
    for _ in 0..20000 {
        let a = numbers.next() >> 1;
        let near = numbers.next() % 120;
        let exponent = ((a >> 52) as i64 - near as i64 + 60).clamp(0, 2046) as u64;
        let b = (exponent << 52) | (numbers.next() >> 12);
        check_difference(f64::from_bits(a), f64::from_bits(b));
        check_difference(f64::from_bits(a), f64::from_bits(a + 1 + numbers.next() % 5));
    }
}

#[test]
fn boundless_amounts_stay_as_they_are() {
    assert_eq!(num(f64::INFINITY).subtract(num(5.0)), num(f64::INFINITY));
    assert!(num(f64::NAN).subtract(num(5.0)).is_nan());
}

#[test]
fn whole_numbers_are_subtracted_exactly() {
    assert_eq!(num(10.0).subtract(num(4.0)), num(6.0));
    assert_eq!(num(10.0).subtract(num(10.0)), num(0.0));
    assert_eq!(num(9007199254740992.0).subtract(num(1.0)), num(9007199254740991.0));
}

#[test]
fn ties_go_to_the_even_neighbour() {
    assert_eq!(num(9007199254740994.0).subtract(num(1.0)), num(9007199254740992.0));
    let a = f64::from_bits(9007199254740992.0f64.to_bits() + 3);
    assert_eq!(f64::from_bits(num(a).subtract(num(1.0)).bits), a - 1.0);
}

fn check_price_order(a: f64, b: f64) {
    let (p, q) = (price_of(num(a)), price_of(num(b)));
    assert_eq!(p < q, OrderedFloat(a) < OrderedFloat(b), "{} {}", a, b);
    assert_eq!(p == q, OrderedFloat(a) == OrderedFloat(b), "{} {}", a, b);
}

#[test]
fn prices_are_ordered_as_numbers_with_nan_on_top() {
    let mut numbers = Numbers { state: 77 };
    for a in corners() {
        for b in corners() {
            check_price_order(a, b);
        }
    }
    for _ in 0..20000 {
        check_price_order(f64::from_bits(numbers.next()), f64::from_bits(numbers.next()));
    }
}

#[test]
fn price_keys_count_from_the_lowest_number_up() {
    assert_eq!(price_of(num(f64::NEG_INFINITY)), 0x0010_0000_0000_0000);
    assert_eq!(price_of(num(0.0)), 0x8000_0000_0000_0000);
    assert_eq!(price_of(num(1.0)), 0xbff0_0000_0000_0000);
    assert_eq!(price_of(num(-1.0)), 0x4010_0000_0000_0000);
    assert_eq!(price_of(num(-0.0)), price_of(num(0.0)));
    assert_eq!(price_of(num(f64::NAN)), u64::MAX);
}

#[test]
fn signs_and_minima_are_those_of_numbers() {
    for a in corners() {
        assert_eq!(num(a).is_positive(), a > 0.0);
        assert_eq!(num(a).is_nonpositive(), a <= 0.0);
        assert_eq!(num(a).is_nan(), a.is_nan());
        assert_eq!(num(a).is_infinite(), a.is_infinite());
        for b in corners() {
            let r = f64::from_bits(num(a).min(num(b)).bits);
            assert!(r == a.min(b) || r.is_nan() && a.min(b).is_nan());
        }
    }
}
