use order_auction::rate::{round_to_double, ConversionRate};
use order_auction::types::Bid;

fn product(amount: u64, value: f64) -> u64 {
    (amount as f64 * value).floor() as u64
}

fn convert(amount: u64, value: f64) -> u64 {
    ConversionRate::from_bits(value.to_bits()).convert(amount)
}

/// A plain linear congruential generator.
struct Numbers(u64);

impl Numbers {
    fn next(&mut self) -> u64 {
        self.0 = self.0.wrapping_mul(6364136223846793005).wrapping_add(1442695040888963407);
        self.0 ^ (self.0 >> 29)
    }
}

#[test]
fn simple_products_are_exact() {
    assert_eq!(convert(100, 1.5), 150);
    assert_eq!(convert(100, 1.3), 130);
    assert_eq!(convert(140, 1.4), 196);
    assert_eq!(convert(150, 1.1), 165);
    assert_eq!(convert(7, 0.5), 3);
    assert_eq!(convert(0, 1.5), 0);
    assert_eq!(convert(12345, 1.0), 12345);
    assert_eq!(convert(12345, 0.0), 0);
}

#[test]
fn rounding_of_the_product_can_reach_the_next_whole_amount() {
    // The double nearest to 0.1 lies above it, yet ten of it round to one exactly.
    assert_eq!(convert(10, 0.1), 1);
    // The double nearest to 1.1 lies above it; the product does not drop below 11.
    assert_eq!(convert(10, 1.1), 11);
    // Just below one, a large input is carried over to the next double.
    let just_below_one = f64::from_bits(0x3fef_ffff_ffff_ffff);
    assert_eq!(convert(1, just_below_one), 0);
    assert_eq!(convert(1 << 53, just_below_one), (1 << 53) - 1);
    assert_eq!(convert((1 << 53) + 1, just_below_one), product((1 << 53) + 1, just_below_one));
}

#[test]
fn special_rates_saturate_as_casts_do() {
    assert_eq!(convert(5, f64::NAN), 0);
    assert_eq!(convert(5, -f64::NAN), 0);
    assert_eq!(convert(5, f64::INFINITY), u64::MAX);
    assert_eq!(convert(0, f64::INFINITY), 0);
    assert_eq!(convert(5, f64::NEG_INFINITY), 0);
    assert_eq!(convert(5, -1.0), 0);
    assert_eq!(convert(5, -0.0), 0);
    assert_eq!(convert(5, f64::MAX), u64::MAX);
    assert_eq!(convert(5, f64::MIN_POSITIVE), 0);
    assert_eq!(convert(u64::MAX, f64::from_bits(1)), 0);
    assert_eq!(convert(u64::MAX, 1.0), u64::MAX);
    assert_eq!(convert(u64::MAX, 0.5), 1 << 63);
}

#[test]
fn conversion_agrees_with_double_arithmetic() {
    let mut numbers = Numbers(20);
    let edges = [
        0u64, 1, 2, 3, 50, 199, 200, 1 << 52, (1 << 53) - 1, 1 << 53, (1 << 53) + 1, (1 << 53) + 3,
        (1 << 54) + 2, (1 << 54) + 6, (1 << 63) - 1, 1 << 63, (1 << 63) + 1024, (1 << 63) + 3072,
        u64::MAX - 1024, u64::MAX - 1, u64::MAX,
    ];
    for _ in 0..20000 {
        // Any bits at all.
        let bits = numbers.next();
        let shift = numbers.next() % 64;
        let amount = numbers.next() >> shift;
        let value = f64::from_bits(bits);
        assert_eq!(convert(amount, value), product(amount, value), "{} {:x}", amount, bits);
        // Rates between two to the minus 70 and two to the 70.
        let near = (bits & 0x800f_ffff_ffff_ffff) | ((1023 - 70 + numbers.next() % 140) << 52);
        let value = f64::from_bits(near);
        assert_eq!(convert(amount, value), product(amount, value), "{} {:x}", amount, near);
        for edge in edges {
            assert_eq!(convert(edge, value), product(edge, value), "{} {:x}", edge, near);
        }
    }
}

#[test]
fn rounding_agrees_with_casts_to_double() {
    let mut numbers = Numbers(7);
    for _ in 0..20000 {
        let shift = numbers.next() % 64;
        let n = numbers.next() >> shift;
        assert_eq!(round_to_double(n as u128), n as f64 as u128);
    }
    assert_eq!(round_to_double((1 << 53) + 1), 1 << 53);
    assert_eq!(round_to_double((1 << 53) + 3), (1 << 53) + 4);
    assert_eq!(round_to_double(u64::MAX as u128), 1 << 64);
}

#[test]
fn representable_numbers_stay() {
    assert_eq!(round_to_double(5 << 90), 5 << 90);
    assert_eq!(round_to_double(((1 << 53) - 1) << 60), ((1 << 53) - 1) << 60);
}

#[test]
fn output_never_falls_as_input_grows() {
    let mut numbers = Numbers(3);
    for _ in 0..2000 {
        let shift = numbers.next() % 64;
        let a = numbers.next() >> shift;
        let b = numbers.next() >> shift;
        let value = f64::from_bits(0x3fe0_0000_0000_0000 | (numbers.next() >> 12));
        assert!(convert(a.min(b), value) <= convert(a.max(b), value));
    }
}

#[test]
fn output_never_falls_as_the_rate_grows() {
    assert_eq!((convert(100, 0.8), convert(100, 1.2)), (80, 120));
    let mut values = vec![
        f64::NEG_INFINITY, -1.5, -0.0, 0.0, f64::from_bits(1), f64::MIN_POSITIVE, 0.5, 0.999, 1.0,
        1.1, 1.2, 3e10, 1e300, f64::MAX, f64::INFINITY,
    ];
    let mut numbers = Numbers(11);
    for _ in 0..500 {
        let value = f64::from_bits(numbers.next());
        if !value.is_nan() {
            values.push(value);
        }
    }
    values.sort_by(|a, b| a.partial_cmp(b).unwrap());
    for amount in [0, 1, 99, 200, 1 << 53, (1 << 53) + 1, u64::MAX] {
        for pair in values.windows(2) {
            assert!(convert(amount, pair[0]) <= convert(amount, pair[1]), "{amount} {pair:?}");
        }
    }
}

#[test]
fn rates_compare_as_doubles() {
    let values = [0.0, -0.0, 1.0, 1.5, -1.0, f64::NAN, f64::INFINITY, f64::NEG_INFINITY];
    for a in values {
        for b in values {
            let left = ConversionRate::from_bits(a.to_bits());
            let right = ConversionRate::from_bits(b.to_bits());
            assert_eq!(left == right, a == b, "{} {}", a, b);
        }
    }
    assert_eq!(ConversionRate::from_bits(1.25f64.to_bits()).to_bits(), 1.25f64.to_bits());
}

#[test]
fn a_bid_promises_the_converted_input() {
    let bid = Bid {
        order_id: 1,
        solver_id: "s1".to_string(),
        max_input: 150,
        conversion_rate: ConversionRate::from_bits(1.1f64.to_bits()),
        valid_till: 1234567950,
    };
    assert_eq!(bid.min_output(), 165);
    assert_eq!(bid.clone(), bid);
}
