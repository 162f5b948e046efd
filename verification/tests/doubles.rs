use rl_scheduler::binary64::Binary64;

fn hold(x: f64) -> Binary64 {
    Binary64::from_bits(x.to_bits())
}

fn agrees(ours: Binary64, machine: f64) -> bool {
    if machine.is_nan() {
        ours.is_nan()
    } else {
        ours.to_bits() == machine.to_bits()
    }
}

fn next_random(state: &mut u64) -> u64 {
    *state ^= *state << 13;
    *state ^= *state >> 7;
    *state ^= *state << 17;
    *state
}

fn check_pair(a: f64, b: f64) {
    let x = hold(a);
    let y = hold(b);
    assert!(agrees(x.plus(y), a + b), "{:e} + {:e}", a, b);
    assert!(agrees(x.minus(y), a - b), "{:e} - {:e}", a, b);
    assert!(agrees(x.times(y), a * b), "{:e} * {:e}", a, b);
    assert!(agrees(x.over(y), a / b), "{:e} / {:e}", a, b);
    assert_eq!(x.lt(y), a < b);
    assert_eq!(x.le(y), a <= b);
    let greater = x.max(y);
    let machine = a.max(b);
    if a == 0.0 && b == 0.0 {
        assert_eq!(greater.pattern(), 0);
    } else {
        assert!(agrees(greater, machine), "max {:e} {:e}", a, b);
    }
}

const SPECIAL: [f64; 26] = [
    0.0,
    -0.0,
    1.0,
    -1.0,
    2.0,
    0.1,
    -0.3,
    0.5,
    10000.0,
    3.0,
    1e16,
    9007199254740993.0,
    f64::MIN_POSITIVE,
    -f64::MIN_POSITIVE,
    5e-324,
    -5e-324,
    1e-310,
    2.2250738585072011e-308,
    f64::MAX,
    f64::MIN,
    f64::INFINITY,
    f64::NEG_INFINITY,
    f64::NAN,
    1.7976931348623155e308,
    1e-200,
    1e200,
];

#[test]
fn special_values_agree_with_the_machine() {
    for a in SPECIAL {
        for b in SPECIAL {
            check_pair(a, b);
        }
        let x = hold(a);
        assert_eq!(x.to_index(), a as usize);
        assert_eq!(x.is_nan(), a.is_nan());
        assert_eq!(x.is_infinite(), a.is_infinite());
        assert_eq!(x.is_negative(), a.is_sign_negative());
        assert_eq!(x.neg().to_bits(), (-a).to_bits());
    }
}

#[test]
fn random_patterns_agree_with_the_machine() {
    let mut state: u64 = 0x9E37_79B9_7F4A_7C15;
    for _ in 0..60000 {
        let a = f64::from_bits(next_random(&mut state));
        let b = f64::from_bits(next_random(&mut state));
        check_pair(a, b);
    }
}

#[test]
fn nearby_exponents_agree_with_the_machine() {
    let mut state: u64 = 0x1234_5678_9ABC_DEF1;
    for _ in 0..60000 {
        let r = next_random(&mut state);
        let s = next_random(&mut state);
        let base = 1023 - 70 + (r >> 57);
        let other = 1023 - 70 + (s >> 57);
        let mask = 0x800F_FFFF_FFFF_FFFF;
        let a = f64::from_bits((r & mask) | (base << 52));
        let b = f64::from_bits((s & mask) | (other << 52));
        check_pair(a, b);
    }
}

#[test]
fn ends_of_the_range_agree_with_the_machine() {
    let mut state: u64 = 0xDEAD_BEEF_0BAD_F00D;
    for _ in 0..40000 {
        let r = next_random(&mut state);
        let s = next_random(&mut state);
        // Products around the smallest and the greatest doubles.
        let mask = 0x800F_FFFF_FFFF_FFFF;
        let low = f64::from_bits((r & mask) | ((480 + (s >> 59)) << 52));
        let lower = f64::from_bits((s & mask) | ((480 + (r >> 59)) << 52));
        check_pair(low, lower);
        let high = f64::from_bits((r & mask) | ((1520 + (s >> 59)) << 52));
        let higher = f64::from_bits((s & mask) | ((1520 + (r >> 59)) << 52));
        check_pair(high, higher);
        // Subnormal numbers against normal ones.
        let tiny = f64::from_bits(r & mask);
        check_pair(tiny, low);
        check_pair(low, tiny);
        check_pair(tiny, f64::from_bits(s & mask));
        check_pair(tiny, 1e-300);
    }
}

#[test]
fn ties_go_to_the_even_pattern() {
    // 2^53 + 1 lies midway between two doubles.
    assert_eq!(Binary64::from_integer(9007199254740993), hold(9007199254740992.0));
    assert_eq!(Binary64::from_integer(9007199254740995), hold(9007199254740996.0));
    // Half of the smallest double rounds to 0, three halves to twice of it.
    assert_eq!(hold(5e-324).times(hold(0.5)).to_bits(), 0);
    assert_eq!(hold(5e-324).times(hold(1.5)).to_bits(), 2);
    // The first value that no longer rounds to the greatest double.
    assert_eq!(hold(f64::MAX).plus(hold(9.979201547673599e291)), hold(f64::INFINITY));
    assert_eq!(hold(f64::MAX).plus(hold(9.979201547673598e291)), hold(f64::MAX));
}

#[test]
fn integers_are_rounded_and_truncated() {
    let mut state: u64 = 77;
    for _ in 0..20000 {
        let k = next_random(&mut state) >> (next_random(&mut state) % 64);
        assert!(agrees(Binary64::from_integer(k), k as f64));
        let x = f64::from_bits(next_random(&mut state));
        assert_eq!(hold(x).to_index(), x as usize);
        let y = (k as f64) / 1000.0;
        assert_eq!(hold(y).to_index(), y as usize);
    }
    assert_eq!(Binary64::from_integer(0).to_bits(), 0);
    assert_eq!(hold(18446744073709551616.0).to_index(), usize::MAX);
    assert_eq!(hold(2.999999999999999).to_index(), 2);
    assert_eq!(hold(-7.5).to_index(), 0);
    assert_eq!(hold(f64::NAN).to_index(), 0);
}

#[test]
fn ranks_follow_the_numeric_order() {
    let mut sorted: Vec<f64> = SPECIAL.iter().copied().filter(|x| !x.is_nan()).collect();
    sorted.sort_by(|a, b| a.partial_cmp(b).unwrap());
    for pair in sorted.windows(2) {
        assert!(hold(pair[0]).rank() <= hold(pair[1]).rank());
        assert_eq!(hold(pair[0]).rank() == hold(pair[1]).rank(), pair[0] == pair[1]);
    }
    assert!(hold(f64::NAN).rank() > hold(f64::INFINITY).rank());
    assert_eq!(hold(-0.0).max(hold(0.0)), Binary64::zero());
    assert_eq!(hold(f64::NAN).max(hold(-3.0)), hold(-3.0));
    assert_eq!(hold(f64::NAN).max(hold(f64::NAN)), Binary64::nan());
}
