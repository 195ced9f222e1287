use ryu_subtitles::double::{is_positive, milliseconds, milliseconds_at, SIXTEEN_THOUSAND};

/// Numbers of every size: a generator of bits that repeats itself on every run.
fn numbers(count: usize) -> Vec<u64> {
    let mut state: u64 = 0x9E37_79B9_7F4A_7C15;
    let mut out = Vec::new();
    for _ in 0..count {
        state ^= state << 13;
        state ^= state >> 7;
        state ^= state << 17;
        out.push(state);
    }
    out
}

fn seconds_to_ms(x: f64) -> u64 {
    (x.max(0.0) * 1000.0) as u64
}

fn samples_to_ms(x: f64, rate: f64) -> u64 {
    (x.max(0.0) * 1000.0 / rate) as u64
}

#[test]
fn sixteen_thousand_is_what_it_says() {
    assert_eq!(f64::from_bits(SIXTEEN_THOUSAND), 16_000.0);
}

#[test]
fn seconds_become_milliseconds_as_the_machine_computes_them() {
    for x in [
        0.0,
        -0.0,
        1.5,
        2.25,
        1.001,
        0.0009999,
        0.001,
        1.0e-300,
        5.0e-324,
        -1.0,
        -0.5,
        3599.999,
        86_400.123_456,
        9.007_199_254_740_993e12,
        1.844_674_407_370_955e16,
        1.844_674_407_370_956e16,
        1.0e300,
        f64::MAX,
        f64::INFINITY,
        f64::NEG_INFINITY,
        f64::NAN,
    ] {
        assert_eq!(milliseconds(x.to_bits()), seconds_to_ms(x), "{x}");
    }
}

#[test]
fn every_millisecond_of_an_hour_and_what_is_next_to_it() {
    for i in 0..3_600_000u64 {
        if i % 37 != 0 {
            continue;
        }
        let x = i as f64 / 1000.0;
        assert_eq!(milliseconds(x.to_bits()), seconds_to_ms(x));
        let above = f64::from_bits(x.to_bits() + 1);
        assert_eq!(milliseconds(above.to_bits()), seconds_to_ms(above));
    }
}

#[test]
fn any_bits_at_all_become_milliseconds() {
    for bits in numbers(20_000) {
        let x = f64::from_bits(bits);
        assert_eq!(milliseconds(bits), seconds_to_ms(x), "{bits:x}");
        assert_eq!(is_positive(bits), x > 0.0, "{bits:x}");
    }
}

#[test]
fn samples_become_milliseconds_as_the_machine_computes_them() {
    let rates = [8_000.0, 16_000.0, 22_050.0, 44_100.0, 48_000.0, 0.1, 1.0e-300, 3.0, f64::INFINITY];
    for rate in rates {
        for x in [0.0, 1.0, 24_000.0, 40_000.0, 44_100.5, 1.0e9, 1.0e308, -7.0, f64::INFINITY, 5.0e-324] {
            assert_eq!(
                milliseconds_at(x.to_bits(), rate.to_bits()),
                samples_to_ms(x, rate),
                "{x} at {rate}"
            );
        }
        for i in 0..20_000u64 {
            let x = (i * 53) as f64;
            assert_eq!(milliseconds_at(x.to_bits(), rate.to_bits()), samples_to_ms(x, rate));
        }
    }
}

#[test]
fn any_two_numbers_divide_as_the_machine_divides_them() {
    let all = numbers(20_000);
    for pair in all.chunks(2) {
        let rate = f64::from_bits(pair[1]).abs();
        if !(rate > 0.0) {
            continue;
        }
        let x = f64::from_bits(pair[0]);
        assert_eq!(
            milliseconds_at(pair[0], rate.to_bits()),
            samples_to_ms(x, rate),
            "{x} at {rate}"
        );
    }
}
