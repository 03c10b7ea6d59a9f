use zram_generator::error::SizeError;
use zram_generator::sizing::{default_disksize, legacy_disksize, scale_to_u64, size_from_value};
use zram_generator::sysfacts::memtotal_mb;
use zram_generator::text::{parse_i32, parse_u64, split_words};

fn samples() -> Vec<f64> {
    let mut v = vec![
        0.0,
        -0.0,
        0.5,
        1.0,
        1.5,
        299.99999999999994,
        300.0,
        1e-300,
        f64::MIN_POSITIVE,
        5e-324,
        4096.0,
        17592186044415.0,
        17592186044416.0,
        1.8446744073709552e19,
        1e300,
        f64::MAX,
        f64::INFINITY,
        -1.0,
        -1e-300,
        f64::NEG_INFINITY,
    ];
    let mut x: u64 = 0x2545_F491_4F6C_DD1D;
    for _ in 0..2000 {
        x ^= x << 13;
        x ^= x >> 7;
        x ^= x << 17;
        let f = f64::from_bits(x);
        if !f.is_nan() {
            v.push(f);
        }
        v.push((x % 100_000_000) as f64 / 7.0);
    }
    v
}

#[test]
fn bytes_match_float_conversion() {
    for f in samples() {
        let bits = f.to_bits();
        assert_eq!(scale_to_u64(bits, 20), (f * 1024.0 * 1024.0) as u64, "{:e}", f);
        assert_eq!(scale_to_u64(bits, 0), f as u64, "{:e}", f);
        if f >= 0.0 {
            assert_eq!(size_from_value(bits), Ok((f * 1024.0 * 1024.0) as u64), "{:e}", f);
        } else {
            assert_eq!(size_from_value(bits), Err(SizeError::Negative), "{:e}", f);
        }
    }
}

#[test]
fn special_values() {
    assert_eq!(size_from_value(f64::INFINITY.to_bits()), Ok(u64::MAX));
    assert_eq!(size_from_value(f64::NAN.to_bits()), Err(SizeError::NotANumber));
    assert_eq!(size_from_value((-f64::NAN).to_bits()), Err(SizeError::NotANumber));
    assert_eq!(size_from_value((-0.0f64).to_bits()), Ok(0));
    assert_eq!(size_from_value((-1.0f64).to_bits()), Err(SizeError::Negative));
    assert_eq!(size_from_value(1500.0f64.to_bits()), Ok(1500 * 1024 * 1024));
    assert_eq!(scale_to_u64(f64::NAN.to_bits(), 0), 0);
    assert_eq!(scale_to_u64(300.7f64.to_bits(), 0), 300);
}

#[test]
fn default_size() {
    assert_eq!(default_disksize(0), 0);
    assert_eq!(default_disksize(3), 3 * 512 * 1024);
    assert_eq!(default_disksize(8191), 8191 * 512 * 1024);
    assert_eq!(default_disksize(8192), 4096 * 1024 * 1024);
    assert_eq!(default_disksize(u64::MAX), 4096 * 1024 * 1024);
}

#[test]
fn legacy_size() {
    assert_eq!(legacy_disksize(1500, None), 1500 * 1024 * 1024);
    assert_eq!(legacy_disksize(1500, Some(None)), 1500 * 1024 * 1024);
    assert_eq!(legacy_disksize(1500, Some(Some(1000))), 1000 * 1024 * 1024);
    assert_eq!(legacy_disksize(u64::MAX, None), u64::MAX);
    assert_eq!(legacy_disksize(1 << 44, None), u64::MAX);
    assert_eq!(legacy_disksize((1 << 44) - 1, None), ((1 << 44) - 1) << 20);
}

#[test]
fn memory_in_megabytes() {
    assert_eq!(memtotal_mb(8013220), 7825);
    assert_eq!(memtotal_mb(1023), 0);
}

#[test]
fn integers_as_std_parses_them() {
    for s in ["0", "+5", "-0", "", "+", "12a", "18446744073709551615", "18446744073709551616", "007"] {
        assert_eq!(parse_u64(s), s.parse::<u64>().ok(), "{:?}", s);
    }
    for s in ["0", "+5", "-0", "-1", "", "-", "2147483647", "2147483648", "-2147483648", "-2147483649", " 1"] {
        assert_eq!(parse_i32(s), s.parse::<i32>().ok(), "{:?}", s);
    }
}

#[test]
fn words_as_std_splits_them() {
    for s in ["", "  a  b\tc\n", "one", "\u{3000}x\u{a0}y ", "a\u{200b}b"] {
        let expected: Vec<String> = s.split_whitespace().map(String::from).collect();
        assert_eq!(split_words(s), expected, "{:?}", s);
    }
}
