use macmemana::size::{format_size, parse_size};

const KIB: u64 = 1024;
const MIB: u64 = 1024 * 1024;
const GIB: u64 = 1024 * 1024 * 1024;

/// Reads a size the way a float-based reader does: number times unit,
/// truncated to an integer.
fn float_reading(size_str: &str) -> u64 {
    let s = size_str.trim().to_uppercase();
    let (num, mult) = if s.ends_with('G') {
        (s.trim_end_matches('G'), GIB)
    } else if s.ends_with('M') {
        (s.trim_end_matches('M'), MIB)
    } else if s.ends_with('K') {
        (s.trim_end_matches('K'), KIB)
    } else {
        (s.trim_end_matches('B'), 1)
    };
    let v: f64 = num.parse().unwrap_or(0.0);
    (v * mult as f64) as u64
}

/// Writes a size with one decimal through floating point.
fn float_writing(bytes: u64) -> String {
    let b = bytes as f64;
    if bytes >= GIB {
        format!("{:.1}G", b / GIB as f64)
    } else if bytes >= MIB {
        format!("{:.1}M", b / MIB as f64)
    } else if bytes >= KIB {
        format!("{:.1}K", b / KIB as f64)
    } else {
        format!("{}B", bytes)
    }
}

#[test]
fn test_parse_size() {
    assert_eq!(parse_size("1G"), 1024 * 1024 * 1024);
    assert_eq!(parse_size("500M"), 500 * 1024 * 1024);
    assert_eq!(parse_size("1.5G"), (1.5 * 1024.0 * 1024.0 * 1024.0) as u64);
    assert_eq!(parse_size("100K"), 100 * 1024);
}

#[test]
fn parse_size_agrees_with_float_reading() {
    let cases = [
        "0", "0B", "12", "12B", "512B", "1K", "1.5K", "17K", "0.5K", ".5K", "5.K", "8.12G", "2.31G",
        "1.23G", "5.84G", "3.0G", "1.9G", "1.7G", "591.1M", "213.9M", "900M", "2.7G", "3.1G",
        "1.8G", "0K", "257.5M", "197.0M", "6.4G", "1.1G", "  42M  ", "\t7k\n", "3g", "2m", "4b",
        "5GG", "5BB", "1e3", "1E3K", "2.5e-1K", "1e+2M", "-5G", "+5G", "-0", "inf", "INF",
        "infinity", "-inf", "nan", "NaN", "", "G", "B", ".", "-", "+", "e5", "5e", "5e+", "1.2.3",
        "12abc", "abc", "1 2", "99999999999999999999", "18446744073709551615B",
        "18446744073709551616B", "16G", "1e30", "1e-30K", "0.0000001G",
        "123456789.123456789K", "0.001", "999.999M", "1023.9K", "7.25M", "0.1G", "0.2G", "0.3G",
        "10.05M", "1e19", "1e20", "00012.500K", "0e999999999999999999999999", "1e-99999999999999999999",
        "17179869183.9G", "0.99999999999999999999", "0.9999999999999999444888487687421729788184165954589843750000001",
        "0.99999999999999994448884876874217297881841659545898437499", "9007199254740993",
        "9007199254740993.0000000001", "4503599627370495.5", "4503599627370496.5",
        "4503599627370497.5", "18446744073709551615", "18446744073709550591",
        "18446744073709550592", "18446744073709551615.9", "16383.999999999999999G",
        "8796093022207.99999999M", "1.7976931348623157e308", "1.8e308", "4.9e-324K",
        "0.5", "1.5", "2.5", "0.49999999999999997224", "0.49999999999999999",
    ];
    for s in cases.iter() {
        assert_eq!(parse_size(s), float_reading(s), "size text {:?}", s);
    }
}

#[test]
fn parse_size_edge_values() {
    assert_eq!(parse_size("nan"), 0);
    assert_eq!(parse_size("inf"), u64::MAX);
    assert_eq!(parse_size("-inf"), 0);
    assert_eq!(parse_size("1e30"), u64::MAX);
    assert_eq!(parse_size("garbage"), 0);
    assert_eq!(parse_size("5GG"), 5 * GIB);
    assert_eq!(parse_size(" 17k "), 17 * KIB);
    assert_eq!(parse_size("0.5K"), 512);
}

#[test]
fn format_size_examples() {
    assert_eq!(format_size(0), "0B");
    assert_eq!(format_size(1023), "1023B");
    assert_eq!(format_size(1024), "1.0K");
    assert_eq!(format_size(1536), "1.5K");
    assert_eq!(format_size(GIB), "1.0G");
    assert_eq!(format_size(3 * GIB + GIB / 2), "3.5G");
}

#[test]
fn format_size_agrees_with_float_writing() {
    let mut values: Vec<u64> = vec![
        0, 1, 9, 10, 99, 1000, 1023, 1024, 1025, 1280, 1536, 1792, 2047, 2048, 10240, 1048575,
        1048576, 1048577, 1310720, 1572864, 1835008, 1073741823, 1073741824, 1073741825,
        1342177280, 1610612736, 1879048192, 9007199254740991, 9007199254740992,
        9007199254740993, 9007199254740995, 18014398509481985, 18446744073709551615,
        18446744073709551614, 18446744073709550591, 18446744073709550592,
    ];
    let mut x: u64 = 0x9e37_79b9_7f4a_7c15;
    for _ in 0..20000 {
        x ^= x << 13;
        x ^= x >> 7;
        x ^= x << 17;
        let shift = (x % 64) as u32;
        values.push(x >> shift);
    }
    for unit in [KIB, MIB, GIB] {
        for k in 1..4000u64 {
            values.push(k * unit / 20);
            values.push(k * unit / 20 + 1);
            values.push((k * unit / 20).saturating_sub(1));
        }
    }
    for b in values {
        assert_eq!(format_size(b), float_writing(b), "bytes {}", b);
    }
}

#[test]
fn small_sizes_read_back() {
    for b in 0..1024u64 {
        assert_eq!(parse_size(&format_size(b)), b);
    }
}

#[test]
fn parse_size_agrees_with_float_reading_on_random_text() {
    let mut x: u64 = 0x0123_4567_89ab_cdef;
    let mut next = move || {
        x ^= x << 13;
        x ^= x >> 7;
        x ^= x << 17;
        x
    };
    let units = ["", "B", "K", "M", "G"];
    for _ in 0..20000 {
        let ndigits = 1 + (next() % 30) as usize;
        let mut text = String::new();
        for i in 0..ndigits {
            let d = if next() % 3 == 0 { 9 } else { next() % 10 };
            text.push(char::from(b'0' + d as u8));
            if i + 1 < ndigits && next() % (ndigits as u64) == 0 && !text.contains('.') {
                text.push('.');
            }
        }
        if next() % 4 == 0 {
            let e = (next() % 40) as i64 - 20;
            text.push_str(&format!("e{}", e));
        }
        text.push_str(units[(next() % 5) as usize]);
        assert_eq!(parse_size(&text), float_reading(&text), "size text {:?}", text);
    }
}

#[test]
fn sizes_read_back_within_a_twentieth_of_the_unit() {
    let mut seed: u64 = 0x9e37_79b9_7f4a_7c15;
    let mut samples: Vec<u64> = vec![
        1023,
        1024,
        1075,
        MIB - 1,
        MIB,
        GIB - 1,
        GIB,
        (1u64 << 53) - 1,
        (1u64 << 53) - 12345,
    ];
    for _ in 0..2000 {
        seed ^= seed << 13;
        seed ^= seed >> 7;
        seed ^= seed << 17;
        samples.push(seed >> (11 + seed % 50));
    }
    for b in samples {
        let unit = if b >= GIB {
            GIB
        } else if b >= MIB {
            MIB
        } else if b >= KIB {
            KIB
        } else {
            1
        };
        let r = parse_size(&format_size(b));
        assert!(r.abs_diff(b) <= unit / 20 + 2, "{} read back as {}", b, r);
        if b < KIB {
            assert_eq!(r, b);
        }
    }
}
