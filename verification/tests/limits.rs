use castella::rate_limit::{Error, RateLimit};
use castella::text::{decimal_string, parse_number, trimmed_end, trimmed_start, white_space};

fn parts(text: &str) -> Option<(u32, (u64, u32))> {
    RateLimit::from_str(text).ok().map(|l| (l.burst_size(), l.replenish_interval()))
}

#[test]
fn reads_burst_and_period() {
    assert_eq!(parts("10000/100"), Some((10_000, (0, 10_000_000))));
    assert_eq!(parts("700000/86400"), Some((700_000, (0, 123_428_571))));
    assert_eq!(parts("1/1"), Some((1, (1, 0))));
    assert_eq!(parts("3/1"), Some((3, (0, 333_333_333))));
    assert_eq!(parts("2/3"), Some((2, (1, 500_000_000))));
    assert_eq!(parts("1/18446744073709551615"), Some((1, (u64::MAX, 0))));
    assert_eq!(parts("4294967295/4294967295"), Some((u32::MAX, (1, 0))));
    assert_eq!(parts("4294967295/5"), Some((u32::MAX, (0, 1))));
}

#[test]
fn white_space_around_the_slash_does_not_count() {
    assert_eq!(parts("10 /100"), Some((10, (10, 0))));
    assert_eq!(parts("10/ 100"), Some((10, (10, 0))));
    assert_eq!(parts("10 \t/\n 100"), Some((10, (10, 0))));
    assert_eq!(parts("10\u{a0}/\u{3000}100"), Some((10, (10, 0))));
    assert_eq!(parts("+10/+100"), Some((10, (10, 0))));
    assert_eq!(parts(" 10/100"), None);
    assert_eq!(parts("10/100 "), None);
}

#[test]
fn refuses_what_is_not_a_positive_rate() {
    for text in [
        "", "/", "10", "10/", "/100", "10/100/1", "0/100", "10/0", "-1/100", "10/-1", "a/b", "1.5/2",
        "4294967296/1", "1/18446744073709551616", "10//100", "4294967295/4", "+/1", "1/+",
    ] {
        assert_eq!(RateLimit::from_str(text).err(), Some(Error::Format), "{text:?}");
    }
}

#[test]
fn writes_burst_and_replenished_seconds() {
    for (text, shown) in [
        ("10000/100", "10000/100"),
        ("700000/86400", "700000/86399"),
        ("1/1", "1/1"),
        ("3/1", "3/0"),
        ("2/3", "2/3"),
        (" 7 / 70".trim(), "7/70"),
        ("1/18446744073", "1/18446744073"),
        ("1/18446744074", "1/0"),
    ] {
        assert_eq!(RateLimit::from_str(text).unwrap().to_string(), shown, "{text:?}");
    }
}

#[test]
fn decimal_strings() {
    assert_eq!(decimal_string(0), "0");
    assert_eq!(decimal_string(7), "7");
    assert_eq!(decimal_string(10), "10");
    assert_eq!(decimal_string(1_048_592), "1048592");
    assert_eq!(decimal_string(u64::MAX), "18446744073709551615");
}

#[test]
fn numbers_in_a_text() {
    let text = "ab+123cd";
    assert_eq!(parse_number(text, 2, 6), Some(123));
    assert_eq!(parse_number(text, 3, 6), Some(123));
    assert_eq!(parse_number(text, 2, 3), None);
    assert_eq!(parse_number(text, 3, 3), None);
    assert_eq!(parse_number(text, 3, 7), None);
    assert_eq!(parse_number("18446744073709551615", 0, 20), Some(u64::MAX));
    assert_eq!(parse_number("18446744073709551616", 0, 20), None);
    assert_eq!(parse_number("\u{e9}42", 1, 3), Some(42));
}

#[test]
fn trimming() {
    let text = " \t ab c \n";
    assert_eq!(trimmed_start(text, 0, 9), 3);
    assert_eq!(trimmed_end(text, 0, 9), 7);
    assert_eq!(trimmed_end(text, 0, 2), 0);
    assert_eq!(trimmed_start(text, 7, 9), 9);
    assert_eq!(trimmed_end(text, 3, 5), 5);
}

#[test]
fn white_space_is_what_the_standard_library_trims() {
    for v in 0..=0x3100u32 {
        if let Some(c) = char::from_u32(v) {
            assert_eq!(white_space(c), c.is_whitespace(), "{v:#x}");
        }
    }
    assert!(!white_space('\u{feff}'));
    assert!(!white_space('\u{200b}'));
}
