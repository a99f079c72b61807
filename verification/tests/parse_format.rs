use duration_flex::grammar::{SECS_PER_DAY, SECS_PER_HOUR, SECS_PER_MINUTE, SECS_PER_WEEK};
use duration_flex::range::MAX_SECONDS;
use duration_flex::{DurationFlex, DurationFlexError, EXPECTED_FORMAT};

fn parsed(text: &str) -> DurationFlex {
    DurationFlex::try_from(text).unwrap()
}

fn written(secs: i64) -> String {
    DurationFlex::from_seconds(secs).to_string()
}

#[test]
fn de_string() {
    let value = DurationFlex::try_from("1w2d").unwrap();
    assert_eq!(value.secs(), 9 * SECS_PER_DAY);
    assert_eq!(value.nanos(), 0);

    let value = DurationFlex::try_from("1w2d3h4m5s").unwrap();
    assert_eq!(value.secs(), 9 * SECS_PER_DAY + 3 * SECS_PER_HOUR + 4 * SECS_PER_MINUTE + 5);
    assert_eq!(value.nanos(), 0);

    let value = DurationFlex::try_from("5s").unwrap();
    assert_eq!(value.secs(), 5);
    assert_eq!(value.nanos(), 0);

    let value = DurationFlex::try_from("5s5d");
    assert!(value.is_err());
}

#[test]
fn ser_string() {
    let value = DurationFlex::try_from("1w2d").unwrap().to_string();
    assert_eq!(value, "1w2d");

    let value = DurationFlex::try_from("1w2d3h4m5s").unwrap().to_string();
    assert_eq!(value, "1w2d3h4m5s");

    let value = DurationFlex::try_from("5s").unwrap().to_string();
    assert_eq!(value, "5s");

    let value = DurationFlex::try_from("1w8d3h4m5s").unwrap().to_string();
    assert_eq!(value, "2w1d3h4m5s");

    let value = DurationFlex::try_from("1w8d3h4m3605s").unwrap().to_string();
    assert_eq!(value, "2w1d4h4m5s");
}

#[test]
fn constants_are_the_unit_lengths() {
    assert_eq!(SECS_PER_MINUTE, 60);
    assert_eq!(SECS_PER_HOUR, 3600);
    assert_eq!(SECS_PER_DAY, 86400);
    assert_eq!(SECS_PER_WEEK, 604800);
    assert_eq!(MAX_SECONDS, i64::MAX / 1000);
}

#[test]
fn each_unit_alone() {
    assert_eq!(parsed("1w").secs(), 604800);
    assert_eq!(parsed("1d").secs(), 86400);
    assert_eq!(parsed("1h").secs(), 3600);
    assert_eq!(parsed("1m").secs(), 60);
    assert_eq!(parsed("1s").secs(), 1);
    assert_eq!(parsed("3w").secs(), 1814400);
    assert_eq!(parsed("23h").secs(), 82800);
    assert_eq!(parsed("49m").secs(), 2940);
}

#[test]
fn units_may_be_left_out() {
    assert_eq!(parsed("1h23m").secs(), 4980);
    assert_eq!(parsed("1w5s").secs(), 604805);
    assert_eq!(parsed("2d7m").secs(), 173220);
    assert_eq!(parsed("1w6d23h49m59s").secs(), 1208999);
}

#[test]
fn empty_text_is_zero() {
    let value = DurationFlex::try_from("").unwrap();
    assert_eq!(value.secs(), 0);
    assert_eq!(value.nanos(), 0);
    assert_eq!(written(0), "");
    assert_eq!(value.to_string(), "");
}

#[test]
fn zero_magnitudes_and_leading_zeros() {
    assert_eq!(parsed("0s").secs(), 0);
    assert_eq!(parsed("0w0d0h0m0s").secs(), 0);
    assert_eq!(parsed("007w").secs(), 7 * 604800);
    assert_eq!(parsed("00000000000000000000000000000001s").secs(), 1);
    assert_eq!(parsed("0w5s").to_string(), "5s");
}

#[test]
fn overflow_composition() {
    let value = parsed("1w8d3h4m5s");
    assert_eq!(value.secs(), 604800 + 8 * 86400 + 3 * 3600 + 4 * 60 + 5);
    assert_eq!(value.secs(), 1307045);
    assert_eq!(value.to_string(), "2w1d3h4m5s");
}

#[test]
fn second_rollover() {
    let value = parsed("1w8d3h4m3605s");
    assert_eq!(value.secs(), 1310645);
    assert_eq!(value.to_string(), "2w1d4h4m5s");
}

#[test]
fn simple_cases() {
    let value = parsed("1w2d");
    assert_eq!(value.secs(), 777600);
    assert_eq!(value.to_string(), "1w2d");
    let value = parsed("5s");
    assert_eq!(value.secs(), 5);
    assert_eq!(value.to_string(), "5s");
}

#[test]
fn out_of_order_is_invalid() {
    assert_eq!(DurationFlex::try_from("5s5d"), Err(DurationFlexError::InvalidFormat));
    assert_eq!(DurationFlex::try_from("1d1w"), Err(DurationFlexError::InvalidFormat));
    assert_eq!(DurationFlex::try_from("1m1h"), Err(DurationFlexError::InvalidFormat));
}

#[test]
fn unknown_unit_is_invalid() {
    assert_eq!(DurationFlex::try_from("1y"), Err(DurationFlexError::InvalidFormat));
    assert_eq!(DurationFlex::try_from("1W"), Err(DurationFlexError::InvalidFormat));
    assert_eq!(DurationFlex::try_from("1ms"), Err(DurationFlexError::InvalidFormat));
}

#[test]
fn malformed_texts_are_invalid() {
    for text in [
        "w", "s", "1", "12", "1w1w", "1s1s", "1w 2d", " 1w", "1w ", "-1s", "+1s", "1.5s", "1w2",
        "1ws", "ws", "1w\n", "1\u{0663}s", "\u{0661}w", "1w\u{00e9}", "\u{1f600}",
    ] {
        assert_eq!(
            DurationFlex::try_from(text),
            Err(DurationFlexError::InvalidFormat),
            "{:?}",
            text
        );
    }
}

#[test]
fn invalid_format_comes_before_out_of_range() {
    assert_eq!(
        DurationFlex::try_from("99999999999999999999999999w1y"),
        Err(DurationFlexError::InvalidFormat)
    );
    assert_eq!(
        DurationFlex::try_from("5s99999999999999999999999999d"),
        Err(DurationFlexError::InvalidFormat)
    );
}

#[test]
fn largest_durations() {
    assert_eq!(parsed("9223372036854775s").secs(), 9223372036854775);
    assert_eq!(
        DurationFlex::try_from("9223372036854776s"),
        Err(DurationFlexError::OutOfRange)
    );
    assert_eq!(parsed("15250284452w").secs(), 9223372036569600);
    assert_eq!(DurationFlex::try_from("15250284453w"), Err(DurationFlexError::OutOfRange));
    assert_eq!(parsed("106751991167d").secs(), 106751991167 * 86400);
    assert_eq!(DurationFlex::try_from("106751991168d"), Err(DurationFlexError::OutOfRange));
    assert_eq!(parsed("2562047788015h").secs(), 2562047788015 * 3600);
    assert_eq!(DurationFlex::try_from("2562047788016h"), Err(DurationFlexError::OutOfRange));
    assert_eq!(parsed("153722867280912m").secs(), 153722867280912 * 60);
    assert_eq!(DurationFlex::try_from("153722867280913m"), Err(DurationFlexError::OutOfRange));
}

#[test]
fn magnitudes_beyond_the_machine_are_out_of_range() {
    assert_eq!(
        DurationFlex::try_from("9223372036854775807s"),
        Err(DurationFlexError::OutOfRange)
    );
    assert_eq!(
        DurationFlex::try_from("9223372036854775808s"),
        Err(DurationFlexError::OutOfRange)
    );
    assert_eq!(
        DurationFlex::try_from("99999999999999999999999999999999999999999w"),
        Err(DurationFlexError::OutOfRange)
    );
    assert_eq!(
        DurationFlex::try_from("1w99999999999999999999h3s"),
        Err(DurationFlexError::OutOfRange)
    );
}

#[test]
fn total_beyond_the_range_is_out_of_range() {
    assert_eq!(parsed("15250284452w3d7h12m55s").secs(), 9223372036854775);
    assert_eq!(
        DurationFlex::try_from("15250284452w3d7h12m56s"),
        Err(DurationFlexError::OutOfRange)
    );
    assert_eq!(
        DurationFlex::try_from("9223372036854775m9223372036854775s"),
        Err(DurationFlexError::OutOfRange)
    );
}

#[test]
fn canonical_text_of_known_totals() {
    assert_eq!(written(1), "1s");
    assert_eq!(written(59), "59s");
    assert_eq!(written(60), "1m");
    assert_eq!(written(61), "1m1s");
    assert_eq!(written(3599), "59m59s");
    assert_eq!(written(3600), "1h");
    assert_eq!(written(86399), "23h59m59s");
    assert_eq!(written(86400), "1d");
    assert_eq!(written(604799), "6d23h59m59s");
    assert_eq!(written(604800), "1w");
    assert_eq!(written(604805), "1w5s");
    assert_eq!(written(694861), "1w1d1h1m1s");
    assert_eq!(written(6048000), "10w");
    assert_eq!(written(1208999), "1w6d23h49m59s");
    assert_eq!(written(MAX_SECONDS), "15250284452w3d7h12m55s");
    assert_eq!(written(i64::MAX), "15250284452471w3d15h30m7s");
}

#[test]
fn round_trip_on_sample_totals() {
    let mut totals: Vec<i64> = (0..2000).collect();
    totals.extend([
        3599, 3600, 3601, 86399, 86400, 86401, 604799, 604800, 604801, 1307045, 31536000,
        4102444800, MAX_SECONDS - 1, MAX_SECONDS,
    ]);
    for secs in totals {
        let text = written(secs);
        let back = DurationFlex::try_from(text.as_str());
        assert_eq!(back, Ok(DurationFlex::from_seconds(secs)), "{}", text);
    }
}

#[test]
fn round_trip_stops_at_the_range() {
    let text = written(MAX_SECONDS + 1);
    assert_eq!(text, "15250284452w3d7h12m56s");
    assert_eq!(DurationFlex::try_from(text.as_str()), Err(DurationFlexError::OutOfRange));
}

fn magnitudes(text: &str) -> Vec<(u64, char)> {
    let mut found = Vec::new();
    let mut digits = String::new();
    for c in text.chars() {
        if c.is_ascii_digit() {
            digits.push(c);
        } else {
            found.push((digits.parse().unwrap(), c));
            digits.clear();
        }
    }
    assert!(digits.is_empty());
    found
}

#[test]
fn canonical_text_is_reduced() {
    for secs in (0..700000i64).step_by(37).chain([MAX_SECONDS, i64::MAX]) {
        let text = written(secs);
        let found = magnitudes(&text);
        let mut last_place = 0;
        let mut total: i128 = 0;
        for (value, letter) in found {
            assert!(value != 0, "{}", text);
            let (place, span, bound) = match letter {
                'w' => (1, 604800, u64::MAX),
                'd' => (2, 86400, 7),
                'h' => (3, 3600, 24),
                'm' => (4, 60, 60),
                's' => (5, 1, 60),
                _ => panic!("{}", text),
            };
            assert!(place > last_place, "{}", text);
            assert!(value < bound, "{}", text);
            last_place = place;
            total += value as i128 * span;
        }
        assert_eq!(total, secs as i128);
    }
}

#[test]
fn parsing_then_writing_is_canonical() {
    assert_eq!(parsed("90s").to_string(), "1m30s");
    assert_eq!(parsed("25h").to_string(), "1d1h");
    assert_eq!(parsed("7d").to_string(), "1w");
    assert_eq!(parsed("60m60s").to_string(), "1h1m");
    assert_eq!(parsed("0w").to_string(), "");
    assert_eq!(parsed("1w8d3h4m5s"), parsed("2w1d3h4m5s"));
    assert_eq!(parsed("1w8d3h4m3605s"), parsed("2w1d4h4m5s"));
}

#[test]
fn ser_component_takes_whole_multiples() {
    let mut secs: i64 = 1307045;
    let mut out = String::from(">");
    DurationFlex::ser_component(&mut secs, "w", 604800, &mut out);
    assert_eq!(secs, 97445);
    assert_eq!(out, ">2w");
    DurationFlex::ser_component(&mut secs, "x", 100000, &mut out);
    assert_eq!(secs, 97445);
    assert_eq!(out, ">2w");
    DurationFlex::ser_component(&mut secs, "day", 86400, &mut out);
    assert_eq!(secs, 11045);
    assert_eq!(out, ">2w1day");
    DurationFlex::ser_component(&mut secs, "s", 1, &mut out);
    assert_eq!(secs, 0);
    assert_eq!(out, ">2w1day11045s");
}

#[test]
fn from_str_parses() {
    let value: DurationFlex = "1w2d".parse().unwrap();
    assert_eq!(value.secs(), 777600);
    let value: Result<DurationFlex, DurationFlexError> = "1y".parse();
    assert_eq!(value, Err(DurationFlexError::InvalidFormat));
    let value: Result<DurationFlex, DurationFlexError> = "9223372036854776s".parse();
    assert_eq!(value, Err(DurationFlexError::OutOfRange));
}

#[test]
fn from_seconds_keeps_the_seconds() {
    let value = DurationFlex::from_seconds(604800);
    assert_eq!(value.secs(), 604800);
    assert_eq!(value.nanos(), 0);
    assert_eq!(value.to_string(), "1w");
    let value = DurationFlex::from_seconds(-5);
    assert_eq!(value.secs(), -5);
    assert_eq!(value.nanos(), 0);
}

#[test]
fn from_parts_keeps_both() {
    let value = DurationFlex::from_parts(90, 999_999_999);
    assert_eq!(value.secs(), 90);
    assert_eq!(value.nanos(), 999_999_999);
    assert_eq!(value.to_string(), "1m30s");
    assert_eq!(value.unsigned_parts(), (90, 999_999_999));
    let value = DurationFlex::from_parts(0, 0);
    assert_eq!(value, DurationFlex::from_seconds(0));
    let value = DurationFlex::from_parts(i64::MAX as u64, 1);
    assert_eq!(value.secs(), i64::MAX);
    assert_eq!(value.unsigned_parts(), (i64::MAX as u64, 1));
}

#[test]
fn from_parts_wraps_beyond_the_signed_range() {
    assert_eq!(DurationFlex::from_parts(1 << 63, 0).secs(), i64::MIN);
    assert_eq!(DurationFlex::from_parts((1 << 63) + 5, 0).secs(), i64::MIN + 5);
    assert_eq!(DurationFlex::from_parts(u64::MAX, 0).secs(), -1);
}

#[test]
fn expected_format_names_the_units() {
    assert_eq!(
        EXPECTED_FORMAT,
        "a String with the format weeks (w), days (d), hours (h), minutes (m) and/or seconds (s), in order"
    );
}

#[test]
fn decode_accepts_what_the_parser_accepts() {
    let value = DurationFlex::decode("1w").unwrap();
    assert_eq!(value, DurationFlex::from_seconds(604800));
    let value = DurationFlex::decode("").unwrap();
    assert_eq!(value, DurationFlex::from_seconds(0));
}

#[test]
fn decode_reports_the_text_and_the_expected_form() {
    let invalid = DurationFlex::decode("5s5d").unwrap_err();
    assert_eq!(invalid.unexpected, "5s5d");
    assert_eq!(invalid.expected, EXPECTED_FORMAT);
    let invalid = DurationFlex::decode("9223372036854776s").unwrap_err();
    assert_eq!(invalid.unexpected, "9223372036854776s");
    assert_eq!(invalid.expected, EXPECTED_FORMAT);
}

#[test]
fn try_into_parses() {
    let value: Result<DurationFlex, DurationFlexError> = "1w2d".try_into();
    assert_eq!(value, Ok(DurationFlex::from_seconds(777600)));
    let value: Result<DurationFlex, DurationFlexError> = "5s5d".try_into();
    assert_eq!(value, Err(DurationFlexError::InvalidFormat));
    let value: Result<DurationFlex, DurationFlexError> = <DurationFlex as TryFrom<&str>>::try_from("15250284453w");
    assert_eq!(value, Err(DurationFlexError::OutOfRange));
}
