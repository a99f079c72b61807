use duration_flex::DurationFlex;

#[test]
fn deserialize_nums() {
    let value = DurationFlex::try_from("1w2d").unwrap();
    assert_eq!(DurationFlex::try_from("1w2d"), Ok(value));

    let value = DurationFlex::try_from("1w2d3h4m5s").unwrap();
    assert_eq!(DurationFlex::try_from("1w2d3h4m5s"), Ok(value));

    let value = DurationFlex::try_from("5s").unwrap();
    assert_eq!(DurationFlex::try_from("5s"), Ok(value));

    let value = DurationFlex::try_from("1w8d3h4m5s").unwrap();
    assert_eq!(DurationFlex::try_from("2w1d3h4m5s"), Ok(value));

    let value = DurationFlex::try_from("1w8d3h4m3605s").unwrap();
    assert_eq!(DurationFlex::try_from("2w1d4h4m5s"), Ok(value));
}

#[test]
fn serialize() {
    let value = DurationFlex::try_from("1w2d").unwrap();
    assert_eq!(value.to_string(), "1w2d");

    let value = DurationFlex::try_from("1w2d3h4m5s").unwrap();
    assert_eq!(value.to_string(), "1w2d3h4m5s");

    let value = DurationFlex::try_from("5s").unwrap();
    assert_eq!(value.to_string(), "5s");

    let value = DurationFlex::try_from("1w8d3h4m5s").unwrap();
    assert_eq!(value.to_string(), "2w1d3h4m5s");

    let value = DurationFlex::try_from("1w8d3h4m3605s").unwrap();
    assert_eq!(value.to_string(), "2w1d4h4m5s");
}

struct SomeStruct {
    duration: DurationFlex,
}

#[test]
fn in_struct() {
    let week = chrono::Duration::try_weeks(1).unwrap();
    let value = SomeStruct { duration: DurationFlex::from_seconds(week.num_seconds()) };

    assert_eq!(value.duration.to_string(), "1w");
    assert_eq!(DurationFlex::try_from("1w"), Ok(value.duration));
}
