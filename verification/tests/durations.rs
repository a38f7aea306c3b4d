use eve_remap::duration::{
    format_duration_parts, parse_duration_parts, DurationComponent, DurationError, DurationUnit,
};

fn parts(s: &str) -> Vec<(String, DurationUnit)> {
    parse_duration_parts(s)
        .unwrap()
        .into_iter()
        .map(|c: DurationComponent| (c.number, c.unit))
        .collect()
}

fn seconds(s: &str) -> u64 {
    parts(s)
        .iter()
        .map(|(n, u)| {
            let v: u64 = n.parse().unwrap();
            v * match u {
                DurationUnit::Days => 86_400,
                DurationUnit::Hours => 3_600,
                DurationUnit::Minutes => 60,
                DurationUnit::Seconds => 1,
            }
        })
        .sum()
}

#[test]
fn duration_parts_of_valid_texts() {
    assert_eq!(parts("5d"), vec![("5".to_string(), DurationUnit::Days)]);
    assert_eq!(
        parts("  3d 12h  "),
        vec![("3".to_string(), DurationUnit::Days), ("12".to_string(), DurationUnit::Hours)]
    );
    assert_eq!(seconds("3d12h"), 3 * 86_400 + 12 * 3_600);
    assert_eq!(seconds("5h30m"), 5 * 3_600 + 30 * 60);
    assert_eq!(seconds("1m 30s"), 90);
    assert_eq!(seconds("0s"), 0);
    assert_eq!(parts("1.5h"), vec![("1.5".to_string(), DurationUnit::Hours)]);
}

#[test]
fn duration_refusals() {
    assert_eq!(parse_duration_parts("").unwrap_err(), DurationError::Empty);
    assert_eq!(parse_duration_parts("   ").unwrap_err(), DurationError::Empty);
    assert_eq!(parse_duration_parts("1d 2h 3m").unwrap_err(), DurationError::TooManyComponents);
    assert_eq!(parse_duration_parts("5w").unwrap_err(), DurationError::UnknownUnit('w', "5".to_string()));
    assert_eq!(parse_duration_parts("d").unwrap_err(), DurationError::ExpectedNumber);
    assert_eq!(parse_duration_parts("12").unwrap_err(), DurationError::MissingUnit("12".to_string()));
    assert_eq!(parse_duration_parts(".h").unwrap_err(), DurationError::InvalidNumber(".".to_string()));
    assert_eq!(parse_duration_parts("5 h").unwrap_err(), DurationError::UnknownUnit(' ', "5".to_string()));
}

#[test]
fn format_whole_units() {
    assert_eq!(format_duration_parts(0, 0, 0, 0), "0s");
    assert_eq!(format_duration_parts(0, 0, 0, 1), "1s");
    assert_eq!(format_duration_parts(0, 0, 1, 0), "1m");
    assert_eq!(format_duration_parts(0, 0, 1, 1), "1m 1s");
    assert_eq!(format_duration_parts(0, 1, 0, 0), "1h");
    assert_eq!(format_duration_parts(1, 0, 0, 0), "1d");
    assert_eq!(format_duration_parts(730, 0, 0, 0), "730d");
    assert_eq!(format_duration_parts(400, 0, 0, 0), "400d");
    assert_eq!(format_duration_parts(1, 11, 30, 0), "1d 11h 30m");
    assert_eq!(format_duration_parts(0, 23, 59, 30), "23h 59m 30s");
}

#[test]
fn format_rounds_when_all_four_units_are_present() {
    assert_eq!(format_duration_parts(1, 5, 30, 45), "1d 5h 31m");
    assert_eq!(format_duration_parts(1, 5, 30, 29), "1d 5h 30m");
    assert_eq!(format_duration_parts(1, 5, 59, 30), "1d 6h");
    assert_eq!(format_duration_parts(1, 23, 59, 30), "2d");
}

#[test]
fn formatted_durations_read_back() {
    for (d, h, m, s) in [(3u64, 7u64, 0u64, 0u64), (1, 0, 0, 0), (0, 2, 45, 0), (0, 0, 12, 30), (0, 0, 0, 0)] {
        let text = format_duration_parts(d, h, m, s);
        assert_eq!(seconds(&text), d * 86_400 + h * 3_600 + m * 60 + s);
        assert_eq!(seconds(&text.replace(' ', "")), d * 86_400 + h * 3_600 + m * 60 + s);
    }
}
