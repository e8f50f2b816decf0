use timed_sweep::args::build_args;
use timed_sweep::decimal::{u64_to_dec, u64_to_padded};
use timed_sweep::report::{status_message, tick_strings};
use timed_sweep::sample::Sample;
use timed_sweep::trace::{format_row, parse_row, replay_trace};

fn sample(scale: u32, duration_nanos: u64) -> Sample {
    Sample { scale, duration_nanos }
}

#[test]
fn decimal_of_small_and_large_numbers() {
    assert_eq!(u64_to_dec(0), "0");
    assert_eq!(u64_to_dec(7), "7");
    assert_eq!(u64_to_dec(10), "10");
    assert_eq!(u64_to_dec(123456789), "123456789");
    assert_eq!(u64_to_dec(u64::MAX), "18446744073709551615");
}

#[test]
fn padded_decimal_fills_width() {
    assert_eq!(u64_to_padded(1, 9), "000000001");
    assert_eq!(u64_to_padded(123456789, 9), "123456789");
    assert_eq!(u64_to_padded(0, 9), "000000000");
    assert_eq!(u64_to_padded(0, 0), "");
}

#[test]
fn row_renders_seconds_with_nine_fraction_digits() {
    assert_eq!(format_row(&sample(1, 1_000_000)), "1,0.001000000");
    assert_eq!(format_row(&sample(42, 1_500_000_000)), "42,1.500000000");
    assert_eq!(format_row(&sample(5, 0)), "5,0.000000000");
    assert_eq!(format_row(&sample(7, u64::MAX)), "7,18446744073.709551615");
}

#[test]
fn row_round_trips() {
    let cases = [
        sample(1, 1_000_000),
        sample(0, 0),
        sample(u32::MAX, u64::MAX),
        sample(256, 10_000_000_001),
    ];
    for s in cases {
        assert_eq!(parse_row(&format_row(&s)), Some(s));
    }
}

#[test]
fn row_parses_exact_rows_only() {
    assert_eq!(parse_row("3,0.001000000"), Some(sample(3, 1_000_000)));
    assert_eq!(parse_row(""), None);
    assert_eq!(parse_row("3"), None);
    assert_eq!(parse_row("3,"), None);
    assert_eq!(parse_row("03,0.001000000"), None);
    assert_eq!(parse_row("3,00.001000000"), None);
    assert_eq!(parse_row("3,0.0010000"), None);
    assert_eq!(parse_row("3,0.0010000000"), None);
    assert_eq!(parse_row("3,0.001000000 "), None);
    assert_eq!(parse_row("3;0.001000000"), None);
    assert_eq!(parse_row("x,0.001000000"), None);
    assert_eq!(parse_row("4294967296,0.001000000"), None);
    assert_eq!(parse_row("3,0,001000000"), None);
    assert_eq!(parse_row("-3,0.001000000"), None);
}

#[test]
fn trace_replay_reconstructs_prefix() {
    let dataset = vec![sample(1, 1_000_000), sample(2, 1_000_000), sample(3, 2_000_000)];
    let rows: Vec<String> = dataset.iter().map(format_row).collect();
    for k in 0..=rows.len() {
        let prefix: Vec<String> = rows[..k].to_vec();
        let replayed = replay_trace(&prefix).unwrap();
        assert_eq!(replayed, dataset[..k].to_vec());
    }
}

#[test]
fn trace_replay_rejects_corrupt_rows() {
    let rows = vec!["1,0.001000000".to_string(), "garbage".to_string()];
    assert_eq!(replay_trace(&rows), None);
}

#[test]
fn args_for_the_smallest_scale() {
    let args = build_args(1);
    assert_eq!(
        args,
        vec![
            "-Inav/include",
            "-std=c++20",
            "input/test_plain_enum.cpp",
            "-o",
            "output/test",
            "-DTEST_VALUES=E0",
            "-DNUM_VALUES=1",
        ]
    );
}

#[test]
fn args_list_every_enumerator() {
    let args = build_args(3);
    assert_eq!(args[5], "-DTEST_VALUES=E0, E1 = 1, E2 = 2");
    assert_eq!(args[6], "-DNUM_VALUES=3");
}

#[test]
fn status_line_shows_scale_and_latest_duration() {
    assert_eq!(
        status_message(3, 1_000_000),
        "Timing enums with 3 values (most recent time: 0.001000000s)"
    );
    assert_eq!(
        status_message(256, 2_500_000_000),
        "Timing enums with 256 values (most recent time: 2.500000000s)"
    );
}

#[test]
fn tick_strings_repeat_every_prefix() {
    let v = tick_strings(2, "ab");
    assert_eq!(v, vec!["", "", "a", "a", "ab", "ab"]);
}

#[test]
fn tick_strings_cut_at_character_boundaries() {
    let v = tick_strings(1, "U\u{1F408} ");
    assert_eq!(v, vec!["", "U", "U\u{1F408}", "U\u{1F408} "]);
}

#[test]
fn tick_strings_with_no_repeats_are_empty() {
    let v = tick_strings(0, "ab");
    assert!(v.is_empty());
}
