use pbox_speedtest::cli::{default_speed_test_args, parse_args, ArgError, ArgsOutcome, SpeedTestArgs};
use pbox_speedtest::number::{parse_unsigned, IntErrorKind};
use pbox_speedtest::text::chars_of;

fn args(list: &[&str]) -> Vec<String> {
    list.iter().map(|s| s.to_string()).collect()
}

#[test]
fn defaults_match_the_documentation() {
    let d = SpeedTestArgs { threads: 4, upload_threads: 2, ping_count: 3, download_seconds: 15, upload_seconds: 10 };
    assert_eq!(default_speed_test_args(), d);
    assert_eq!(parse_args(&args(&[])), Ok(ArgsOutcome::Run(d)));
}

#[test]
fn documented_invocation() {
    let r = parse_args(&args(&[
        "--threads", "4", "--upload-threads", "2", "--ping-count", "3", "--download-seconds", "15",
        "--upload-seconds", "10",
    ]));
    assert_eq!(r, Ok(ArgsOutcome::Run(default_speed_test_args())));
    let r = parse_args(&args(&["--threads", "8", "--upload-seconds", "30"]));
    assert_eq!(
        r,
        Ok(ArgsOutcome::Run(SpeedTestArgs {
            threads: 8,
            upload_threads: 2,
            ping_count: 3,
            download_seconds: 15,
            upload_seconds: 30
        }))
    );
}

#[test]
fn zero_counts_as_one_and_later_flag_wins() {
    let r = parse_args(&args(&["--threads", "0", "--ping-count", "5", "--ping-count", "+7"]));
    assert_eq!(
        r,
        Ok(ArgsOutcome::Run(SpeedTestArgs {
            threads: 1,
            upload_threads: 2,
            ping_count: 7,
            download_seconds: 15,
            upload_seconds: 10
        }))
    );
}

#[test]
fn help_flags() {
    assert_eq!(parse_args(&args(&["-h"])), Ok(ArgsOutcome::Help));
    assert_eq!(parse_args(&args(&["--threads", "2", "--help", "--bogus"])), Ok(ArgsOutcome::Help));
}

#[test]
fn argument_errors() {
    assert_eq!(parse_args(&args(&["--bogus", "-h"])), Err(ArgError::UnknownFlag("--bogus".to_string())));
    assert_eq!(parse_args(&args(&["--threads"])), Err(ArgError::MissingValue("--threads".to_string())));
    assert_eq!(parse_args(&args(&["--threads", "x"])), Err(ArgError::InvalidNumber(IntErrorKind::InvalidDigit)));
    assert_eq!(parse_args(&args(&["--threads", ""])), Err(ArgError::InvalidNumber(IntErrorKind::Empty)));
    assert_eq!(
        parse_args(&args(&["--download-seconds", "18446744073709551616"])),
        Err(ArgError::InvalidNumber(IntErrorKind::PosOverflow))
    );
    assert_eq!(
        parse_args(&args(&["--download-seconds", "18446744073709551615"])),
        Ok(ArgsOutcome::Run(SpeedTestArgs {
            threads: 4,
            upload_threads: 2,
            ping_count: 3,
            download_seconds: u64::MAX,
            upload_seconds: 10
        }))
    );
    // a value is taken as it comes, even when it looks like a flag
    assert_eq!(parse_args(&args(&["--threads", "-h"])), Err(ArgError::InvalidNumber(IntErrorKind::InvalidDigit)));
}

#[test]
fn unsigned_parsing_outcomes() {
    let p = |s: &str, max: u64| parse_unsigned(&chars_of(s), max);
    assert_eq!(p("0", 255), Ok(0));
    assert_eq!(p("007", 255), Ok(7));
    assert_eq!(p("+255", 255), Ok(255));
    assert_eq!(p("256", 255), Err(IntErrorKind::PosOverflow));
    assert_eq!(p("", 255), Err(IntErrorKind::Empty));
    assert_eq!(p("+", 255), Err(IntErrorKind::InvalidDigit));
    assert_eq!(p("-", 255), Err(IntErrorKind::InvalidDigit));
    assert_eq!(p("-0", 255), Err(IntErrorKind::InvalidDigit));
    assert_eq!(p("999x", 255), Err(IntErrorKind::PosOverflow));
    assert_eq!(p("2x999", 255), Err(IntErrorKind::InvalidDigit));
    assert_eq!(p(" 1", 255), Err(IntErrorKind::InvalidDigit));
    assert_eq!(p("٣", 255), Err(IntErrorKind::InvalidDigit));
}
