//! Command-line settings of the speed test: the flags, their defaults, and
//! how a list of arguments sets them.
use vstd::prelude::*;
use crate::number::{IntErrorKind, parse_unsigned_spec, parse_unsigned, decimal_text, lemma_parse_decimal_round_trip, lemma_parse_decimal_too_large};
use crate::text::{chars_of, chars_equal_str};

verus! {

/// The settings of a speed test run.
#[derive(Clone, Copy, Debug, PartialEq, Eq, Structural)]
pub struct SpeedTestArgs {
    /// Parallel downloads.
    pub threads: usize,
    /// Parallel uploads.
    pub upload_threads: usize,
    /// Number of TCP connection probes.
    pub ping_count: usize,
    /// Length of the download test, in seconds.
    pub download_seconds: u64,
    /// Length of the upload test, in seconds.
    pub upload_seconds: u64,
}

/// The settings when no flag is given.
pub open spec fn default_args() -> SpeedTestArgs {
    SpeedTestArgs {
        threads: 4,
        upload_threads: 2,
        ping_count: 3,
        download_seconds: 15,
        upload_seconds: 10,
    }
}

/// The settings when no flag is given: 4 download threads, 2 upload
/// threads, 3 probes, 15 seconds of download and 10 of upload.
pub fn default_speed_test_args() -> (a: SpeedTestArgs)
    ensures
        a == default_args(),
{
    SpeedTestArgs {
        threads: 4,
        upload_threads: 2,
        ping_count: 3,
        download_seconds: 15,
        upload_seconds: 10,
    }
}

/// What the arguments ask for.
#[derive(Clone, Copy, Debug, PartialEq, Eq, Structural)]
pub enum ArgsOutcome {
    /// Show the usage text and stop.
    Help,
    /// Run the test with these settings.
    Run(SpeedTestArgs),
}

/// Why the arguments were refused.
#[derive(Debug, PartialEq, Eq)]
pub enum ArgError {
    /// A flag that takes a value came last, without one.
    MissingValue(String),
    /// An argument that is no known flag.
    UnknownFlag(String),
    /// A value that is no unsigned number of the setting's type.
    InvalidNumber(IntErrorKind),
}

/// What an [`ArgError`] says, with texts as character sequences.
pub enum ArgFault {
    MissingValue(Seq<char>),
    UnknownFlag(Seq<char>),
    InvalidNumber(IntErrorKind),
}

impl View for ArgError {
    type V = ArgFault;

    open spec fn view(&self) -> ArgFault {
        match self {
            ArgError::MissingValue(s) => ArgFault::MissingValue(s@),
            ArgError::UnknownFlag(s) => ArgFault::UnknownFlag(s@),
            ArgError::InvalidNumber(k) => ArgFault::InvalidNumber(*k),
        }
    }
}

/// The meaning of one argument in flag position.
#[derive(Clone, Copy, Debug, PartialEq, Eq, Structural)]
pub enum Flag {
    Help,
    Threads,
    UploadThreads,
    PingCount,
    DownloadSeconds,
    UploadSeconds,
    Unknown,
}

pub open spec fn flag_of(f: Seq<char>) -> Flag {
    if f == "-h"@ || f == "--help"@ {
        Flag::Help
    } else if f == "--threads"@ {
        Flag::Threads
    } else if f == "--upload-threads"@ {
        Flag::UploadThreads
    } else if f == "--ping-count"@ {
        Flag::PingCount
    } else if f == "--download-seconds"@ {
        Flag::DownloadSeconds
    } else if f == "--upload-seconds"@ {
        Flag::UploadSeconds
    } else {
        Flag::Unknown
    }
}

/// A value of 0 counts as 1.
pub open spec fn at_least_one(v: nat) -> nat {
    if v == 0 {
        1
    } else {
        v
    }
}

/// `a` with the setting of `flag` read from `value`.
pub open spec fn apply_flag(flag: Flag, value: Seq<char>, a: SpeedTestArgs) -> Result<SpeedTestArgs, IntErrorKind> {
    let max = if flag == Flag::DownloadSeconds || flag == Flag::UploadSeconds {
        u64::MAX as nat
    } else {
        usize::MAX as nat
    };
    match parse_unsigned_spec(value, max) {
        Err(e) => Err(e),
        Ok(v) => {
            let v = at_least_one(v);
            Ok(
                match flag {
                    Flag::Threads => SpeedTestArgs { threads: v as usize, ..a },
                    Flag::UploadThreads => SpeedTestArgs { upload_threads: v as usize, ..a },
                    Flag::PingCount => SpeedTestArgs { ping_count: v as usize, ..a },
                    Flag::DownloadSeconds => SpeedTestArgs { download_seconds: v as u64, ..a },
                    Flag::UploadSeconds => SpeedTestArgs { upload_seconds: v as u64, ..a },
                    _ => a,
                },
            )
        },
    }
}

/// The outcome of reading `args` from left to right, starting from the
/// settings `a`: a help flag stops at once; every other known flag takes
/// the next argument as its value; the first problem met is the error.
pub open spec fn read_args(args: Seq<Seq<char>>, a: SpeedTestArgs) -> Result<ArgsOutcome, ArgFault>
    decreases args.len(),
{
    if args.len() == 0 {
        Ok(ArgsOutcome::Run(a))
    } else {
        let f = flag_of(args[0]);
        if f == Flag::Help {
            Ok(ArgsOutcome::Help)
        } else if f == Flag::Unknown {
            Err(ArgFault::UnknownFlag(args[0]))
        } else if args.len() < 2 {
            Err(ArgFault::MissingValue(args[0]))
        } else {
            match apply_flag(f, args[1], a) {
                Err(e) => Err(ArgFault::InvalidNumber(e)),
                Ok(a2) => read_args(args.skip(2), a2),
            }
        }
    }
}

pub open spec fn arg_views(args: Seq<String>) -> Seq<Seq<char>> {
    args.map_values(|s: String| s@)
}

/// Every setting is at least 1.
pub open spec fn all_positive(a: SpeedTestArgs) -> bool {
    a.threads >= 1 && a.upload_threads >= 1 && a.ping_count >= 1 && a.download_seconds >= 1
        && a.upload_seconds >= 1
}

/// Settings that start positive stay positive, whatever the arguments.
pub proof fn lemma_read_args_positive(args: Seq<Seq<char>>, a: SpeedTestArgs)
    requires
        all_positive(a),
    ensures
        read_args(args, a) matches Ok(ArgsOutcome::Run(b)) ==> all_positive(b),
    decreases args.len(),
{
    if args.len() >= 2 {
        let f = flag_of(args[0]);
        if f != Flag::Help && f != Flag::Unknown {
            if let Ok(a2) = apply_flag(f, args[1], a) {
                lemma_read_args_positive(args.skip(2), a2);
            }
        }
    }
}


proof fn lemma_flag_texts()
    ensures
        flag_of("--threads"@) == Flag::Threads,
        flag_of("--upload-threads"@) == Flag::UploadThreads,
        flag_of("--ping-count"@) == Flag::PingCount,
        flag_of("--download-seconds"@) == Flag::DownloadSeconds,
        flag_of("--upload-seconds"@) == Flag::UploadSeconds,
        flag_of("-h"@) == Flag::Help,
        flag_of("--help"@) == Flag::Help,
{
    reveal_strlit("-h");
    reveal_strlit("--help");
    reveal_strlit("--threads");
    reveal_strlit("--upload-threads");
    reveal_strlit("--ping-count");
    reveal_strlit("--download-seconds");
    reveal_strlit("--upload-seconds");
    assert("-h"@.len() == 2);
    assert("--help"@.len() == 6);
    assert("--threads"@.len() == 9);
    assert("--upload-threads"@.len() == 16);
    assert("--ping-count"@.len() == 12);
    assert("--download-seconds"@.len() == 18);
    assert("--upload-seconds"@.len() == 16);
    assert("--upload-threads"@[9] != "--upload-seconds"@[9]);
    assert("--threads"@ != "-h"@);
    assert("--threads"@ != "--help"@);
    assert("--upload-threads"@ != "--threads"@);
}

/// Reading a flag and then a value text that parses to `v` (below the
/// setting type's limit) gives the settings that `apply_flag` computes.
proof fn lemma_two_args(f: Seq<char>, t: Seq<char>, a: SpeedTestArgs)
    requires
        flag_of(f) != Flag::Help,
        flag_of(f) != Flag::Unknown,
    ensures
        read_args(seq![f, t], a) == match apply_flag(flag_of(f), t, a) {
            Err(e) => Err::<ArgsOutcome, ArgFault>(ArgFault::InvalidNumber(e)),
            Ok(b) => Ok::<ArgsOutcome, ArgFault>(ArgsOutcome::Run(b)),
        },
{
    let args = seq![f, t];
    assert(args.len() == 2 && args[0] == f && args[1] == t);
    assert(args.skip(2) =~= Seq::<Seq<char>>::empty());
    assert(read_args(Seq::<Seq<char>>::empty(), a) == Ok::<ArgsOutcome, ArgFault>(ArgsOutcome::Run(a)));
    match apply_flag(flag_of(f), t, a) {
        Err(e) => {},
        Ok(b) => {
            assert(read_args(args.skip(2), b) == Ok::<ArgsOutcome, ArgFault>(ArgsOutcome::Run(b)));
        },
    }
}

/// `--threads` followed by the decimal writing of `n` sets the `threads`
/// setting to `n` (0 counting as 1) and leaves every other setting as it
/// was; a number beyond the setting's type is refused as too large.
pub proof fn lemma_threads_flag(a: SpeedTestArgs, n: nat)
    ensures
        n <= usize::MAX ==> read_args(seq!["--threads"@, decimal_text(n)], a) == Ok::<ArgsOutcome, ArgFault>(
            ArgsOutcome::Run(SpeedTestArgs {
                threads: (if n == 0 { 1 } else { n }) as usize,
                upload_threads: a.upload_threads,
                ping_count: a.ping_count,
                download_seconds: a.download_seconds,
                upload_seconds: a.upload_seconds,
            }),
        ),
        n > usize::MAX ==> read_args(seq!["--threads"@, decimal_text(n)], a) == Err::<ArgsOutcome, ArgFault>(
            ArgFault::InvalidNumber(IntErrorKind::PosOverflow),
        ),
{
    lemma_flag_texts();
    lemma_two_args("--threads"@, decimal_text(n), a);
    if n <= usize::MAX {
        lemma_parse_decimal_round_trip(n, usize::MAX as nat);
    } else {
        lemma_parse_decimal_too_large(n, usize::MAX as nat);
    }
}

/// `--upload-threads` followed by the decimal writing of `n` sets the `upload_threads`
/// setting to `n` (0 counting as 1) and leaves every other setting as it
/// was; a number beyond the setting's type is refused as too large.
pub proof fn lemma_upload_threads_flag(a: SpeedTestArgs, n: nat)
    ensures
        n <= usize::MAX ==> read_args(seq!["--upload-threads"@, decimal_text(n)], a) == Ok::<ArgsOutcome, ArgFault>(
            ArgsOutcome::Run(SpeedTestArgs {
                threads: a.threads,
                upload_threads: (if n == 0 { 1 } else { n }) as usize,
                ping_count: a.ping_count,
                download_seconds: a.download_seconds,
                upload_seconds: a.upload_seconds,
            }),
        ),
        n > usize::MAX ==> read_args(seq!["--upload-threads"@, decimal_text(n)], a) == Err::<ArgsOutcome, ArgFault>(
            ArgFault::InvalidNumber(IntErrorKind::PosOverflow),
        ),
{
    lemma_flag_texts();
    lemma_two_args("--upload-threads"@, decimal_text(n), a);
    if n <= usize::MAX {
        lemma_parse_decimal_round_trip(n, usize::MAX as nat);
    } else {
        lemma_parse_decimal_too_large(n, usize::MAX as nat);
    }
}

/// `--ping-count` followed by the decimal writing of `n` sets the `ping_count`
/// setting to `n` (0 counting as 1) and leaves every other setting as it
/// was; a number beyond the setting's type is refused as too large.
pub proof fn lemma_ping_count_flag(a: SpeedTestArgs, n: nat)
    ensures
        n <= usize::MAX ==> read_args(seq!["--ping-count"@, decimal_text(n)], a) == Ok::<ArgsOutcome, ArgFault>(
            ArgsOutcome::Run(SpeedTestArgs {
                threads: a.threads,
                upload_threads: a.upload_threads,
                ping_count: (if n == 0 { 1 } else { n }) as usize,
                download_seconds: a.download_seconds,
                upload_seconds: a.upload_seconds,
            }),
        ),
        n > usize::MAX ==> read_args(seq!["--ping-count"@, decimal_text(n)], a) == Err::<ArgsOutcome, ArgFault>(
            ArgFault::InvalidNumber(IntErrorKind::PosOverflow),
        ),
{
    lemma_flag_texts();
    lemma_two_args("--ping-count"@, decimal_text(n), a);
    if n <= usize::MAX {
        lemma_parse_decimal_round_trip(n, usize::MAX as nat);
    } else {
        lemma_parse_decimal_too_large(n, usize::MAX as nat);
    }
}

/// `--download-seconds` followed by the decimal writing of `n` sets the `download_seconds`
/// setting to `n` (0 counting as 1) and leaves every other setting as it
/// was; a number beyond the setting's type is refused as too large.
pub proof fn lemma_download_seconds_flag(a: SpeedTestArgs, n: nat)
    ensures
        n <= u64::MAX ==> read_args(seq!["--download-seconds"@, decimal_text(n)], a) == Ok::<ArgsOutcome, ArgFault>(
            ArgsOutcome::Run(SpeedTestArgs {
                threads: a.threads,
                upload_threads: a.upload_threads,
                ping_count: a.ping_count,
                download_seconds: (if n == 0 { 1 } else { n }) as u64,
                upload_seconds: a.upload_seconds,
            }),
        ),
        n > u64::MAX ==> read_args(seq!["--download-seconds"@, decimal_text(n)], a) == Err::<ArgsOutcome, ArgFault>(
            ArgFault::InvalidNumber(IntErrorKind::PosOverflow),
        ),
{
    lemma_flag_texts();
    lemma_two_args("--download-seconds"@, decimal_text(n), a);
    if n <= u64::MAX {
        lemma_parse_decimal_round_trip(n, u64::MAX as nat);
    } else {
        lemma_parse_decimal_too_large(n, u64::MAX as nat);
    }
}

/// `--upload-seconds` followed by the decimal writing of `n` sets the `upload_seconds`
/// setting to `n` (0 counting as 1) and leaves every other setting as it
/// was; a number beyond the setting's type is refused as too large.
pub proof fn lemma_upload_seconds_flag(a: SpeedTestArgs, n: nat)
    ensures
        n <= u64::MAX ==> read_args(seq!["--upload-seconds"@, decimal_text(n)], a) == Ok::<ArgsOutcome, ArgFault>(
            ArgsOutcome::Run(SpeedTestArgs {
                threads: a.threads,
                upload_threads: a.upload_threads,
                ping_count: a.ping_count,
                download_seconds: a.download_seconds,
                upload_seconds: (if n == 0 { 1 } else { n }) as u64,
            }),
        ),
        n > u64::MAX ==> read_args(seq!["--upload-seconds"@, decimal_text(n)], a) == Err::<ArgsOutcome, ArgFault>(
            ArgFault::InvalidNumber(IntErrorKind::PosOverflow),
        ),
{
    lemma_flag_texts();
    lemma_two_args("--upload-seconds"@, decimal_text(n), a);
    if n <= u64::MAX {
        lemma_parse_decimal_round_trip(n, u64::MAX as nat);
    } else {
        lemma_parse_decimal_too_large(n, u64::MAX as nat);
    }
}

/// A help flag in flag position asks for the usage text, whatever follows.
pub proof fn lemma_help_first(rest: Seq<Seq<char>>, a: SpeedTestArgs)
    ensures
        read_args(seq!["-h"@] + rest, a) == Ok::<ArgsOutcome, ArgFault>(ArgsOutcome::Help),
        read_args(seq!["--help"@] + rest, a) == Ok::<ArgsOutcome, ArgFault>(ArgsOutcome::Help),
{
    lemma_flag_texts();
    assert((seq!["-h"@] + rest)[0] == "-h"@);
    assert((seq!["--help"@] + rest)[0] == "--help"@);
}

/// Reading settings is sequential: when a first part of the arguments
/// reads completely to settings `b`, the whole reads as the rest does
/// starting from `b`; so a later flag overrides an earlier one.
pub proof fn lemma_read_args_sequential(x: Seq<Seq<char>>, y: Seq<Seq<char>>, a: SpeedTestArgs, b: SpeedTestArgs)
    requires
        read_args(x, a) == Ok::<ArgsOutcome, ArgFault>(ArgsOutcome::Run(b)),
    ensures
        read_args(x + y, a) == read_args(y, b),
    decreases x.len(),
{
    if x.len() == 0 {
        assert(x + y =~= y);
    } else {
        let f = flag_of(x[0]);
        assert((x + y)[0] == x[0]);
        if x.len() >= 2 && f != Flag::Help && f != Flag::Unknown {
            assert((x + y)[1] == x[1]);
            if let Ok(a2) = apply_flag(f, x[1], a) {
                assert((x + y).skip(2) =~= x.skip(2) + y);
                lemma_read_args_sequential(x.skip(2), y, a2, b);
            }
        }
    }
}

/// No arguments leave the settings as they are; an argument in flag
/// position that is no known flag is refused by name; a known flag with
/// no value after it is refused as missing its value.
pub proof fn lemma_read_args_refusals(f: Seq<char>, rest: Seq<Seq<char>>, a: SpeedTestArgs)
    ensures
        read_args(Seq::<Seq<char>>::empty(), a) == Ok::<ArgsOutcome, ArgFault>(ArgsOutcome::Run(a)),
        flag_of(f) == Flag::Unknown ==> read_args(seq![f] + rest, a) == Err::<ArgsOutcome, ArgFault>(ArgFault::UnknownFlag(f)),
        flag_of(f) != Flag::Unknown && flag_of(f) != Flag::Help ==> read_args(seq![f], a)
            == Err::<ArgsOutcome, ArgFault>(ArgFault::MissingValue(f)),
{
    assert((seq![f] + rest)[0] == f);
}

fn classify(f: &String) -> (k: Flag)
    ensures
        k == flag_of(f@),
{
    let cs = chars_of(f.as_str());
    if chars_equal_str(&cs, "-h") || chars_equal_str(&cs, "--help") {
        Flag::Help
    } else if chars_equal_str(&cs, "--threads") {
        Flag::Threads
    } else if chars_equal_str(&cs, "--upload-threads") {
        Flag::UploadThreads
    } else if chars_equal_str(&cs, "--ping-count") {
        Flag::PingCount
    } else if chars_equal_str(&cs, "--download-seconds") {
        Flag::DownloadSeconds
    } else if chars_equal_str(&cs, "--upload-seconds") {
        Flag::UploadSeconds
    } else {
        Flag::Unknown
    }
}

/// Reads the settings of a speed test from the arguments (without the
/// program name). `-h` or `--help` asks for the usage text; `--threads`,
/// `--upload-threads`, `--ping-count`, `--download-seconds` and
/// `--upload-seconds` each take the next argument as an unsigned number,
/// a value of 0 counting as 1; a later flag overrides an earlier one.
pub fn parse_args(args: &Vec<String>) -> (r: Result<ArgsOutcome, ArgError>)
    ensures
        match r {
            Ok(o) => read_args(arg_views(args@), default_args()) == Ok::<ArgsOutcome, ArgFault>(o),
            Err(e) => read_args(arg_views(args@), default_args()) == Err::<ArgsOutcome, ArgFault>(e@),
        },
        r matches Ok(ArgsOutcome::Run(a)) ==> all_positive(a),
{
    let ghost all = arg_views(args@);
    proof {
        lemma_read_args_positive(all, default_args());
    }
    let mut a = default_speed_test_args();
    let mut i: usize = 0;
    assert(all.skip(0) == all);
    while i < args.len()
        invariant
            i <= args.len(),
            all == arg_views(args@),
            read_args(all, default_args()) == read_args(all.skip(i as int), a),
        decreases args.len() - i,
    {
        let ghost rest = all.skip(i as int);
        assert(rest[0] == args@[i as int]@);
        let flag = &args[i];
        let kind = classify(flag);
        match kind {
            Flag::Help => {
                return Ok(ArgsOutcome::Help);
            },
            Flag::Unknown => {
                return Err(ArgError::UnknownFlag(flag.clone()));
            },
            _ => {},
        }
        if i + 1 >= args.len() {
            return Err(ArgError::MissingValue(flag.clone()));
        }
        assert(rest[1] == args@[i + 1]@);
        let value = chars_of(args[i + 1].as_str());
        let is_seconds = match kind {
            Flag::DownloadSeconds => true,
            Flag::UploadSeconds => true,
            _ => false,
        };
        let max: u64 = if is_seconds {
            u64::MAX
        } else {
            usize::MAX as u64
        };
        let v = match parse_unsigned(&value, max) {
            Ok(v) => v,
            Err(e) => return Err(ArgError::InvalidNumber(e)),
        };
        let v = if v == 0 {
            1
        } else {
            v
        };
        match kind {
            Flag::Threads => {
                a.threads = v as usize;
            },
            Flag::UploadThreads => {
                a.upload_threads = v as usize;
            },
            Flag::PingCount => {
                a.ping_count = v as usize;
            },
            Flag::DownloadSeconds => {
                a.download_seconds = v;
            },
            _ => {
                a.upload_seconds = v;
            },
        }
        assert(rest.skip(2) == all.skip(i + 2));
        i = i + 2;
    }
    Ok(ArgsOutcome::Run(a))
}

} // verus!
