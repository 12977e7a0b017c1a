use mission_core::host::{parse_args, read_result, result_location, CliError, RunError, Stage};
use mission_core::run::{run_start, run_step, RunAction, RunEvent};
use mission_core::bench::stats;
use mission_core::skill::{analyze, layout, pack_result, unpack};
use mission_core::{find_longest, parse_line, Best};

fn strings(v: &[&str]) -> Vec<String> {
    v.iter().map(|s| s.to_string()).collect()
}

#[test]
fn crew_that_does_not_read_counts_zero() {
    let m = parse_line("2045 | X | Mars | Completed | many | 100 | 98 | T-1-Y").unwrap();
    assert_eq!(m.crew, 0);
    assert_eq!(m.duration, 100);
}

#[test]
fn empty_required_field_rejects_line() {
    assert!(parse_line("2045 |  | Mars | Completed | 1 | 100 | 98 | T").is_none());
    assert!(parse_line(" | X | Mars | Completed | 1 | 100 | 98 | T").is_none());
    assert!(parse_line("2045 | X | Mars | Completed | 1 | 100 | 98 |  ").is_none());
    // the rate field may be anything, even empty
    assert!(parse_line("2045 | X | Mars | Completed | 1 | 100 |  | T").is_some());
}

#[test]
fn signed_and_extreme_durations() {
    assert_eq!(parse_line("d | X | Mars | Completed | 1 | +7 | 9 | T").unwrap().duration, 7);
    assert_eq!(parse_line("d | X | Mars | Completed | 1 | -5 | 9 | T").unwrap().duration, -5);
    assert_eq!(
        parse_line("d | X | Mars | Completed | 1 | 9223372036854775807 | 9 | T").unwrap().duration,
        i64::MAX
    );
    assert_eq!(
        parse_line("d | X | Mars | Completed | 1 | -9223372036854775808 | 9 | T").unwrap().duration,
        i64::MIN
    );
    assert!(parse_line("d | X | Mars | Completed | 1 | 9223372036854775808 | 9 | T").is_none());
    assert!(parse_line("d | X | Mars | Completed | 1 | 99999999999999999999999 | 9 | T").is_none());
    assert!(parse_line("d | X | Mars | Completed | 1 | + | 9 | T").is_none());
    assert!(parse_line("d | X | Mars | Completed | 1 | - | 9 | T").is_none());
    assert!(parse_line("d | X | Mars | Completed | 1 | 1 2 | 9 | T").is_none());
}

#[test]
fn unicode_whitespace_is_trimmed() {
    let m = parse_line("\u{a0}2045\u{3000}| X |\tMars\u{2003}| Completed | 1 | 10 | 9 | T\u{2029}").unwrap();
    assert_eq!(m.date, "2045");
    assert_eq!(m.destination, "Mars");
    assert_eq!(m.security_code, "T");
}

#[test]
fn noise_is_recognised_after_leading_whitespace() {
    assert!(parse_line("\tSYSTEM | a | b | c | 1 | 2 | 3 | d").is_none());
    assert!(parse_line("SYSTEMS | a | b | c | 1 | 2 | 3 | d").is_none());
    assert!(parse_line("  #a | a | b | c | 1 | 2 | 3 | d").is_none());
    assert!(parse_line("X#a | a | b | c | 1 | 2 | 3 | d").is_some());
}

#[test]
fn find_longest_handles_crlf_and_last_line_without_newline() {
    let log = "2045 | A | Mars | Completed | 3 | 100 | 98 | AAA\r\n2045 | B | Mars | Completed | 4 | 200 | 98 | BBB\r\n2045 | C | Mars | Completed | 5 | 300 | 98 | CCC";
    let best = find_longest(log, "Mars", "Completed").unwrap();
    assert_eq!(best.code, "CCC");
    assert_eq!(best.id, "C");
    assert_eq!(best.date, "2045");
    assert_eq!(best.crew, 5);
    assert_eq!(best.duration, 300);
}

#[test]
fn find_longest_on_empty_log_finds_nothing() {
    assert!(find_longest("", "Mars", "Completed").is_none());
    assert!(find_longest("\n\n", "Mars", "Completed").is_none());
}

#[test]
fn find_longest_keeps_negative_durations() {
    let log = "d | A | Mars | Completed | 1 | -50 | 9 | AAA\nd | B | Mars | Completed | 1 | -10 | 9 | BBB\n";
    let best = find_longest(log, "Mars", "Completed").unwrap();
    assert_eq!(best.code, "BBB");
    assert_eq!(best.duration, -10);
}

#[test]
fn find_longest_filter_is_exact() {
    let log = "d | A | mars | Completed | 1 | 50 | 9 | AAA\nd | B | Mars | Completed | 1 | 10 | 9 | BBB\n";
    let best = find_longest(log, "Mars", "Completed").unwrap();
    assert_eq!(best.code, "BBB");
    assert!(find_longest(log, "Mars ", "Completed").is_none());
}

#[test]
fn encode_writes_exact_text() {
    let b = Best {
        code: "XRT-421-ZQP".into(),
        id: "WGU-0200".into(),
        date: "2065-06-05".into(),
        duration: 1629,
        crew: 4,
    };
    assert_eq!(b.encode(), "XRT-421-ZQP|WGU-0200|2065-06-05|1629|4");
    let c = Best { code: "".into(), id: "i".into(), date: "d".into(), duration: i64::MIN, crew: -0 };
    assert_eq!(c.encode(), "|i|d|-9223372036854775808|0");
    let d = Best { code: "c".into(), id: "".into(), date: "".into(), duration: i64::MAX, crew: -7 };
    assert_eq!(d.encode(), "c|||9223372036854775807|-7");
}

#[test]
fn encode_decode_roundtrip_at_extremes() {
    for (dur, crew) in [(i64::MIN, i64::MAX), (0, -1), (-10, 10)] {
        let b = Best { code: "A B".into(), id: "".into(), date: "x".into(), duration: dur, crew };
        assert_eq!(Best::decode(&b.encode()), Some(b));
    }
}

#[test]
fn decode_rejects_wrong_shapes() {
    assert!(Best::decode("a|b|c|1").is_none());
    assert!(Best::decode("a|b|c|1|2|3").is_none());
    assert!(Best::decode("a|b|c|x|2").is_none());
    assert!(Best::decode("a|b|c|1|y").is_none());
    assert!(Best::decode("a|b|c| 1|2").is_none());
    assert!(Best::decode("").is_none());
    let b = Best::decode("a|b|c|+1|-2").unwrap();
    assert_eq!(b.duration, 1);
    assert_eq!(b.crew, -2);
    assert_eq!(b.code, "a");
}

#[test]
fn analyze_answers() {
    let log = b"2045 | A | Mars | Completed | 3 | 100 | 98 | AAA\n2045 | B | Mars | Completed | 3 | 999 | 98 | BBB\n";
    assert_eq!(analyze(log, b"Mars|Completed"), Some("BBB|B|2045|999|3".to_string()));
    assert_eq!(analyze(log, b"Venus|Completed"), Some(String::new()));
    assert_eq!(analyze(log, b"Mars"), None);
    assert_eq!(analyze(&[0xff, 0xfe], b"Mars|Completed"), None);
    assert_eq!(analyze(log, &[0xc0]), None);
    // a third piece of the filter is ignored
    assert_eq!(analyze(log, b"Mars|Completed|x"), Some("BBB|B|2045|999|3".to_string()));
}

#[test]
fn pack_and_unpack() {
    assert_eq!(pack_result(1, 2), (1u64 << 32) | 2);
    assert_eq!(pack_result(0, 0), 0);
    assert_eq!(unpack(pack_result(0xdead_beef, 0x1234)), (0xdead_beef, 0x1234));
    assert_eq!(unpack(u64::MAX), (u32::MAX, u32::MAX));
}

#[test]
fn result_location_cases() {
    assert!(matches!(result_location(0), Err(RunError::ErrorSentinel)));
    assert!(matches!(result_location(5), Err(RunError::NullPointer)));
    assert!(matches!(result_location(pack_result(3, 0)), Ok((3, 0))));
    assert!(matches!(result_location(pack_result(8, 17)), Ok((8, 17))));
}

#[test]
fn read_result_cases() {
    assert!(matches!(read_result(0, &[]), Ok(None)));
    assert!(matches!(read_result(2, &[0xff, 0xfe]), Err(RunError::NotUtf8)));
    assert!(matches!(read_result(3, b"abc"), Err(RunError::WrongShape)));
    let b = read_result(16, b"CCC|C|2045|300|5").unwrap().unwrap();
    assert_eq!(b.code, "CCC");
    assert_eq!(b.duration, 300);
    assert_eq!(b.crew, 5);
}

#[test]
fn layout_cases() {
    assert!(layout(0).is_none());
    let l = layout(1).unwrap();
    assert_eq!(l.size, 1);
    assert_eq!(l.align, 8);
    let l = layout(1000).unwrap();
    assert_eq!(l.size, 1000);
    assert_eq!(l.align, 8);
    let l = layout(u32::MAX).unwrap();
    assert_eq!(l.size, u32::MAX as usize);
}

#[test]
fn parse_args_defaults_and_usage() {
    assert!(matches!(parse_args(&strings(&["prog"])), Err(CliError::Usage)));
    assert!(matches!(parse_args(&strings(&["prog", "-h"])), Err(CliError::Usage)));
    assert!(matches!(parse_args(&strings(&["prog", "--help", "x"])), Err(CliError::Usage)));
    let a = parse_args(&strings(&["prog", "log.txt"])).unwrap();
    assert_eq!(a.log_path, "log.txt");
    assert_eq!(a.skill_path, "mission_skill.wasm");
    assert_eq!(a.destination, "Mars");
    assert_eq!(a.status, "Completed");
    assert!(!a.native);
    assert!(!a.benchmark);
    assert_eq!(a.bench_iters, 11);
}

#[test]
fn parse_args_options() {
    let a = parse_args(&strings(&[
        "prog",
        "log.txt",
        "--destination=Jupiter",
        "--status=Failed",
        "--iters=+5",
        "--native",
        "--bench",
        "--skill=x.wasm",
        "--status=",
    ]))
    .unwrap();
    assert_eq!(a.destination, "Jupiter");
    assert_eq!(a.status, "");
    assert_eq!(a.bench_iters, 5);
    assert!(a.native);
    assert!(a.benchmark);
    assert_eq!(a.skill_path, "x.wasm");
}

#[test]
fn parse_args_errors() {
    match parse_args(&strings(&["p", "l", "--iters=0"])) {
        Err(CliError::InvalidIters(v)) => assert_eq!(v, "0"),
        _ => panic!("expected an iters error"),
    }
    match parse_args(&strings(&["p", "l", "--iters=-1"])) {
        Err(CliError::InvalidIters(v)) => assert_eq!(v, "-1"),
        _ => panic!("expected an iters error"),
    }
    match parse_args(&strings(&["p", "l", "--iters=4294967296"])) {
        Err(CliError::InvalidIters(v)) => assert_eq!(v, "4294967296"),
        _ => panic!("expected an iters error"),
    }
    match parse_args(&strings(&["p", "l", "--foo", "--iters=0"])) {
        Err(CliError::UnknownArg(a)) => assert_eq!(a, "--foo"),
        _ => panic!("expected an unknown argument"),
    }
    match parse_args(&strings(&["p", "l", "--native=1"])) {
        Err(CliError::UnknownArg(a)) => assert_eq!(a, "--native=1"),
        _ => panic!("expected an unknown argument"),
    }
}

#[test]
fn stats_of_timings() {
    assert_eq!(stats(&[5, 1, 3]), (1, 3, 3, 5));
    assert_eq!(stats(&[2, 4]), (2, 4, 3, 4));
    assert_eq!(stats(&[1, 2]), (1, 2, 1, 2));
    assert_eq!(stats(&[7]), (7, 7, 7, 7));
    assert_eq!(stats(&[9, 9, 1, 9]), (1, 9, 7, 9));
}

#[test]
fn only_unicode_white_space_is_trimmed() {
    let m = parse_line("\u{85}2045 | X | Mars | Completed | 1 | 10 | 9 | T\u{1680}").unwrap();
    assert_eq!(m.date, "2045");
    assert_eq!(m.security_code, "T");
    // information separators are not white space
    let m = parse_line("\u{1c}2045 | X | Mars | Completed | 1 | 10 | 9 | T").unwrap();
    assert_eq!(m.date, "\u{1c}2045");
    // a zero width space is not white space either
    let m = parse_line("2045 | X | Mars\u{200b} | Completed | 1 | 10 | 9 | T").unwrap();
    assert_eq!(m.destination, "Mars\u{200b}");
}

fn drive(events: Vec<RunEvent>) -> Vec<String> {
    let (mut state, mut action) = run_start(10, 7);
    let mut seen = vec![describe(&action)];
    for e in events {
        let (s, a) = run_step(state, e);
        state = s;
        action = a;
        seen.push(describe(&action));
    }
    seen
}

fn describe(a: &RunAction) -> String {
    match a {
        RunAction::Alloc(n) => format!("alloc {n}"),
        RunAction::WriteLog(p) => format!("write log {p}"),
        RunAction::WriteFilter(p) => format!("write filter {p}"),
        RunAction::Analyze(a, b, c, d) => format!("analyze {a} {b} {c} {d}"),
        RunAction::Dealloc(p, n) => format!("dealloc {p} {n}"),
        RunAction::Read(p, n) => format!("read {p} {n}"),
        RunAction::Finish(Ok(None)) => "no match".to_string(),
        RunAction::Finish(Ok(Some(b))) => format!("found {}", b.code),
        RunAction::Finish(Err(e)) => format!("error {e:?}"),
    }
}

#[test]
fn run_protocol_with_a_match() {
    let text = b"CCC|C|2045|300|5".to_vec();
    let seen = drive(vec![
        RunEvent::Allocated(100),
        RunEvent::Written,
        RunEvent::Allocated(200),
        RunEvent::Written,
        RunEvent::Analyzed(pack_result(300, 16)),
        RunEvent::Freed,
        RunEvent::Freed,
        RunEvent::ResultRead(text),
        RunEvent::Freed,
    ]);
    let expected = [
        "alloc 10", "write log 100", "alloc 7", "write filter 200", "analyze 100 10 200 7",
        "dealloc 100 10", "dealloc 200 7", "read 300 16", "dealloc 300 16", "found CCC",
    ];
    assert_eq!(seen, expected);
}

#[test]
fn run_protocol_without_a_match_frees_one_byte() {
    let seen = drive(vec![
        RunEvent::Allocated(100),
        RunEvent::Written,
        RunEvent::Allocated(200),
        RunEvent::Written,
        RunEvent::Analyzed(pack_result(300, 0)),
        RunEvent::Freed,
        RunEvent::Freed,
        RunEvent::Freed,
    ]);
    assert_eq!(seen[7], "dealloc 300 1");
    assert_eq!(seen[8], "no match");
}

#[test]
fn run_protocol_frees_inputs_after_a_trap() {
    let seen = drive(vec![
        RunEvent::Allocated(100),
        RunEvent::Written,
        RunEvent::Allocated(200),
        RunEvent::Written,
        RunEvent::Trapped,
        RunEvent::Freed,
        RunEvent::Trapped,
    ]);
    assert_eq!(seen[5], "dealloc 100 10");
    assert_eq!(seen[6], "dealloc 200 7");
    assert_eq!(seen[7], format!("error {:?}", RunError::Trap(Stage::Analyze)));
}

#[test]
fn run_protocol_errors() {
    let (s, a) = run_step(run_start(1, 1).0, RunEvent::Allocated(0));
    assert!(matches!(a, RunAction::Finish(Err(RunError::LogAllocFailed))));
    let (_, a) = run_step(s, RunEvent::Freed);
    assert!(matches!(a, RunAction::Finish(Err(RunError::UnexpectedEvent))));
    let (s, _) = run_step(run_start(1, 1).0, RunEvent::Allocated(4));
    let (s, _) = run_step(s, RunEvent::Written);
    let (_, a) = run_step(s, RunEvent::Allocated(0));
    assert!(matches!(a, RunAction::Finish(Err(RunError::FilterAllocFailed))));
    let (_, a) = run_step(run_start(1, 1).0, RunEvent::Trapped);
    assert!(matches!(a, RunAction::Finish(Err(RunError::Trap(Stage::AllocLog)))));
    let mut s = run_start(1, 1).0;
    for e in [RunEvent::Allocated(4), RunEvent::Written, RunEvent::Allocated(8), RunEvent::Written, RunEvent::Analyzed(0), RunEvent::Freed] {
        s = run_step(s, e).0;
    }
    assert!(matches!(run_step(s, RunEvent::Freed).1, RunAction::Finish(Err(RunError::ErrorSentinel))));
    let mut s = run_start(1, 1).0;
    for e in [RunEvent::Allocated(4), RunEvent::Written, RunEvent::Allocated(8), RunEvent::Written, RunEvent::Analyzed(pack_result(9, 3)), RunEvent::Freed, RunEvent::Freed, RunEvent::ResultRead(vec![0xff, 0xff, 0xff])] {
        s = run_step(s, e).0;
    }
    assert!(matches!(run_step(s, RunEvent::Freed).1, RunAction::Finish(Err(RunError::NotUtf8))));
}

#[test]
fn find_longest_over_joined_logs() {
    let a = "d | A | Mars | Completed | 1 | 100 | 9 | AAA\n";
    let b = "d | B | Mars | Completed | 1 | 100 | 9 | BBB\nd | C | Mars | Completed | 1 | 50 | 9 | CCC\n";
    let c = "d | D | Mars | Completed | 1 | 101 | 9 | DDD";
    let ab = format!("{a}{b}");
    assert_eq!(find_longest(&ab, "Mars", "Completed").unwrap().code, "AAA");
    let ac = format!("{a}{c}");
    assert_eq!(find_longest(&ac, "Mars", "Completed").unwrap().code, "DDD");
    let empty_then_b = format!("{}{b}", "");
    assert_eq!(find_longest(&empty_then_b, "Mars", "Completed").unwrap().code, "BBB");
}

#[test]
fn longest_duration_does_not_depend_on_line_order() {
    let lines = [
        "d | A | Mars | Completed | 1 | 100 | 9 | AAA\n",
        "d | B | Mars | Completed | 1 | 300 | 9 | BBB\n",
        "d | C | Mars | Completed | 1 | 300 | 9 | CCC\n",
        "d | D | Venus | Completed | 1 | 900 | 9 | DDD\n",
    ];
    let forward: String = lines.concat();
    let backward: String = lines.iter().rev().copied().collect();
    let f = find_longest(&forward, "Mars", "Completed").unwrap();
    let b = find_longest(&backward, "Mars", "Completed").unwrap();
    assert_eq!(f.duration, 300);
    assert_eq!(b.duration, 300);
    assert_eq!(f.code, "BBB");
    assert_eq!(b.code, "CCC");
}

#[test]
fn stats_ignore_order_and_stay_in_range() {
    let a = [40u128, 10, 30, 20, 1000];
    let b = [1000u128, 20, 10, 40, 30];
    assert_eq!(stats(&a), stats(&b));
    let (min, med, mean, max) = stats(&a);
    assert!(min <= med && med <= max);
    assert!(min <= mean && mean <= max);
    assert_eq!((min, med, mean, max), (10, 30, 220, 1000));
}
