use calculate_average::aggregator::{Aggregator, FinalStats, Message, Summary};
use calculate_average::pipeline::{run, Dispatcher, ResultMapping, RunError};
use calculate_average::record::{find_delimiter, parse_line, parse_sample, LineError};
use calculate_average::router::{bytes_equal, CapacityExceeded, KeyRouter};

fn lines(texts: &[&str]) -> Vec<Vec<u8>> {
    texts.iter().map(|t| t.as_bytes().to_vec()).collect()
}

fn summary(m: &ResultMapping, key: &str) -> Summary {
    m.get(key.as_bytes()).expect("key present")
}

#[test]
fn sample_scenario() {
    let m = run(&lines(&["A;10.0", "B;20.0", "A;30.0"]), 500).unwrap();
    assert_eq!(m.len(), 2);
    let a = summary(&m, "A");
    assert_eq!((a.min, a.max, a.sum, a.count), (100, 300, 400, 2));
    assert_eq!(a.mean_ceil_tenths(), 200);
    let b = summary(&m, "B");
    assert_eq!((b.min, b.max, b.sum, b.count), (200, 200, 200, 1));
    assert_eq!(b.mean_ceil_tenths(), 200);
}

#[test]
fn skipped_line_leaves_result_unchanged() {
    let plain = run(&lines(&["A;10.0", "B;20.0", "A;30.0"]), 8).unwrap();
    let mixed = run(
        &lines(&["A;10.0", "malformed-no-delimiter", "B;20.0", "A;30.0"]),
        8,
    )
    .unwrap();
    assert_eq!(mixed.len(), plain.len());
    for i in 0..plain.len() {
        assert_eq!(mixed.key_at(i), plain.key_at(i));
        assert_eq!(mixed.summary_at(i), plain.summary_at(i));
    }
    assert!(mixed.get(b"malformed-no-delimiter").is_none());
}

#[test]
fn unused_slots_do_not_appear() {
    let m = run(&lines(&["x;1.0", "y;2.0"]), 100).unwrap();
    assert_eq!(m.len(), 2);
    assert_eq!(m.key_at(0), &b"x".to_vec());
    assert_eq!(m.key_at(1), &b"y".to_vec());
}

#[test]
fn capacity_exactly_met_succeeds() {
    let m = run(&lines(&["a;1", "b;2", "c;3", "a;4"]), 3).unwrap();
    assert_eq!(m.len(), 3);
}

#[test]
fn capacity_exceeded_fails() {
    let r = run(&lines(&["a;1", "b;2", "c;3", "d;4"]), 3);
    assert_eq!(r.err(), Some(RunError::CapacityExceeded));
}

#[test]
fn zero_capacity_fails_on_first_record() {
    assert_eq!(run(&lines(&["a;1"]), 0).err(), Some(RunError::CapacityExceeded));
    assert_eq!(run(&lines(&["no delimiter"]), 0).unwrap().len(), 0);
}

#[test]
fn malformed_value_aborts() {
    let r = run(&lines(&["a;1.0", "b;abc", "c;2.0"]), 10);
    assert_eq!(r.err(), Some(RunError::MalformedValue));
}

#[test]
fn first_error_wins() {
    let r = run(&lines(&["a;1", "b;2", "c;x"]), 1);
    assert_eq!(r.err(), Some(RunError::CapacityExceeded));
    let r = run(&lines(&["a;x", "b;2"]), 1);
    assert_eq!(r.err(), Some(RunError::MalformedValue));
}

#[test]
fn empty_input_gives_empty_mapping() {
    let m = run(&Vec::new(), 4).unwrap();
    assert_eq!(m.len(), 0);
}

#[test]
fn running_twice_agrees() {
    let input = lines(&["Hamburg;12.0", "Bulawayo;8.9", "Palembang;38.8", "Hamburg;34.2", "Bulawayo;-3.1"]);
    let first = run(&input, 500).unwrap();
    let second = run(&input, 500).unwrap();
    assert_eq!(first.len(), second.len());
    for i in 0..first.len() {
        assert_eq!(first.key_at(i), second.key_at(i));
        assert_eq!(first.summary_at(i), second.summary_at(i));
    }
}

#[test]
fn samples_lie_between_min_and_max() {
    let input = lines(&["k;5.5", "k;-2.5", "k;9.9", "k;0.0"]);
    let m = run(&input, 1).unwrap();
    let s = summary(&m, "k");
    assert_eq!((s.min, s.max), (-25, 99));
    for v in [55i64, -25, 99, 0] {
        assert!(s.min <= v && v <= s.max);
    }
    assert_eq!((s.sum, s.count), (129, 4));
    assert_eq!(s.mean_ceil_tenths(), 33);
}

#[test]
fn mean_rounds_up_to_a_tenth() {
    let s = Summary { min: 0, max: 0, sum: 10, count: 3 };
    assert_eq!(s.mean_ceil_tenths(), 4);
    let s = Summary { min: 0, max: 0, sum: -10, count: 3 };
    assert_eq!(s.mean_ceil_tenths(), -3);
    let s = Summary { min: 0, max: 0, sum: -9, count: 3 };
    assert_eq!(s.mean_ceil_tenths(), -3);
    let s = Summary { min: 0, max: 0, sum: i128::MIN, count: 1 };
    assert_eq!(s.mean_ceil_tenths(), i128::MIN);
}

#[test]
fn key_with_utf8_and_extra_delimiters() {
    let m = run(&lines(&["São Paulo;21.4", "a;b;1"]), 4);
    assert_eq!(m.err(), Some(RunError::MalformedValue));
    let m = run(&lines(&["São Paulo;21.4"]), 4).unwrap();
    assert_eq!(summary(&m, "São Paulo").min, 214);
}

#[test]
fn parse_line_cases() {
    let rec = parse_line(b"Oslo;-3.4").unwrap();
    assert_eq!(rec.key, b"Oslo".to_vec());
    assert_eq!(rec.value, -34);
    assert_eq!(parse_line(b"Oslo -3.4").err(), Some(LineError::MissingDelimiter));
    assert_eq!(parse_line(b"Oslo;").err(), Some(LineError::MalformedValue));
    let rec = parse_line(b";7").unwrap();
    assert!(rec.key.is_empty());
    assert_eq!(rec.value, 70);
}

#[test]
fn parse_sample_shapes() {
    assert_eq!(parse_sample(b"12"), Some(120));
    assert_eq!(parse_sample(b"12."), Some(120));
    assert_eq!(parse_sample(b"12.3"), Some(123));
    assert_eq!(parse_sample(b".3"), Some(3));
    assert_eq!(parse_sample(b"+0.7"), Some(7));
    assert_eq!(parse_sample(b"-0.7"), Some(-7));
    assert_eq!(parse_sample(b"007.5"), Some(75));
    assert_eq!(parse_sample(b"1.25"), None);
    assert_eq!(parse_sample(b"."), None);
    assert_eq!(parse_sample(b""), None);
    assert_eq!(parse_sample(b"-"), None);
    assert_eq!(parse_sample(b"1e3"), None);
    assert_eq!(parse_sample(b" 1"), None);
    assert_eq!(parse_sample(b"--1"), None);
}

#[test]
fn parse_sample_limits() {
    assert_eq!(parse_sample(b"922337203685477580.7"), Some(i64::MAX));
    assert_eq!(parse_sample(b"922337203685477580.8"), None);
    assert_eq!(parse_sample(b"-922337203685477580.8"), Some(i64::MIN));
    assert_eq!(parse_sample(b"-922337203685477580.9"), None);
    assert_eq!(parse_sample(b"99999999999999999999999999"), None);
}

#[test]
fn delimiter_is_found_first() {
    assert_eq!(find_delimiter(b"a;b;c"), Some(1));
    assert_eq!(find_delimiter(b";"), Some(0));
    assert_eq!(find_delimiter(b"abc"), None);
    assert_eq!(find_delimiter(b""), None);
}

#[test]
fn router_binds_in_first_seen_order() {
    let mut r = KeyRouter::new(2);
    assert_eq!(r.resolve(b"x"), Ok(0));
    assert_eq!(r.resolve(b"y"), Ok(1));
    assert_eq!(r.resolve(b"x"), Ok(0));
    assert_eq!(r.resolve(b"z"), Err(CapacityExceeded));
    assert_eq!(r.len(), 2);
    assert_eq!(r.lookup(b"y"), Some(1));
    assert_eq!(r.lookup(b"z"), None);
    assert!(bytes_equal(b"ab", b"ab"));
    assert!(!bytes_equal(b"ab", b"abc"));
}

#[test]
fn dispatcher_routes_lines() {
    let mut d = Dispatcher::new(1);
    assert_eq!(d.dispatch(b"nothing here"), Ok(None));
    assert_eq!(d.dispatch(b"k;1.5"), Ok(Some((0, 15))));
    assert_eq!(d.dispatch(b"k;2"), Ok(Some((0, 20))));
    assert_eq!(d.dispatch(b"j;2"), Err(RunError::CapacityExceeded));
    assert_eq!(d.dispatch(b"k;?"), Err(RunError::MalformedValue));
    assert_eq!(d.key_at(0), &b"k".to_vec());
}

#[test]
fn aggregator_without_samples_is_undefined() {
    let mut a = Aggregator::new();
    assert_eq!(a.handle(Message::Finish), Some(FinalStats::Undefined));
}

#[test]
fn aggregator_folds_samples() {
    let mut a = Aggregator::new();
    assert_eq!(a.handle(Message::Sample(30)), None);
    assert_eq!(a.handle(Message::Sample(-10)), None);
    assert_eq!(a.handle(Message::Sample(50)), None);
    assert_eq!(a.count(), 3);
    assert_eq!(
        a.handle(Message::Finish),
        Some(FinalStats::Defined(Summary { min: -10, max: 50, sum: 70, count: 3 }))
    );
}
