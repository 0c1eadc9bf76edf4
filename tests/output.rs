use calculate_average::output::{get_output_filename, push_tenths};

fn tenths(v: i128) -> String {
    let mut out = Vec::new();
    push_tenths(&mut out, v);
    String::from_utf8(out).unwrap()
}

#[test]
fn tenths_are_written_with_one_decimal() {
    assert_eq!(tenths(0), "0.0");
    assert_eq!(tenths(5), "0.5");
    assert_eq!(tenths(-5), "-0.5");
    assert_eq!(tenths(123), "12.3");
    assert_eq!(tenths(-1234), "-123.4");
    assert_eq!(tenths(i128::MIN), "-17014118346046923173168730371588410572.8");
}

#[test]
fn output_filename_from_path() {
    assert_eq!(get_output_filename("measurements.txt"), Some("measurements.out".to_string()));
    assert_eq!(
        get_output_filename("../../test/resources/samples/measurements-1.txt"),
        Some("measurements-1.out".to_string())
    );
    assert_eq!(get_output_filename("data/a.b.c"), Some("a.out".to_string()));
    assert_eq!(get_output_filename("plain"), Some("plain.out".to_string()));
    assert_eq!(get_output_filename("/"), None);
    assert_eq!(get_output_filename("dir/.."), None);
}

use calculate_average::output::{bytes_less, format_results, sorted_order};
use calculate_average::pipeline::run;

fn input(texts: &[&str]) -> Vec<Vec<u8>> {
    texts.iter().map(|t| t.as_bytes().to_vec()).collect()
}

#[test]
fn results_line_for_sample_input() {
    let m = run(&input(&["A;10.0", "B;20.0", "A;30.0"]), 500).unwrap();
    let text = String::from_utf8(format_results(&m)).unwrap();
    assert_eq!(text, "{A=10.0/20.0/30.0, B=20.0/20.0/20.0}\n");
}

#[test]
fn results_line_is_sorted_by_key() {
    let m = run(&input(&["b;1.0", "c;-1.5", "a;2.0", "b;1.1", "Z;0.0"]), 10).unwrap();
    let text = String::from_utf8(format_results(&m)).unwrap();
    assert_eq!(text, "{Z=0.0/0.0/0.0, a=2.0/2.0/2.0, b=1.0/1.1/1.1, c=-1.5/-1.5/-1.5}\n");
    assert_eq!(sorted_order(&m), vec![3, 2, 0, 1]);
}

#[test]
fn results_line_mean_rounds_up() {
    let m = run(&input(&["k;1.0", "k;1.0", "k;1.1"]), 1).unwrap();
    let text = String::from_utf8(format_results(&m)).unwrap();
    assert_eq!(text, "{k=1.0/1.1/1.1}\n");
}

#[test]
fn results_line_for_no_keys() {
    let m = run(&input(&["nothing"]), 1).unwrap();
    assert_eq!(format_results(&m), b"{}\n".to_vec());
}

#[test]
fn byte_order_of_keys() {
    assert!(bytes_less(b"ab", b"b"));
    assert!(bytes_less(b"a", b"ab"));
    assert!(!bytes_less(b"ab", b"ab"));
    assert!(!bytes_less(b"b", b"ab"));
    assert!(bytes_less(b"", b"a"));
    assert!(bytes_less(b"Z", b"a"));
}
