use bench_runner::metrics::{parse_metrics, MetricSet};
use bench_runner::text::ParseError;

fn parse(s: &str) -> Result<MetricSet, ParseError> {
    parse_metrics(s.as_bytes())
}

#[test]
fn queue_counters_add_up_over_lines() {
    let text = "AQ occupancy 5\nBQ occupancy 2\nAQ occupancy 5\nBQ occupancy 2\nAQ occupancy 5\n";
    let m = parse(text).unwrap();
    assert_eq!(m.queue_a, 15);
    assert_eq!(m.queue_b, 4);
    assert_eq!(m.cycles, 0);
    assert_eq!(m.instructions, 0);
}

#[test]
fn mcycle_reads_third_field() {
    let m = parse("mcycle = 12345").unwrap();
    assert_eq!(m.cycles, 12345);
}

#[test]
fn mcycle_field_two_is_the_number_read() {
    // the third field of this line is `y`, which is no number
    assert_eq!(parse("mcycle x y 12345"), Err(ParseError::InvalidNumber));
    assert_eq!(parse("mcycle x 12345 y").unwrap().cycles, 12345);
}

#[test]
fn minstret_reads_third_field() {
    let m = parse("minstret = 678").unwrap();
    assert_eq!(m.instructions, 678);
    assert_eq!(m.cycles, 0);
}

#[test]
fn vvadd_derives_instructions_from_rate() {
    let m = parse("vvadd a b c d e f 1000 4.0").unwrap();
    assert_eq!(m.cycles, 1000);
    assert_eq!(m.instructions, 250);
}

#[test]
fn matmul_truncates_toward_zero() {
    let m = parse("matmul a b c d e f 1000 3").unwrap();
    assert_eq!(m.cycles, 1000);
    assert_eq!(m.instructions, 333);
}

#[test]
fn fractional_rate_below_one() {
    let m = parse("vvadd a b c d e f 100 .5").unwrap();
    assert_eq!(m.instructions, 200);
    let m = parse("vvadd a b c d e f 7 +1.25").unwrap();
    assert_eq!(m.instructions, 5);
}

#[test]
fn core_labelled_counters() {
    let m = parse("C0 900 instructions\nC0 1200 cycles\n").unwrap();
    assert_eq!(m.instructions, 900);
    assert_eq!(m.cycles, 1200);
}

#[test]
fn core_line_without_label_contributes_nothing() {
    let m = parse("C0 AQ 7").unwrap();
    assert_eq!(m, MetricSet::zero());
}

#[test]
fn first_marker_wins() {
    // holds both `mcycle` and `AQ`: only the cycle rule applies
    let m = parse("mcycle AQ 42").unwrap();
    assert_eq!(m.cycles, 42);
    assert_eq!(m.queue_a, 0);
}

#[test]
fn cycles_keep_the_last_value() {
    let m = parse("mcycle = 1\nmcycle = 2\n").unwrap();
    assert_eq!(m.cycles, 2);
}

#[test]
fn unknown_lines_are_ignored() {
    assert_eq!(parse("hello world\n\nnothing here").unwrap(), MetricSet::zero());
    assert_eq!(parse("").unwrap(), MetricSet::zero());
}

#[test]
fn crlf_line_endings() {
    let m = parse("mcycle = 77\r\nAQ x 3\r\n").unwrap();
    assert_eq!(m.cycles, 77);
    assert_eq!(m.queue_a, 3);
}

#[test]
fn missing_field_is_an_error() {
    assert_eq!(parse("mcycle x"), Err(ParseError::MissingToken));
    assert_eq!(parse("vvadd a b c d e f 1000"), Err(ParseError::MissingToken));
}

#[test]
fn non_numeric_field_is_an_error() {
    assert_eq!(parse("mcycle = abc"), Err(ParseError::InvalidNumber));
    assert_eq!(parse("mcycle = "), Err(ParseError::InvalidNumber));
    assert_eq!(parse("vvadd a b c d e f 1000 4.0.0"), Err(ParseError::InvalidNumber));
}

#[test]
fn zero_rate_is_an_error() {
    assert_eq!(parse("vvadd a b c d e f 1000 0.0"), Err(ParseError::ZeroRate));
}

#[test]
fn values_beyond_32_bits_are_errors() {
    assert_eq!(parse("mcycle = 4294967296"), Err(ParseError::OutOfRange));
    assert_eq!(parse("mcycle = 4294967295").unwrap().cycles, 4294967295);
    assert_eq!(
        parse("AQ x 4294967295\nAQ x 1"),
        Err(ParseError::OutOfRange)
    );
    assert_eq!(
        parse("vvadd a b c d e f 4294967295 0.5"),
        Err(ParseError::OutOfRange)
    );
}

#[test]
fn parsing_twice_gives_the_same_counters() {
    let text = "mcycle = 10\nminstret = 5\nAQ x 1\nBQ x 9\n";
    assert_eq!(parse(text), parse(text));
    let bad = "AQ x nope";
    assert_eq!(parse(bad), parse(bad));
}
