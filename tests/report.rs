use bench_runner::metrics::MetricSet;
use bench_runner::report::{format_line, report, Suite};
use bench_runner::runs::RunOutcome;

fn outcome(name: &str, passed: bool) -> RunOutcome {
    RunOutcome {
        name: name.as_bytes().to_vec(),
        passed,
        stdout: Some(b"trace".to_vec()),
        metrics: MetricSet::zero(),
        error: None,
    }
}

fn text(line: &[u8]) -> String {
    String::from_utf8(line.to_vec()).unwrap()
}

#[test]
fn terminate_stops_after_first_failure() {
    let outs = vec![outcome("a", true), outcome("b", false), outcome("c", true)];
    let r = report(&outs, Suite::Assembly, true, false);
    assert_eq!(r.lines.len(), 2);
    assert_eq!(r.exit_code, 1);
    assert_eq!(text(&r.lines[0].text), "a: PASS");
    assert_eq!(text(&r.lines[1].text), "b: FAIL");
}

#[test]
fn run_to_completion_reports_everything() {
    let outs = vec![outcome("a", true), outcome("b", false), outcome("c", true)];
    let r = report(&outs, Suite::Assembly, false, true);
    assert_eq!(r.lines.len(), 3);
    assert_eq!(r.exit_code, 0);
    let all: Vec<String> = r.lines.iter().map(|l| text(&l.text)).collect();
    assert_eq!(all, vec!["a: PASS", "b: FAIL", "c: PASS"]);
    assert!(r.lines.iter().all(|l| l.to_log && l.to_console));
}

#[test]
fn terminate_without_failures_reports_everything() {
    let outs = vec![outcome("a", true), outcome("b", true)];
    let r = report(&outs, Suite::Assembly, true, false);
    assert_eq!(r.lines.len(), 2);
    assert_eq!(r.exit_code, 0);
    assert!(r.lines.iter().all(|l| l.to_log && !l.to_console));
}

#[test]
fn empty_report() {
    let r = report(&Vec::new(), Suite::Benchmark, true, false);
    assert!(r.lines.is_empty());
    assert_eq!(r.exit_code, 0);
}

#[test]
fn benchmark_line_format() {
    let mut o = outcome("vvadd.riscv", true);
    o.metrics = MetricSet { cycles: 1000, instructions: 250, queue_a: 15, queue_b: 4 };
    assert_eq!(
        text(&format_line(&o, Suite::Benchmark)),
        "vvadd.riscv: true, CC=1000, insts=250, AQ=15, BQ=4"
    );
    let f = outcome("qsort.riscv", false);
    assert_eq!(
        text(&format_line(&f, Suite::Benchmark)),
        "qsort.riscv: false, CC=0, insts=0, AQ=0, BQ=0"
    );
}

#[test]
fn largest_counter_is_printed_in_full() {
    let mut o = outcome("m", true);
    o.metrics.cycles = u32::MAX;
    assert_eq!(
        text(&format_line(&o, Suite::Benchmark)),
        "m: true, CC=4294967295, insts=0, AQ=0, BQ=0"
    );
}

#[test]
fn probe_failure_carries_its_output() {
    let r = report(&vec![outcome("spectre", false)], Suite::Probe, false, false);
    assert_eq!(text(&r.lines[0].text), "Spectre Attack: FAIL");
    assert_eq!(r.lines[0].detail, Some(b"trace".to_vec()));
    let p = report(&vec![outcome("spectre", true)], Suite::Probe, false, false);
    assert_eq!(text(&p.lines[0].text), "Spectre Attack: PASS");
    assert_eq!(p.lines[0].detail, None);
}
