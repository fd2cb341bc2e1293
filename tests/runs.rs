use bench_runner::metrics::MetricSet;
use bench_runner::runs::{collect_outcomes, filter_artifacts, make_outcome, test_name, RawRun, RunError};
use bench_runner::text::ParseError;

fn ok_run(out: &str) -> RawRun {
    RawRun { exit_ok: true, stdout: Some(out.as_bytes().to_vec()) }
}

#[test]
fn name_is_last_path_segment() {
    assert_eq!(test_name(b"/opt/isa/rv64ui-p-add"), b"rv64ui-p-add".to_vec());
    assert_eq!(test_name(b"plain"), b"plain".to_vec());
    assert_eq!(test_name(b"dir/"), Vec::<u8>::new());
}

#[test]
fn dump_files_are_excluded() {
    let candidates = vec![b"isa/foo".to_vec(), b"isa/foo.dump".to_vec(), b"isa/bar".to_vec()];
    let kept = filter_artifacts(&candidates, b"dump");
    assert_eq!(kept, vec![b"isa/foo".to_vec(), b"isa/bar".to_vec()]);
}

#[test]
fn empty_candidate_list_stays_empty() {
    assert!(filter_artifacts(&Vec::new(), b"dump").is_empty());
}

#[test]
fn spawn_failure_is_a_fail_with_zero_metrics() {
    let o = make_outcome(b"bench/missing.riscv", RawRun { exit_ok: false, stdout: None }, true);
    assert!(!o.passed);
    assert_eq!(o.metrics, MetricSet::zero());
    assert_eq!(o.error, Some(RunError::SpawnFailed));
    assert_eq!(o.name, b"missing.riscv".to_vec());
}

#[test]
fn undecodable_output_is_a_fail() {
    let o = make_outcome(b"t", RawRun { exit_ok: true, stdout: Some(vec![0xff, 0xfe]) }, true);
    assert!(!o.passed);
    assert_eq!(o.error, Some(RunError::UndecodableOutput));
}

#[test]
fn nonzero_exit_is_a_fail_without_metrics() {
    let o = make_outcome(b"t", RawRun { exit_ok: false, stdout: Some(b"mcycle = 5".to_vec()) }, true);
    assert!(!o.passed);
    assert_eq!(o.metrics, MetricSet::zero());
    assert_eq!(o.error, None);
}

#[test]
fn passing_run_carries_its_metrics() {
    let o = make_outcome(b"b/vvadd.riscv", ok_run("mcycle = 5\nAQ x 2\n"), true);
    assert!(o.passed);
    assert_eq!(o.metrics.cycles, 5);
    assert_eq!(o.metrics.queue_a, 2);
    assert_eq!(o.stdout, Some(b"mcycle = 5\nAQ x 2\n".to_vec()));
}

#[test]
fn unreadable_metrics_keep_the_pass() {
    let o = make_outcome(b"t", ok_run("mcycle = zz"), true);
    assert!(o.passed);
    assert_eq!(o.metrics, MetricSet::zero());
    assert_eq!(o.error, Some(RunError::Metrics(ParseError::InvalidNumber)));
}

#[test]
fn metrics_are_read_only_when_asked() {
    let o = make_outcome(b"t", ok_run("mcycle = 5"), false);
    assert!(o.passed);
    assert_eq!(o.metrics, MetricSet::zero());
}

#[test]
fn outcomes_follow_discovery_order_not_completion_order() {
    let paths = vec![b"a/t0".to_vec(), b"a/t1".to_vec(), b"a/t2".to_vec(), b"a/t3".to_vec()];
    let done = vec![
        (2, ok_run("mcycle = 2")),
        (0, ok_run("mcycle = 0")),
        (3, RawRun { exit_ok: false, stdout: Some(Vec::new()) }),
        (1, ok_run("mcycle = 1")),
    ];
    let outs = collect_outcomes(&paths, done, true).unwrap();
    assert_eq!(outs.len(), 4);
    for (i, o) in outs.iter().enumerate() {
        assert_eq!(o.name, format!("t{}", i).into_bytes());
    }
    assert_eq!(outs[0].metrics.cycles, 0);
    assert_eq!(outs[1].metrics.cycles, 1);
    assert_eq!(outs[2].metrics.cycles, 2);
    assert!(!outs[3].passed);
}

#[test]
fn every_completion_order_gives_the_same_outcomes() {
    let paths = vec![b"x".to_vec(), b"y".to_vec(), b"z".to_vec()];
    let orders = [[0usize, 1, 2], [2, 1, 0], [1, 2, 0], [0, 2, 1]];
    for order in orders.iter() {
        let done: Vec<(usize, RawRun)> =
            order.iter().map(|&i| (i, ok_run(&format!("AQ x {}", i + 1)))).collect();
        let outs = collect_outcomes(&paths, done, true).unwrap();
        let queues: Vec<u32> = outs.iter().map(|o| o.metrics.queue_a).collect();
        assert_eq!(queues, vec![1, 2, 3]);
    }
}

#[test]
fn no_artifacts_no_outcomes() {
    let outs = collect_outcomes(&Vec::new(), Vec::new(), true).unwrap();
    assert!(outs.is_empty());
}

#[test]
fn repeated_or_missing_indices_are_refused() {
    let paths = vec![b"x".to_vec(), b"y".to_vec()];
    assert!(collect_outcomes(&paths, vec![(0, ok_run("")), (0, ok_run(""))], true).is_none());
    assert!(collect_outcomes(&paths, vec![(1, ok_run(""))], true).is_none());
    assert!(collect_outcomes(&paths, vec![(0, ok_run("")), (2, ok_run(""))], true).is_none());
}
