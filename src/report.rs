//! Report lines for run outcomes, in discovery order, and the termination policy.
use vstd::prelude::*;
use crate::runs::{RunOutcome, output_view};
use crate::text::copy_range;

verus! {

/// Which kind of suite produced the outcomes; it decides how a line reads.
#[derive(Debug, Clone, Copy, PartialEq, Eq, Structural)]
pub enum Suite {
    /// `<name>: PASS` or `<name>: FAIL`.
    Assembly,
    /// `<name>: <passed>, CC=<cycles>, insts=<instructions>, AQ=<queue a>, BQ=<queue b>`.
    Benchmark,
    /// `Spectre Attack: PASS` or `Spectre Attack: FAIL`, with the captured output on failure.
    Probe,
}

/// One line of the report: its text, text to write right after it (the captured output
/// of a failed probe), and where it goes.
#[derive(Debug)]
pub struct ReportLine {
    pub text: Vec<u8>,
    pub detail: Option<Vec<u8>>,
    pub to_log: bool,
    pub to_console: bool,
}

/// The lines to write, and the exit code the run ends with.
#[derive(Debug)]
pub struct Report {
    pub lines: Vec<ReportLine>,
    pub exit_code: i32,
}

/// `: PASS`
pub open spec fn pass_text() -> Seq<u8> {
    seq![58u8, 32, 80, 65, 83, 83]
}

/// `: FAIL`
pub open spec fn fail_text() -> Seq<u8> {
    seq![58u8, 32, 70, 65, 73, 76]
}

/// `: `
pub open spec fn colon_text() -> Seq<u8> {
    seq![58u8, 32]
}

/// `true`
pub open spec fn true_text() -> Seq<u8> {
    seq![116u8, 114, 117, 101]
}

/// `false`
pub open spec fn false_text() -> Seq<u8> {
    seq![102u8, 97, 108, 115, 101]
}

/// `, CC=`
pub open spec fn cycles_label() -> Seq<u8> {
    seq![44u8, 32, 67, 67, 61]
}

/// `, insts=`
pub open spec fn insts_label() -> Seq<u8> {
    seq![44u8, 32, 105, 110, 115, 116, 115, 61]
}

/// `, AQ=`
pub open spec fn queue_a_label() -> Seq<u8> {
    seq![44u8, 32, 65, 81, 61]
}

/// `, BQ=`
pub open spec fn queue_b_label() -> Seq<u8> {
    seq![44u8, 32, 66, 81, 61]
}

/// `Spectre Attack`
pub open spec fn probe_name() -> Seq<u8> {
    seq![83u8, 112, 101, 99, 116, 114, 101, 32, 65, 116, 116, 97, 99, 107]
}

fn pass_text_bytes() -> (r: Vec<u8>)
    ensures
        r@ == pass_text(),
{
    let r = vec![58u8, 32, 80, 65, 83, 83];
    assert(r@ =~= pass_text());
    r
}

fn fail_text_bytes() -> (r: Vec<u8>)
    ensures
        r@ == fail_text(),
{
    let r = vec![58u8, 32, 70, 65, 73, 76];
    assert(r@ =~= fail_text());
    r
}

fn colon_text_bytes() -> (r: Vec<u8>)
    ensures
        r@ == colon_text(),
{
    let r = vec![58u8, 32];
    assert(r@ =~= colon_text());
    r
}

fn true_text_bytes() -> (r: Vec<u8>)
    ensures
        r@ == true_text(),
{
    let r = vec![116u8, 114, 117, 101];
    assert(r@ =~= true_text());
    r
}

fn false_text_bytes() -> (r: Vec<u8>)
    ensures
        r@ == false_text(),
{
    let r = vec![102u8, 97, 108, 115, 101];
    assert(r@ =~= false_text());
    r
}

fn cycles_label_bytes() -> (r: Vec<u8>)
    ensures
        r@ == cycles_label(),
{
    let r = vec![44u8, 32, 67, 67, 61];
    assert(r@ =~= cycles_label());
    r
}

fn insts_label_bytes() -> (r: Vec<u8>)
    ensures
        r@ == insts_label(),
{
    let r = vec![44u8, 32, 105, 110, 115, 116, 115, 61];
    assert(r@ =~= insts_label());
    r
}

fn queue_a_label_bytes() -> (r: Vec<u8>)
    ensures
        r@ == queue_a_label(),
{
    let r = vec![44u8, 32, 65, 81, 61];
    assert(r@ =~= queue_a_label());
    r
}

fn queue_b_label_bytes() -> (r: Vec<u8>)
    ensures
        r@ == queue_b_label(),
{
    let r = vec![44u8, 32, 66, 81, 61];
    assert(r@ =~= queue_b_label());
    r
}

fn probe_name_bytes() -> (r: Vec<u8>)
    ensures
        r@ == probe_name(),
{
    let r = vec![83u8, 112, 101, 99, 116, 114, 101, 32, 65, 116, 116, 97, 99, 107];
    assert(r@ =~= probe_name());
    r
}

/// The decimal digits of `n`, without leading zeros.
pub open spec fn decimal(n: nat) -> Seq<u8>
    decreases n,
{
    if n < 10 {
        seq![(48 + n) as u8]
    } else {
        decimal(n / 10).push((48 + n % 10) as u8)
    }
}

pub open spec fn bool_text(b: bool) -> Seq<u8> {
    if b {
        true_text()
    } else {
        false_text()
    }
}

pub open spec fn verdict_text(passed: bool) -> Seq<u8> {
    if passed {
        pass_text()
    } else {
        fail_text()
    }
}

/// The text of the line that reports `o`.
pub open spec fn line_text(o: RunOutcome, suite: Suite) -> Seq<u8> {
    match suite {
        Suite::Assembly => o.name@ + verdict_text(o.passed),
        Suite::Benchmark => o.name@ + colon_text() + bool_text(o.passed) + cycles_label() + decimal(
            o.metrics.cycles as nat,
        ) + insts_label() + decimal(o.metrics.instructions as nat) + queue_a_label() + decimal(
            o.metrics.queue_a as nat,
        ) + queue_b_label() + decimal(o.metrics.queue_b as nat),
        Suite::Probe => probe_name() + verdict_text(o.passed),
    }
}

/// What follows the line: the captured output of a probe that failed.
pub open spec fn line_detail(o: RunOutcome, suite: Suite) -> Option<Seq<u8>> {
    if suite == Suite::Probe && !o.passed {
        output_view(o.stdout)
    } else {
        None
    }
}

/// How many outcomes from position `i` on passed before the first failure.
pub open spec fn passes_from(o: Seq<RunOutcome>, i: int) -> nat
    decreases o.len() - i,
{
    if 0 <= i < o.len() && o[i].passed {
        1 + passes_from(o, i + 1)
    } else {
        0
    }
}

/// The termination policy fires: it is on and some outcome failed.
pub open spec fn stops_early(o: Seq<RunOutcome>, terminate: bool) -> bool {
    terminate && passes_from(o, 0) < o.len()
}

/// How many outcomes are reported: up to and including the first failure when the policy
/// fires, all of them otherwise.
pub open spec fn reported_count(o: Seq<RunOutcome>, terminate: bool) -> nat {
    if stops_early(o, terminate) {
        passes_from(o, 0) + 1
    } else {
        o.len()
    }
}

proof fn lemma_passes_from(o: Seq<RunOutcome>, i: int)
    requires
        0 <= i <= o.len(),
    ensures
        i + passes_from(o, i) <= o.len(),
        forall|j: int| i <= j < i + passes_from(o, i) ==> o[j].passed,
        i + passes_from(o, i) < o.len() ==> !o[i + passes_from(o, i)].passed,
    decreases o.len() - i,
{
    if i < o.len() && o[i].passed {
        lemma_passes_from(o, i + 1);
    }
}

fn append_bytes(out: &mut Vec<u8>, s: &[u8])
    ensures
        final(out)@ == old(out)@ + s@,
{
    let mut i: usize = 0;
    while i < s.len()
        invariant
            i <= s@.len(),
            out@ == old(out)@ + s@.subrange(0, i as int),
        decreases s@.len() - i,
    {
        out.push(s[i]);
        proof {
            assert(out@ =~= old(out)@ + s@.subrange(0, i + 1));
        }
        i = i + 1;
    }
    proof {
        assert(s@.subrange(0, i as int) =~= s@);
    }
}

fn push_decimal(out: &mut Vec<u8>, n: u32)
    ensures
        final(out)@ == old(out)@ + decimal(n as nat),
    decreases n,
{
    if n >= 10 {
        push_decimal(out, n / 10);
    }
    out.push(48 + (n % 10) as u8);
    proof {
        if n >= 10 {
            assert(out@ =~= old(out)@ + decimal(n as nat));
        } else {
            assert(out@ =~= old(out)@ + decimal(n as nat));
        }
    }
}

/// The text of the line that reports `o`.
pub fn format_line(o: &RunOutcome, suite: Suite) -> (r: Vec<u8>)
    ensures
        r@ == line_text(*o, suite),
{
    let mut r: Vec<u8> = Vec::new();
    match suite {
        Suite::Assembly => {
            append_bytes(&mut r, o.name.as_slice());
            if o.passed {
                append_bytes(&mut r, pass_text_bytes().as_slice());
            } else {
                append_bytes(&mut r, fail_text_bytes().as_slice());
            }
        },
        Suite::Benchmark => {
            append_bytes(&mut r, o.name.as_slice());
            append_bytes(&mut r, colon_text_bytes().as_slice());
            if o.passed {
                append_bytes(&mut r, true_text_bytes().as_slice());
            } else {
                append_bytes(&mut r, false_text_bytes().as_slice());
            }
            append_bytes(&mut r, cycles_label_bytes().as_slice());
            push_decimal(&mut r, o.metrics.cycles);
            append_bytes(&mut r, insts_label_bytes().as_slice());
            push_decimal(&mut r, o.metrics.instructions);
            append_bytes(&mut r, queue_a_label_bytes().as_slice());
            push_decimal(&mut r, o.metrics.queue_a);
            append_bytes(&mut r, queue_b_label_bytes().as_slice());
            push_decimal(&mut r, o.metrics.queue_b);
        },
        Suite::Probe => {
            append_bytes(&mut r, probe_name_bytes().as_slice());
            if o.passed {
                append_bytes(&mut r, pass_text_bytes().as_slice());
            } else {
                append_bytes(&mut r, fail_text_bytes().as_slice());
            }
        },
    }
    proof {
        assert(r@ =~= line_text(*o, suite));
    }
    r
}

/// Reports `outcomes` in their order, one line each. When `terminate` is set, reporting
/// stops at the first failure, which is still reported, and the exit code is 1; otherwise
/// every outcome is reported and the exit code is 0. Every line goes to the log, and to
/// the console too when `echo` is set.
pub fn report(outcomes: &Vec<RunOutcome>, suite: Suite, terminate: bool, echo: bool) -> (r: Report)
    ensures
        r.lines@.len() == reported_count(outcomes@, terminate),
        forall|i: int|
            0 <= i < r.lines@.len() ==> {
                &&& (#[trigger] r.lines@[i]).text@ == line_text(outcomes@[i], suite)
                &&& output_view(r.lines@[i].detail) == line_detail(outcomes@[i], suite)
                &&& r.lines@[i].to_log
                &&& r.lines@[i].to_console == echo
            },
        r.exit_code == (if stops_early(outcomes@, terminate) {
            1i32
        } else {
            0i32
        }),
{
    proof {
        lemma_passes_from(outcomes@, 0);
    }
    let mut lines: Vec<ReportLine> = Vec::new();
    let mut i: usize = 0;
    while i < outcomes.len()
        invariant
            i <= outcomes@.len(),
            lines@.len() == i,
            terminate ==> passes_from(outcomes@, 0) >= i,
            forall|j: int|
                0 <= j < i ==> {
                    &&& (#[trigger] lines@[j]).text@ == line_text(outcomes@[j], suite)
                    &&& output_view(lines@[j].detail) == line_detail(outcomes@[j], suite)
                    &&& lines@[j].to_log
                    &&& lines@[j].to_console == echo
                },
            0 + passes_from(outcomes@, 0) <= outcomes@.len(),
            forall|j: int| 0 <= j < passes_from(outcomes@, 0) ==> outcomes@[j].passed,
            passes_from(outcomes@, 0) < outcomes@.len() ==> !outcomes@[passes_from(outcomes@, 0) as int].passed,
        decreases outcomes@.len() - i,
    {
        let o = &outcomes[i];
        let text = format_line(o, suite);
        let detail = if matches!(suite, Suite::Probe) && !o.passed {
            match &o.stdout {
                Some(out) => {
                    proof {
                        assert(out@.subrange(0, out@.len() as int) =~= out@);
                    }
                    Some(copy_range(out.as_slice(), 0, out.len()))
                },
                None => None,
            }
        } else {
            None
        };
        lines.push(ReportLine { text, detail, to_log: true, to_console: echo });
        if terminate && !o.passed {
            return Report { lines, exit_code: 1 };
        }
        i = i + 1;
    }
    Report { lines, exit_code: 0 }
}

} // verus!
