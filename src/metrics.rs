//! Extraction of cycle, instruction and queue counters from the text a run prints.
//!
//! The text is read line by line. Each line is matched against a fixed list of markers in
//! priority order, and only the first marker found decides what the line contributes:
//!
//! | marker                 | effect                                                       |
//! |------------------------|--------------------------------------------------------------|
//! | `mcycle`               | cycles := field 2                                            |
//! | `minstret`             | instructions := field 2                                      |
//! | `vvadd` or `matmul`    | cycles := field 7, instructions := cycles / rate in field 8  |
//! | `C0` and `instructions`| instructions := field 1                                      |
//! | `C0` and `cycles`      | cycles := field 1                                            |
//! | `AQ`                   | queue A += field 2                                           |
//! | `BQ`                   | queue B += field 2                                           |
//!
//! Fields are counted from zero and separated by single spaces. Cycles and instructions keep
//! the last value read; the queue counters add up over the whole text.
use vstd::prelude::*;
use crate::text::{
    CARRIAGE_RETURN, NEWLINE, ParseError, contains, contains_bytes, copy_range, field,
    field_at, find_byte, parse_rate, parse_unsigned, pow10, pow10_exec,
    rate_value, run_len, unsigned_value,
};

verus! {

/// The counters of one run.
#[derive(Debug, Clone, Copy, PartialEq, Eq, Structural)]
pub struct MetricSet {
    pub cycles: u32,
    pub instructions: u32,
    pub queue_a: u32,
    pub queue_b: u32,
}

pub open spec fn zero_metrics() -> MetricSet {
    MetricSet { cycles: 0, instructions: 0, queue_a: 0, queue_b: 0 }
}

impl MetricSet {
    /// The all-zero counters of a run that failed or reported nothing.
    pub fn zero() -> (r: MetricSet)
        ensures
            r == zero_metrics(),
    {
        MetricSet { cycles: 0, instructions: 0, queue_a: 0, queue_b: 0 }
    }
}

/// `mcycle`
pub open spec fn mcycle_marker() -> Seq<u8> {
    seq![109u8, 99, 121, 99, 108, 101]
}

/// `minstret`
pub open spec fn minstret_marker() -> Seq<u8> {
    seq![109u8, 105, 110, 115, 116, 114, 101, 116]
}

/// `vvadd`
pub open spec fn vvadd_marker() -> Seq<u8> {
    seq![118u8, 118, 97, 100, 100]
}

/// `matmul`
pub open spec fn matmul_marker() -> Seq<u8> {
    seq![109u8, 97, 116, 109, 117, 108]
}

/// `C0`
pub open spec fn core_marker() -> Seq<u8> {
    seq![67u8, 48]
}

/// `instructions`
pub open spec fn instructions_marker() -> Seq<u8> {
    seq![105u8, 110, 115, 116, 114, 117, 99, 116, 105, 111, 110, 115]
}

/// `cycles`
pub open spec fn cycles_marker() -> Seq<u8> {
    seq![99u8, 121, 99, 108, 101, 115]
}

/// `AQ`
pub open spec fn queue_a_marker() -> Seq<u8> {
    seq![65u8, 81]
}

/// `BQ`
pub open spec fn queue_b_marker() -> Seq<u8> {
    seq![66u8, 81]
}

/// Field `k` of a line read as an unsigned number.
pub open spec fn read_field(line: Seq<u8>, k: nat) -> Result<u32, ParseError> {
    match field(line, k) {
        Some(t) => unsigned_value(t),
        None => Err(ParseError::MissingToken),
    }
}

/// Cycles from field 7 and instructions derived from them and the rate in field 8,
/// truncated toward zero.
pub open spec fn throughput(line: Seq<u8>) -> Result<(u32, u32), ParseError> {
    match read_field(line, 7) {
        Err(e) => Err(e),
        Ok(c) => match field(line, 8) {
            None => Err(ParseError::MissingToken),
            Some(t) => match rate_value(t) {
                Err(e) => Err(e),
                Ok((n, e)) => {
                    let q = (c as nat * pow10(e)) / n;
                    if q > u32::MAX {
                        Err(ParseError::OutOfRange)
                    } else {
                        Ok((c, q as u32))
                    }
                },
            },
        },
    }
}

/// Adds a field to a queue counter, failing where the sum leaves 32 bits.
pub open spec fn accumulate(total: u32, line: Seq<u8>) -> Result<u32, ParseError> {
    match read_field(line, 2) {
        Err(e) => Err(e),
        Ok(v) => if total + v > u32::MAX {
            Err(ParseError::OutOfRange)
        } else {
            Ok((total + v) as u32)
        },
    }
}

/// What one line does to the counters: the first rule whose marker it holds applies.
pub open spec fn line_effect(m: MetricSet, line: Seq<u8>) -> Result<MetricSet, ParseError> {
    if contains(line, mcycle_marker()) {
        match read_field(line, 2) {
            Ok(v) => Ok(MetricSet { cycles: v, ..m }),
            Err(e) => Err(e),
        }
    } else if contains(line, minstret_marker()) {
        match read_field(line, 2) {
            Ok(v) => Ok(MetricSet { instructions: v, ..m }),
            Err(e) => Err(e),
        }
    } else if contains(line, vvadd_marker()) || contains(line, matmul_marker()) {
        match throughput(line) {
            Ok((c, i)) => Ok(MetricSet { cycles: c, instructions: i, ..m }),
            Err(e) => Err(e),
        }
    } else if contains(line, core_marker()) {
        if contains(line, instructions_marker()) {
            match read_field(line, 1) {
                Ok(v) => Ok(MetricSet { instructions: v, ..m }),
                Err(e) => Err(e),
            }
        } else if contains(line, cycles_marker()) {
            match read_field(line, 1) {
                Ok(v) => Ok(MetricSet { cycles: v, ..m }),
                Err(e) => Err(e),
            }
        } else {
            Ok(m)
        }
    } else if contains(line, queue_a_marker()) {
        match accumulate(m.queue_a, line) {
            Ok(v) => Ok(MetricSet { queue_a: v, ..m }),
            Err(e) => Err(e),
        }
    } else if contains(line, queue_b_marker()) {
        match accumulate(m.queue_b, line) {
            Ok(v) => Ok(MetricSet { queue_b: v, ..m }),
            Err(e) => Err(e),
        }
    } else {
        Ok(m)
    }
}

/// The line that starts at `i`: up to the next newline, without a carriage return that
/// stands right before that newline.
pub open spec fn line_at(s: Seq<u8>, i: int) -> Seq<u8> {
    let e = i + run_len(s, i, NEWLINE);
    if i < e < s.len() && s[e - 1] == CARRIAGE_RETURN {
        s.subrange(i, e - 1)
    } else {
        s.subrange(i, e)
    }
}

/// The counters after applying every line from position `i` on to `m`, or the first error.
pub open spec fn parse_from(s: Seq<u8>, i: int, m: MetricSet) -> Result<MetricSet, ParseError>
    decreases s.len() - i,
{
    if i < 0 || i >= s.len() {
        Ok(m)
    } else {
        let e = i + run_len(s, i, NEWLINE);
        match line_effect(m, line_at(s, i)) {
            Err(x) => Err(x),
            Ok(next) => if e >= s.len() {
                Ok(next)
            } else {
                parse_from(s, e + 1, next)
            },
        }
    }
}

/// The counters that a run's whole output yields, starting from zero.
pub open spec fn parse_report(s: Seq<u8>) -> Result<MetricSet, ParseError> {
    parse_from(s, 0, zero_metrics())
}

/// The marker strings, built once per parse.
struct Markers {
    mcycle: Vec<u8>,
    minstret: Vec<u8>,
    vvadd: Vec<u8>,
    matmul: Vec<u8>,
    core: Vec<u8>,
    instructions: Vec<u8>,
    cycles: Vec<u8>,
    queue_a: Vec<u8>,
    queue_b: Vec<u8>,
}

impl Markers {
    spec fn wf(&self) -> bool {
        &&& self.mcycle@ == mcycle_marker()
        &&& self.minstret@ == minstret_marker()
        &&& self.vvadd@ == vvadd_marker()
        &&& self.matmul@ == matmul_marker()
        &&& self.core@ == core_marker()
        &&& self.instructions@ == instructions_marker()
        &&& self.cycles@ == cycles_marker()
        &&& self.queue_a@ == queue_a_marker()
        &&& self.queue_b@ == queue_b_marker()
    }

    fn new() -> (r: Markers)
        ensures
            r.wf(),
    {
        let r = Markers {
            mcycle: vec![109u8, 99, 121, 99, 108, 101],
            minstret: vec![109u8, 105, 110, 115, 116, 114, 101, 116],
            vvadd: vec![118u8, 118, 97, 100, 100],
            matmul: vec![109u8, 97, 116, 109, 117, 108],
            core: vec![67u8, 48],
            instructions: vec![105u8, 110, 115, 116, 114, 117, 99, 116, 105, 111, 110, 115],
            cycles: vec![99u8, 121, 99, 108, 101, 115],
            queue_a: vec![65u8, 81],
            queue_b: vec![66u8, 81],
        };
        assert(r.mcycle@ =~= mcycle_marker());
        assert(r.minstret@ =~= minstret_marker());
        assert(r.vvadd@ =~= vvadd_marker());
        assert(r.matmul@ =~= matmul_marker());
        assert(r.core@ =~= core_marker());
        assert(r.instructions@ =~= instructions_marker());
        assert(r.cycles@ =~= cycles_marker());
        assert(r.queue_a@ =~= queue_a_marker());
        assert(r.queue_b@ =~= queue_b_marker());
        r
    }
}

fn read_field_exec(line: &[u8], k: usize) -> (r: Result<u32, ParseError>)
    ensures
        r == read_field(line@, k as nat),
{
    match field_at(line, k) {
        Some(t) => parse_unsigned(t.as_slice()),
        None => Err(ParseError::MissingToken),
    }
}

fn throughput_exec(line: &[u8]) -> (r: Result<(u32, u32), ParseError>)
    ensures
        r == throughput(line@),
{
    let c = match read_field_exec(line, 7) {
        Ok(c) => c,
        Err(e) => return Err(e),
    };
    let t = match field_at(line, 8) {
        Some(t) => t,
        None => return Err(ParseError::MissingToken),
    };
    let (n, e) = match parse_rate(t.as_slice()) {
        Ok(ne) => ne,
        Err(x) => return Err(x),
    };
    let scale = pow10_exec(e);
    assert(c as u128 * scale as u128 <= 0xffff_ffffu128 * 1_000_000_000_000_000_000u128)
        by (nonlinear_arith)
        requires
            c <= 0xffff_ffffu32,
            scale <= 1_000_000_000_000_000_000u64,
    ;
    let q: u128 = (c as u128 * scale as u128) / (n as u128);
    if q > u32::MAX as u128 {
        Err(ParseError::OutOfRange)
    } else {
        Ok((c, q as u32))
    }
}

fn accumulate_exec(total: u32, line: &[u8]) -> (r: Result<u32, ParseError>)
    ensures
        r == accumulate(total, line@),
{
    match read_field_exec(line, 2) {
        Err(e) => Err(e),
        Ok(v) => if total as u64 + v as u64 > u32::MAX as u64 {
            Err(ParseError::OutOfRange)
        } else {
            Ok(total + v)
        },
    }
}

fn apply_line(m: MetricSet, line: &[u8], mk: &Markers) -> (r: Result<MetricSet, ParseError>)
    requires
        mk.wf(),
    ensures
        r == line_effect(m, line@),
{
    if contains_bytes(line, mk.mcycle.as_slice()) {
        match read_field_exec(line, 2) {
            Ok(v) => Ok(MetricSet { cycles: v, ..m }),
            Err(e) => Err(e),
        }
    } else if contains_bytes(line, mk.minstret.as_slice()) {
        match read_field_exec(line, 2) {
            Ok(v) => Ok(MetricSet { instructions: v, ..m }),
            Err(e) => Err(e),
        }
    } else if contains_bytes(line, mk.vvadd.as_slice()) || contains_bytes(
        line,
        mk.matmul.as_slice(),
    ) {
        match throughput_exec(line) {
            Ok((c, i)) => Ok(MetricSet { cycles: c, instructions: i, ..m }),
            Err(e) => Err(e),
        }
    } else if contains_bytes(line, mk.core.as_slice()) {
        if contains_bytes(line, mk.instructions.as_slice()) {
            match read_field_exec(line, 1) {
                Ok(v) => Ok(MetricSet { instructions: v, ..m }),
                Err(e) => Err(e),
            }
        } else if contains_bytes(line, mk.cycles.as_slice()) {
            match read_field_exec(line, 1) {
                Ok(v) => Ok(MetricSet { cycles: v, ..m }),
                Err(e) => Err(e),
            }
        } else {
            Ok(m)
        }
    } else if contains_bytes(line, mk.queue_a.as_slice()) {
        match accumulate_exec(m.queue_a, line) {
            Ok(v) => Ok(MetricSet { queue_a: v, ..m }),
            Err(e) => Err(e),
        }
    } else if contains_bytes(line, mk.queue_b.as_slice()) {
        match accumulate_exec(m.queue_b, line) {
            Ok(v) => Ok(MetricSet { queue_b: v, ..m }),
            Err(e) => Err(e),
        }
    } else {
        Ok(m)
    }
}

/// Reads the counters from the whole output of a run. Lines that hold no marker are
/// skipped; a line whose rule cannot read its field makes the whole parse fail.
pub fn parse_metrics(text: &[u8]) -> (r: Result<MetricSet, ParseError>)
    ensures
        r == parse_report(text@),
{
    let mk = Markers::new();
    let mut m = MetricSet::zero();
    let mut i: usize = 0;
    while i < text.len()
        invariant
            mk.wf(),
            i <= text@.len(),
            parse_report(text@) == parse_from(text@, i as int, m),
        decreases text@.len() - i,
    {
        let e = find_byte(text, i, NEWLINE);
        let end: usize = if i < e && e < text.len() && text[e - 1] == CARRIAGE_RETURN {
            e - 1
        } else {
            e
        };
        let line = copy_range(text, i, end);
        assert(line@ == line_at(text@, i as int));
        match apply_line(m, line.as_slice(), &mk) {
            Ok(next) => m = next,
            Err(x) => return Err(x),
        }
        if e >= text.len() {
            return Ok(m);
        }
        i = e + 1;
    }
    Ok(m)
}

/// Reading the counters depends on the text alone: reading the same text twice gives the
/// same counters, or the same error.
pub proof fn parse_is_deterministic(first: Seq<u8>, second: Seq<u8>)
    requires
        first == second,
    ensures
        parse_report(first) == parse_report(second),
{
}

} // verus!
