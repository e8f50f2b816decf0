//! The durable trace codec. Every sample is recorded as one row of text:
//! the scale in canonical decimal, a comma, and the duration rendered as
//! seconds with exactly nine fractional digits. Rows are appended and
//! flushed one by one while the sweep runs, so a crash leaves a trace whose
//! rows are a prefix of the in-memory dataset; replaying such a trace
//! reconstructs exactly that prefix.

use vstd::prelude::*;

use vstd::arithmetic::div_mod::{
    lemma_fundamental_div_mod, lemma_fundamental_div_mod_converse,
};

use crate::decimal::{
    dec_digits, dec_value, digits_end, is_canonical_dec, is_digit_char, all_digits,
    lemma_dec_digits_canonical, lemma_dec_value_of_digits, lemma_digits_end,
    lemma_digits_end_of_run, lemma_digits_of_dec_value, lemma_padded_digits_shape,
    lemma_padded_of_dec_value, lemma_padded_value_of_digits, lemma_pow10_9,
    padded_digits, scan_number, u64_to_dec, u64_to_padded,
};
use crate::sample::Sample;

verus! {

/// Nanoseconds in one second: the split between a duration's whole-second
/// digits and its nine fractional digits.
pub const NANOS_PER_SEC: u64 = 1_000_000_000;

/// The greatest whole-second count any nanosecond duration can have.
pub const MAX_WHOLE_SECS: u64 = 18_446_744_073;

/// The row recorded for one sample.
pub open spec fn row_spec(s: Sample) -> Seq<char> {
    dec_digits(s.scale as nat) + seq![','] + dec_digits((s.duration_nanos / NANOS_PER_SEC) as nat)
        + seq!['.'] + padded_digits((s.duration_nanos % NANOS_PER_SEC) as nat, 9)
}

/// Renders one sample as its trace row.
pub fn format_row(s: &Sample) -> (r: String)
    ensures
        r@ == row_spec(*s),
{
    let mut out = u64_to_dec(s.scale as u64);
    out.append(",");
    let secs_part = u64_to_dec(s.duration_nanos / NANOS_PER_SEC);
    out.append(secs_part.as_str());
    out.append(".");
    let frac_part = u64_to_padded(s.duration_nanos % NANOS_PER_SEC, 9);
    out.append(frac_part.as_str());
    proof {
        reveal_strlit(",");
        reveal_strlit(".");
        assert(","@ =~= seq![',']);
        assert("."@ =~= seq!['.']);
        assert(out@ =~= row_spec(*s));
    }
    out
}

/// How a recorded row decomposes: the two separators sit right after the
/// two canonical digit runs, the fractional part is the nine last digits,
/// and the three runs denote the sample's scale, whole seconds and
/// fractional nanoseconds.
pub proof fn lemma_row_structure(line: Seq<char>, s: Sample)
    requires
        line == row_spec(s),
    ensures
        ({
            let l1 = dec_digits(s.scale as nat).len() as int;
            let l2 = dec_digits((s.duration_nanos / NANOS_PER_SEC) as nat).len() as int;
            &&& line.len() == l1 + 1 + l2 + 1 + 9
            &&& digits_end(line, 0) == l1
            &&& line[l1] == ','
            &&& digits_end(line, l1 + 1) == l1 + 1 + l2
            &&& line[l1 + 1 + l2] == '.'
            &&& digits_end(line, l1 + 1 + l2 + 1) == line.len()
            &&& is_canonical_dec(line.subrange(0, l1))
            &&& dec_value(line.subrange(0, l1)) == s.scale as nat
            &&& is_canonical_dec(line.subrange(l1 + 1, l1 + 1 + l2))
            &&& dec_value(line.subrange(l1 + 1, l1 + 1 + l2)) == (s.duration_nanos
                / NANOS_PER_SEC) as nat
            &&& all_digits(line.subrange(l1 + 1 + l2 + 1, line.len() as int))
            &&& dec_value(line.subrange(l1 + 1 + l2 + 1, line.len() as int)) == (s.duration_nanos
                % NANOS_PER_SEC) as nat
        }),
{
    let d1 = dec_digits(s.scale as nat);
    let d2 = dec_digits((s.duration_nanos / NANOS_PER_SEC) as nat);
    let d3 = padded_digits((s.duration_nanos % NANOS_PER_SEC) as nat, 9);
    let l1 = d1.len() as int;
    let l2 = d2.len() as int;
    lemma_dec_digits_canonical(s.scale as nat);
    lemma_dec_digits_canonical((s.duration_nanos / NANOS_PER_SEC) as nat);
    lemma_padded_digits_shape((s.duration_nanos % NANOS_PER_SEC) as nat, 9);
    lemma_dec_value_of_digits(s.scale as nat);
    lemma_dec_value_of_digits((s.duration_nanos / NANOS_PER_SEC) as nat);
    lemma_pow10_9();
    lemma_padded_value_of_digits((s.duration_nanos % NANOS_PER_SEC) as nat, 9);
    assert(line.subrange(0, l1) =~= d1);
    assert(line.subrange(l1 + 1, l1 + 1 + l2) =~= d2);
    assert(line.subrange(l1 + 1 + l2 + 1, line.len() as int) =~= d3);
    assert(line[l1] == ',');
    assert(line[l1 + 1 + l2] == '.');
    assert(!is_digit_char(','));
    assert(!is_digit_char('.'));
    lemma_digits_end_of_run(line, 0, l1);
    lemma_digits_end_of_run(line, l1 + 1, l1 + 1 + l2);
    lemma_digits_end_of_run(line, l1 + 1 + l2 + 1, line.len() as int);
}

/// Two samples with the same recorded row are the same sample.
pub proof fn lemma_row_injective(a: Sample, b: Sample)
    requires
        row_spec(a) == row_spec(b),
    ensures
        a == b,
{
    let line = row_spec(a);
    lemma_row_structure(line, a);
    lemma_row_structure(line, b);
    lemma_fundamental_div_mod(a.duration_nanos as int, NANOS_PER_SEC as int);
    lemma_fundamental_div_mod(b.duration_nanos as int, NANOS_PER_SEC as int);
}

/// Parses one line of the trace: `Some` exactly for the lines that are the
/// recorded row of a sample, and then for that sample.
pub fn parse_row(line: &str) -> (r: Option<Sample>)
    ensures
        r matches Some(s) ==> line@ == row_spec(s),
        forall|s: Sample| line@ == row_spec(s) ==> r == Some(s),
{
    let n = line.unicode_len();
    // Scale: a canonical digit run that fits a scale parameter.
    let scan1 = scan_number(line, 0, 0xffff_ffff);
    if scan1.is_none() {
        proof {
            assert forall|s: Sample| line@ != row_spec(s) by {
                if line@ == row_spec(s) {
                    lemma_row_structure(line@, s);
                }
            }
        }
        return None;
    }
    let (e1, v1) = scan1.unwrap();
    proof {
        lemma_digits_end(line@, 0);
    }
    if line.get_char(0) == '0' && e1 > 1 {
        proof {
            lemma_digits_end(line@, 0);
            assert forall|s: Sample| line@ != row_spec(s) by {
                if line@ == row_spec(s) {
                    lemma_row_structure(line@, s);
                    assert(line@.subrange(0, e1 as int)[0] == line@[0]);
                }
            }
        }
        return None;
    }
    if e1 == n || !(line.get_char(e1) == ',') {
        proof {
            assert forall|s: Sample| line@ != row_spec(s) by {
                if line@ == row_spec(s) {
                    lemma_row_structure(line@, s);
                }
            }
        }
        return None;
    }
    // Whole seconds: a canonical digit run that fits a nanosecond total.
    let scan2 = scan_number(line, e1 + 1, MAX_WHOLE_SECS);
    if scan2.is_none() {
        proof {
            assert forall|s: Sample| line@ != row_spec(s) by {
                if line@ == row_spec(s) {
                    lemma_row_structure(line@, s);
                    assert((s.duration_nanos / NANOS_PER_SEC) as nat <= MAX_WHOLE_SECS as nat)
                        by (nonlinear_arith)
                        requires
                            s.duration_nanos <= u64::MAX,
                            NANOS_PER_SEC == 1_000_000_000u64,
                            MAX_WHOLE_SECS == 18_446_744_073u64,
                    ;
                }
            }
        }
        return None;
    }
    let (e2, v2) = scan2.unwrap();
    proof {
        lemma_digits_end(line@, e1 as int + 1);
    }
    if line.get_char(e1 + 1) == '0' && e2 > e1 + 2 {
        proof {
            lemma_digits_end(line@, e1 as int + 1);
            assert forall|s: Sample| line@ != row_spec(s) by {
                if line@ == row_spec(s) {
                    lemma_row_structure(line@, s);
                    assert(line@.subrange(e1 as int + 1, e2 as int)[0] == line@[e1 as int + 1]);
                }
            }
        }
        return None;
    }
    if e2 == n || !(line.get_char(e2) == '.') {
        proof {
            assert forall|s: Sample| line@ != row_spec(s) by {
                if line@ == row_spec(s) {
                    lemma_row_structure(line@, s);
                }
            }
        }
        return None;
    }
    // Fractional nanoseconds: exactly nine digits closing the line.
    let scan3 = scan_number(line, e2 + 1, 999_999_999);
    if scan3.is_none() {
        proof {
            assert forall|s: Sample| line@ != row_spec(s) by {
                if line@ == row_spec(s) {
                    lemma_row_structure(line@, s);
                    lemma_pow10_9();
                    lemma_padded_digits_shape((s.duration_nanos % NANOS_PER_SEC) as nat, 9);
                    lemma_padded_value_of_digits((s.duration_nanos % NANOS_PER_SEC) as nat, 9);
                }
            }
        }
        return None;
    }
    let (e3, v3) = scan3.unwrap();
    proof {
        lemma_digits_end(line@, e2 as int + 1);
    }
    if !(e3 == n) || !(e3 - (e2 + 1) == 9) {
        proof {
            assert forall|s: Sample| line@ != row_spec(s) by {
                if line@ == row_spec(s) {
                    lemma_row_structure(line@, s);
                }
            }
        }
        return None;
    }
    let whole = v2 * NANOS_PER_SEC;
    if v3 > u64::MAX - whole {
        proof {
            assert forall|s: Sample| line@ != row_spec(s) by {
                if line@ == row_spec(s) {
                    lemma_row_structure(line@, s);
                    lemma_fundamental_div_mod(s.duration_nanos as int, NANOS_PER_SEC as int);
                }
            }
        }
        return None;
    }
    let nanos = whole + v3;
    let smp = Sample { scale: v1 as u32, duration_nanos: nanos };
    proof {
        lemma_digits_end(line@, 0);
        lemma_digits_end(line@, e1 as int + 1);
        lemma_digits_end(line@, e2 as int + 1);
        let run1 = line@.subrange(0, e1 as int);
        let run2 = line@.subrange(e1 as int + 1, e2 as int);
        let run3 = line@.subrange(e2 as int + 1, n as int);
        assert(is_canonical_dec(run1)) by {
            assert(run1[0] == line@[0]);
            assert(forall|i: int| 0 <= i < run1.len() ==> is_digit_char(#[trigger] run1[i]));
        }
        assert(is_canonical_dec(run2)) by {
            assert(run2[0] == line@[e1 as int + 1]);
            assert(forall|i: int| 0 <= i < run2.len() ==> is_digit_char(#[trigger] run2[i]));
        }
        assert(all_digits(run3)) by {
            assert(forall|i: int| 0 <= i < run3.len() ==> is_digit_char(#[trigger] run3[i]));
        }
        lemma_digits_of_dec_value(run1);
        lemma_digits_of_dec_value(run2);
        lemma_padded_of_dec_value(run3, 9);
        lemma_fundamental_div_mod_converse(
            nanos as int,
            NANOS_PER_SEC as int,
            v2 as int,
            v3 as int,
        );
        assert(smp.scale as nat == v1 as nat);
        assert(dec_digits(smp.scale as nat) == run1);
        assert(dec_digits((smp.duration_nanos / NANOS_PER_SEC) as nat) == run2);
        assert(padded_digits((smp.duration_nanos % NANOS_PER_SEC) as nat, 9) == run3);
        assert(line@ =~= run1 + seq![','] + run2 + seq!['.'] + run3);
        assert(line@ == row_spec(smp));
        assert forall|s: Sample| line@ == row_spec(s) implies Some(smp) == Some(s) by {
            lemma_row_injective(smp, s);
        }
    }
    Some(smp)
}

/// Whether a line of text is the recorded row of some sample.
pub open spec fn is_row(line: Seq<char>) -> bool {
    exists|s: Sample| line == row_spec(s)
}

/// Replays a durable trace: parses every line, in order. `Some` exactly
/// when every line is the recorded row of some sample — as every line of
/// an uncorrupted trace is, however early the recording was cut off.
pub fn replay_trace(lines: &Vec<String>) -> (r: Option<Vec<Sample>>)
    ensures
        r matches Some(ds) ==> {
            &&& ds@.len() == lines@.len()
            &&& forall|i: int| 0 <= i < ds@.len() ==> lines@[i]@ == row_spec(#[trigger] ds@[i])
        },
        r is None ==> exists|i: int| 0 <= i < lines@.len() && !is_row(#[trigger] lines@[i]@),
{
    let mut out: Vec<Sample> = Vec::new();
    let mut i: usize = 0;
    while i < lines.len()
        invariant
            0 <= i <= lines@.len(),
            out@.len() == i,
            forall|j: int| 0 <= j < i ==> lines@[j]@ == row_spec(#[trigger] out@[j]),
        decreases lines@.len() - i,
    {
        match parse_row(lines[i].as_str()) {
            Some(s) => {
                out.push(s);
                i = i + 1;
            },
            None => {
                proof {
                    assert(!is_row(lines@[i as int]@)) by {
                        if is_row(lines@[i as int]@) {
                            let s = choose|s: Sample| lines@[i as int]@ == row_spec(s);
                            assert(lines@[i as int]@ == row_spec(s));
                        }
                    }
                }
                return None;
            },
        }
    }
    Some(out)
}

/// Crash-consistency law: the rows of the durable trace pin the dataset's
/// prefix down exactly. Samples replayed from the first `k` rows recorded
/// for a dataset — all a crash can leave behind — are precisely the
/// dataset's first `k` samples.
pub proof fn lemma_trace_prefix_replay(ds: Seq<Sample>, replayed: Seq<Sample>, k: int)
    requires
        0 <= k <= ds.len(),
        replayed.len() == k,
        forall|i: int| 0 <= i < k ==> row_spec(#[trigger] replayed[i]) == row_spec(ds[i]),
    ensures
        replayed == ds.take(k),
{
    assert forall|i: int| 0 <= i < k implies replayed[i] == ds.take(k)[i] by {
        lemma_row_injective(replayed[i], ds[i]);
    }
    assert(replayed =~= ds.take(k));
}

} // verus!
