//! Finalization of an execution's output: truncation and the final status
//! text.
//!
//! The accumulated output of one execution is kept as the UTF-8 bytes of the
//! decoded text. Once the child has exited and both reader threads are
//! joined, the bytes are truncated to a ceiling (a header says how much was
//! hidden) and combined with the observed exit into one status string, which
//! the dispatcher writes back to the task record.

use vstd::prelude::*;

use vstd::utf8::{valid_utf8, decode_utf8, encode_utf8};
use crate::decode::{lossy_utf8, utf8_lossy_string};

verus! {

/// Ceiling on the bytes of output kept in a final result.
pub const MAX_RESULT_BYTES: usize = 20480;

/// Decimal digits of a number, as ASCII bytes.
pub open spec fn dec_digits(n: nat) -> Seq<u8>
    decreases n,
{
    if n < 10 {
        seq![(48 + n) as u8]
    } else {
        dec_digits(n / 10).push((48 + n % 10) as u8)
    }
}

/// Decimal form of an integer, with a leading minus sign when negative.
pub open spec fn dec_int(v: int) -> Seq<u8> {
    if v < 0 {
        seq![45u8] + dec_digits((-v) as nat)
    } else {
        dec_digits(v as nat)
    }
}

fn push_dec(out: &mut Vec<u8>, n: u64)
    ensures
        final(out)@ == old(out)@ + dec_digits(n as nat),
    decreases n,
{
    if n < 10 {
        out.push(48 + n as u8);
        proof {
            assert(final(out)@ =~= old(out)@ + dec_digits(n as nat));
        }
    } else {
        push_dec(out, n / 10);
        out.push(48 + (n % 10) as u8);
        proof {
            assert(final(out)@ =~= old(out)@ + dec_digits(n as nat));
        }
    }
}

fn push_dec_i64(out: &mut Vec<u8>, v: i64)
    ensures
        final(out)@ == old(out)@ + dec_int(v as int),
{
    if v < 0 {
        out.push(45);
        let mag: u64 = (-(v as i128)) as u64;
        push_dec(out, mag);
        proof {
            assert(final(out)@ =~= old(out)@ + dec_int(v as int));
        }
    } else {
        push_dec(out, v as u64);
    }
}

/// Appends the UTF-8 bytes of a literal.
fn append_lit(out: &mut Vec<u8>, lit: &str)
    ensures
        final(out)@ == old(out)@ + encode_utf8(lit@),
{
    let mut v = lit.as_bytes_vec();
    out.append(&mut v);
}

/// The header put in front of a truncated result.
pub open spec fn truncation_header(hidden: nat) -> Seq<u8> {
    encode_utf8("... [Output Truncated, "@) + dec_digits(hidden) + encode_utf8(
        " bytes hidden] ...\n"@,
    )
}

/// Output as kept in a final result: over the ceiling, a header states how
/// many leading bytes were hidden and the tail is kept verbatim.
pub open spec fn truncated_output(b: Seq<u8>) -> Seq<u8> {
    if b.len() <= MAX_RESULT_BYTES {
        b
    } else {
        truncation_header((b.len() - MAX_RESULT_BYTES) as nat) + b.skip(
            b.len() - MAX_RESULT_BYTES as int,
        )
    }
}

pub fn truncate_output(b: &Vec<u8>) -> (r: Vec<u8>)
    ensures
        r@ == truncated_output(b@),
{
    if b.len() <= MAX_RESULT_BYTES {
        let mut out: Vec<u8> = Vec::new();
        let mut i: usize = 0;
        while i < b.len()
            invariant
                i <= b@.len(),
                out@ == b@.take(i as int),
            decreases b@.len() - i,
        {
            out.push(b[i]);
            proof {
                assert(out@ =~= b@.take(i as int + 1));
            }
            i += 1;
        }
        proof {
            assert(b@.take(b@.len() as int) =~= b@);
        }
        out
    } else {
        let hidden = b.len() - MAX_RESULT_BYTES;
        let mut out: Vec<u8> = Vec::new();
        append_lit(&mut out, "... [Output Truncated, ");
        push_dec(&mut out, hidden as u64);
        append_lit(&mut out, " bytes hidden] ...\n");
        proof {
            assert(out@ =~= truncation_header(hidden as nat));
        }
        let ghost header = out@;
        let mut i: usize = hidden;
        while i < b.len()
            invariant
                hidden <= i <= b@.len(),
                hidden == b@.len() - MAX_RESULT_BYTES,
                out@ == header + b@.subrange(hidden as int, i as int),
            decreases b@.len() - i,
        {
            out.push(b[i]);
            proof {
                assert(out@ =~= header + b@.subrange(hidden as int, i as int + 1));
            }
            i += 1;
        }
        proof {
            assert(b@.subrange(hidden as int, b@.len() as int) =~= b@.skip(hidden as int));
            assert(out@ =~= truncated_output(b@));
        }
        out
    }
}

/// A whitespace character, as trimming reckons it: the characters with the
/// Unicode White_Space property.
pub open spec fn ws_char(c: char) -> bool {
    let u = c as u32;
    ||| u == 32
    ||| (9 <= u <= 13)
    ||| u == 0x85
    ||| u == 0xa0
    ||| u == 0x1680
    ||| (0x2000 <= u <= 0x200a)
    ||| u == 0x2028
    ||| u == 0x2029
    ||| u == 0x202f
    ||| u == 0x205f
    ||| u == 0x3000
}

/// Output that trims to nothing: it decodes, and every character is
/// whitespace.
pub open spec fn is_blank(b: Seq<u8>) -> bool {
    valid_utf8(b) && (forall|i: int|
        0 <= i < decode_utf8(b).len() ==> ws_char(#[trigger] decode_utf8(b)[i]))
}

fn all_blank(b: &Vec<u8>) -> (r: bool)
    ensures
        r == is_blank(b@),
{
    let s = match crate::decode::utf8_str(b.as_slice()) {
        Some(s) => s,
        None => {
            return false;
        },
    };
    let n = s.unicode_len();
    let mut i: usize = 0;
    while i < n
        invariant
            i <= n,
            n == s@.len(),
            valid_utf8(b@),
            s@ == decode_utf8(b@),
            forall|j: int| 0 <= j < i ==> ws_char(#[trigger] decode_utf8(b@)[j]),
        decreases n - i,
    {
        let c = s.get_char(i);
        let u = c as u32;
        let ws = u == 32 || (9 <= u && u <= 13) || u == 0x85 || u == 0xa0 || u == 0x1680 || (0x2000
            <= u && u <= 0x200a) || u == 0x2028 || u == 0x2029 || u == 0x202f || u == 0x205f || u
            == 0x3000;
        if !ws {
            return false;
        }
        i += 1;
    }
    true
}

/// How the wait for the child ended.
pub enum WaitOutcome {
    /// The child exited; the code is absent when it was ended by a signal.
    Exited(Option<i32>),
    /// The exit could not be observed (an OS error, or the registry entry
    /// disappeared); the text describes the error.
    WaitFailed(String),
}

/// The exit code reported in a status text, `-1` when unavailable.
pub open spec fn exit_code_or_default(c: Option<i32>) -> int {
    match c {
        Some(x) => x as int,
        None => -1,
    }
}

/// The final status text of an execution, as bytes: `Success` for a clean
/// exit with blank output, the (truncated) output itself for a clean exit,
/// an error header around it otherwise.
pub open spec fn composed_result(w: WaitOutcome, out: Seq<u8>) -> Seq<u8> {
    let t = truncated_output(out);
    match w {
        WaitOutcome::Exited(c) => {
            if c == Some(0i32) {
                if is_blank(t) {
                    encode_utf8("Success"@)
                } else {
                    t
                }
            } else {
                encode_utf8("Error (Exit Code "@) + dec_int(exit_code_or_default(c)) + encode_utf8(
                    "):\n"@,
                ) + t
            }
        },
        WaitOutcome::WaitFailed(e) => encode_utf8("Process Error: "@) + encode_utf8(e@)
            + encode_utf8("\nOutput:\n"@) + t,
    }
}

/// Combines the observed exit and the accumulated output bytes into the
/// final status text, still as bytes.
pub fn compose_result(w: &WaitOutcome, output: &Vec<u8>) -> (r: Vec<u8>)
    ensures
        r@ == composed_result(*w, output@),
{
    let mut t = truncate_output(output);
    match w {
        WaitOutcome::Exited(c) => {
            let success = match c {
                Some(code) => *code == 0i32,
                None => false,
            };
            proof {
                assert(success == (*c == Some(0i32)));
            }
            if success {
                if all_blank(&t) {
                    let mut out: Vec<u8> = Vec::new();
                    append_lit(&mut out, "Success");
                    proof {
                        assert(out@ =~= composed_result(*w, output@));
                    }
                    out
                } else {
                    t
                }
            } else {
                let code: i64 = match c {
                    Some(x) => *x as i64,
                    None => -1,
                };
                let mut out: Vec<u8> = Vec::new();
                append_lit(&mut out, "Error (Exit Code ");
                push_dec_i64(&mut out, code);
                append_lit(&mut out, "):\n");
                out.append(&mut t);
                proof {
                    assert(out@ =~= composed_result(*w, output@));
                }
                out
            }
        },
        WaitOutcome::WaitFailed(e) => {
            let mut out: Vec<u8> = Vec::new();
            append_lit(&mut out, "Process Error: ");
            let mut eb = e.as_str().as_bytes_vec();
            out.append(&mut eb);
            append_lit(&mut out, "\nOutput:\n");
            out.append(&mut t);
            proof {
                assert(out@ =~= composed_result(*w, output@));
            }
            out
        },
    }
}

/// The final status text as a string: the composed bytes, decoded losslessly
/// when they are valid UTF-8 (they are whenever the truncation boundary did
/// not split a character), with replacement characters otherwise.
pub fn result_text(w: &WaitOutcome, output: &Vec<u8>) -> (r: String)
    ensures
        r@ == lossy_utf8(composed_result(*w, output@)),
        valid_utf8(composed_result(*w, output@)) ==> r@ == decode_utf8(
            composed_result(*w, output@),
        ),
{
    let bytes = compose_result(w, output);
    utf8_lossy_string(bytes.as_slice())
}

/// The status reported when the child could not be spawned at all; no
/// registry entry exists in that case.
pub fn spawn_failure_result(err: &String) -> (r: String)
    ensures
        r@ == "Execution Failed: "@ + err@,
{
    let mut s = String::from_str("Execution Failed: ");
    s.append(err.as_str());
    s
}

} // verus!
