//! The persisted form of the task store: one JSON document holding the array
//! of task records.
//!
//! The store always writes the canonical form produced by [`encode_tasks`]:
//! objects with the fields in a fixed order, no whitespace, strings with `"`,
//! `\` and control bytes escaped, absent optional fields as `null`. The
//! parser accepts exactly that form; any other file is treated as unreadable,
//! and read failures are swallowed by the embedding program (the store then
//! starts empty). [`lemma_tasks_round_trip`] is the reload guarantee: parsing
//! an encoded store yields every record back, field for field.

use vstd::prelude::*;

use vstd::utf8::{valid_utf8, decode_utf8, encode_utf8};
use crate::task::{normalize_loaded, normalized_view, Task, TaskView, task_views};

verus! {

/// Lower-case hexadecimal digit of a value below 16.
pub open spec fn hexd(v: u8) -> u8
    recommends
        v < 16,
{
    if v < 10 {
        (48 + v) as u8
    } else {
        (87 + v) as u8
    }
}

/// A byte that is a lower-case hexadecimal digit.
pub open spec fn is_hexlc(d: u8) -> bool {
    (48 <= d <= 57) || (97 <= d <= 102)
}

/// Value of a lower-case hexadecimal digit.
pub open spec fn hexval(d: u8) -> u8
    recommends
        is_hexlc(d),
{
    if d <= 57 {
        (d - 48) as u8
    } else {
        (d - 87) as u8
    }
}

proof fn lemma_hexd(v: u8)
    requires
        v < 16,
    ensures
        is_hexlc(hexd(v)),
        hexval(hexd(v)) == v,
{
}

/// How one byte of string content is written.
pub open spec fn esc_byte(x: u8) -> Seq<u8> {
    if x == 34 {
        seq![92u8, 34u8]
    } else if x == 92 {
        seq![92u8, 92u8]
    } else if x < 32 {
        seq![92u8, 117u8, 48u8, 48u8, hexd((x / 16) as u8), hexd((x % 16) as u8)]
    } else {
        seq![x]
    }
}

/// String content, escaped byte for byte.
pub open spec fn escape_bytes(s: Seq<u8>) -> Seq<u8>
    decreases s.len(),
{
    if s.len() == 0 {
        Seq::empty()
    } else {
        esc_byte(s[0]) + escape_bytes(s.skip(1))
    }
}

/// A JSON string: the UTF-8 bytes of the text, escaped, between quotes.
pub open spec fn enc_string(s: Seq<char>) -> Seq<u8> {
    seq![34u8] + escape_bytes(encode_utf8(s)) + seq![34u8]
}

pub open spec fn null_lit() -> Seq<u8> {
    seq![110u8, 117u8, 108u8, 108u8]
}

pub open spec fn true_lit() -> Seq<u8> {
    seq![116u8, 114u8, 117u8, 101u8]
}

pub open spec fn false_lit() -> Seq<u8> {
    seq![102u8, 97u8, 108u8, 115u8, 101u8]
}

pub open spec fn enc_opt(o: Option<Seq<char>>) -> Seq<u8> {
    match o {
        Some(s) => enc_string(s),
        None => null_lit(),
    }
}

pub open spec fn enc_bool(v: bool) -> Seq<u8> {
    if v {
        true_lit()
    } else {
        false_lit()
    }
}

pub open spec fn key_id() -> Seq<u8> {
    encode_utf8("{\"id\":"@)
}

pub open spec fn key_name() -> Seq<u8> {
    encode_utf8(",\"name\":"@)
}

pub open spec fn key_cron() -> Seq<u8> {
    encode_utf8(",\"cron_expr\":"@)
}

pub open spec fn key_command() -> Seq<u8> {
    encode_utf8(",\"command\":"@)
}

pub open spec fn key_enabled() -> Seq<u8> {
    encode_utf8(",\"enabled\":"@)
}

pub open spec fn key_last_run() -> Seq<u8> {
    encode_utf8(",\"last_run\":"@)
}

pub open spec fn key_last_result() -> Seq<u8> {
    encode_utf8(",\"last_result\":"@)
}

/// One task record as an object.
pub open spec fn enc_task(t: TaskView) -> Seq<u8> {
    key_id() + enc_string(t.id) + key_name() + enc_string(t.name) + key_cron() + enc_string(
        t.cron_expr,
    ) + key_command() + enc_string(t.command) + key_enabled() + enc_bool(t.enabled)
        + key_last_run() + enc_opt(t.last_run) + key_last_result() + enc_opt(t.last_result)
        + seq![125u8]
}

/// The records from the first onwards: each object, a comma between them,
/// the closing bracket after the last.
pub open spec fn enc_rest(vs: Seq<TaskView>) -> Seq<u8>
    recommends
        vs.len() >= 1,
    decreases vs.len(),
{
    if vs.len() <= 1 {
        enc_task(vs[0]) + seq![93u8]
    } else {
        enc_task(vs[0]) + seq![44u8] + enc_rest(vs.skip(1))
    }
}

/// The whole document.
pub open spec fn enc_tasks(vs: Seq<TaskView>) -> Seq<u8> {
    if vs.len() == 0 {
        seq![91u8, 93u8]
    } else {
        seq![91u8] + enc_rest(vs)
    }
}

/// The first `p.len()` bytes of `b` are `p`.
pub open spec fn starts_with(b: Seq<u8>, p: Seq<u8>) -> bool {
    p.len() <= b.len() && b.take(p.len() as int) == p
}

/// Consumes an expected literal.
pub open spec fn sp_lit(b: Seq<u8>, lit: Seq<u8>) -> Option<Seq<u8>> {
    if starts_with(b, lit) {
        Some(b.skip(lit.len() as int))
    } else {
        None
    }
}

/// Scans string content up to the closing quote: the unescaped bytes and
/// what follows the quote.
pub open spec fn sp_str_body(b: Seq<u8>) -> Option<(Seq<u8>, Seq<u8>)>
    decreases b.len(),
{
    if b.len() == 0 {
        None
    } else if b[0] == 34 {
        Some((Seq::empty(), b.skip(1)))
    } else if b[0] == 92 {
        if b.len() >= 2 && (b[1] == 34 || b[1] == 92) {
            match sp_str_body(b.skip(2)) {
                Some(p) => Some((seq![b[1]] + p.0, p.1)),
                None => None,
            }
        } else if b.len() >= 6 && b[1] == 117 && b[2] == 48 && b[3] == 48 && is_hexlc(b[4])
            && is_hexlc(b[5]) && hexval(b[4]) * 16 + hexval(b[5]) < 32 {
            match sp_str_body(b.skip(6)) {
                Some(p) => Some((seq![(hexval(b[4]) * 16 + hexval(b[5])) as u8] + p.0, p.1)),
                None => None,
            }
        } else {
            None
        }
    } else if b[0] < 32 {
        None
    } else {
        match sp_str_body(b.skip(1)) {
            Some(p) => Some((seq![b[0]] + p.0, p.1)),
            None => None,
        }
    }
}

/// A quoted string: the unescaped content bytes and what follows.
pub open spec fn sp_string(b: Seq<u8>) -> Option<(Seq<u8>, Seq<u8>)> {
    if b.len() > 0 && b[0] == 34 {
        sp_str_body(b.skip(1))
    } else {
        None
    }
}

/// A string or `null`.
pub open spec fn sp_opt(b: Seq<u8>) -> Option<(Option<Seq<u8>>, Seq<u8>)> {
    if b.len() > 0 && b[0] == 34 {
        match sp_str_body(b.skip(1)) {
            Some(p) => Some((Some(p.0), p.1)),
            None => None,
        }
    } else if starts_with(b, null_lit()) {
        Some((None, b.skip(4)))
    } else {
        None
    }
}

/// `true` or `false`.
pub open spec fn sp_bool(b: Seq<u8>) -> Option<(bool, Seq<u8>)> {
    if starts_with(b, true_lit()) {
        Some((true, b.skip(4)))
    } else if starts_with(b, false_lit()) {
        Some((false, b.skip(5)))
    } else {
        None
    }
}

/// Content bytes of an optional field are themselves valid UTF-8.
pub open spec fn opt_valid(o: Option<Seq<u8>>) -> bool {
    match o {
        Some(c) => valid_utf8(c),
        None => true,
    }
}

pub open spec fn opt_decode(o: Option<Seq<u8>>) -> Option<Seq<char>> {
    match o {
        Some(c) => Some(decode_utf8(c)),
        None => None,
    }
}

/// The four text fields of a record: id, name, cron expression, command.
pub open spec fn sp_task_strings(b: Seq<u8>) -> Option<((Seq<u8>, Seq<u8>, Seq<u8>, Seq<u8>), Seq<u8>)> {
    match sp_lit(b, key_id()) {
        None => None,
        Some(b1) => match sp_string(b1) {
            None => None,
            Some((idb, b2)) => match sp_lit(b2, key_name()) {
                None => None,
                Some(b3) => match sp_string(b3) {
                    None => None,
                    Some((nameb, b4)) => match sp_lit(b4, key_cron()) {
                        None => None,
                        Some(b5) => match sp_string(b5) {
                            None => None,
                            Some((cronb, b6)) => match sp_lit(b6, key_command()) {
                                None => None,
                                Some(b7) => match sp_string(b7) {
                                    None => None,
                                    Some((cmdb, b8)) => Some(((idb, nameb, cronb, cmdb), b8)),
                                },
                            },
                        },
                    },
                },
            },
        },
    }
}

/// The status fields of a record and the closing brace: enabled flag, last
/// trigger time, last result.
pub open spec fn sp_task_tail(b: Seq<u8>) -> Option<((bool, Option<Seq<u8>>, Option<Seq<u8>>), Seq<u8>)> {
    match sp_lit(b, key_enabled()) {
        None => None,
        Some(b9) => match sp_bool(b9) {
            None => None,
            Some((en, b10)) => match sp_lit(b10, key_last_run()) {
                None => None,
                Some(b11) => match sp_opt(b11) {
                    None => None,
                    Some((lrb, b12)) => match sp_lit(b12, key_last_result()) {
                        None => None,
                        Some(b13) => match sp_opt(b13) {
                            None => None,
                            Some((resb, b14)) => match sp_lit(b14, seq![125u8]) {
                                None => None,
                                Some(rest) => Some(((en, lrb, resb), rest)),
                            },
                        },
                    },
                },
            },
        },
    }
}

/// One task object: the record's value and what follows the closing brace;
/// fails when the shape is off or any content is not valid UTF-8.
pub open spec fn sp_task(b: Seq<u8>) -> Option<(TaskView, Seq<u8>)> {
    match sp_task_strings(b) {
        None => None,
        Some((fs, b8)) => match sp_task_tail(b8) {
            None => None,
            Some(((en, lrb, resb), rest)) => if valid_utf8(fs.0) && valid_utf8(fs.1)
                && valid_utf8(fs.2) && valid_utf8(fs.3) && opt_valid(lrb) && opt_valid(resb) {
                Some(
                    (
                        TaskView {
                            id: decode_utf8(fs.0),
                            name: decode_utf8(fs.1),
                            cron_expr: decode_utf8(fs.2),
                            command: decode_utf8(fs.3),
                            enabled: en,
                            last_run: opt_decode(lrb),
                            last_result: opt_decode(resb),
                        },
                        rest,
                    ),
                )
            } else {
                None
            },
        },
    }
}

/// The records from the first onwards, ending at the closing bracket, which
/// must end the document; the fuel bounds the recursion and is in practice
/// the document length.
pub open spec fn sp_tasks_rest(b: Seq<u8>, fuel: nat) -> Option<Seq<TaskView>>
    decreases fuel,
{
    if fuel == 0 {
        None
    } else {
        match sp_task(b) {
            None => None,
            Some((t, r)) => if r.len() >= 1 && r[0] == 44 {
                match sp_tasks_rest(r.skip(1), (fuel - 1) as nat) {
                    Some(vs) => Some(seq![t] + vs),
                    None => None,
                }
            } else if r.len() == 1 && r[0] == 93 {
                Some(seq![t])
            } else {
                None
            },
        }
    }
}

/// The whole document: `None` unless the bytes are exactly a canonical
/// encoding.
pub open spec fn sp_tasks(b: Seq<u8>) -> Option<Seq<TaskView>> {
    if b.len() >= 1 && b[0] == 91 {
        if b.len() == 2 && b[1] == 93 {
            Some(Seq::empty())
        } else {
            sp_tasks_rest(b.skip(1), b.len() as nat)
        }
    } else {
        None
    }
}

// ---------------------------------------------------------------------------
// The round trip: parsing a canonical encoding yields the records back.
// ---------------------------------------------------------------------------
/// Splitting a concatenation after the first part.
proof fn lemma_skip_concat(a: Seq<u8>, b: Seq<u8>)
    ensures
        starts_with(a + b, a),
        (a + b).skip(a.len() as int) == b,
{
    assert((a + b).take(a.len() as int) =~= a);
    assert((a + b).skip(a.len() as int) =~= b);
}

/// Scanning the escaped form of any content, followed by the closing quote,
/// recovers the content exactly.
proof fn lemma_scan_escaped(content: Seq<u8>, rest: Seq<u8>)
    ensures
        sp_str_body(escape_bytes(content) + (seq![34u8] + rest)) == Some((content, rest)),
    decreases content.len(),
{
    let b = escape_bytes(content) + (seq![34u8] + rest);
    if content.len() == 0 {
        assert(escape_bytes(content) =~= Seq::<u8>::empty());
        assert(b =~= seq![34u8] + rest);
        assert(b[0] == 34);
        assert(b.skip(1) =~= rest);
        assert(sp_str_body(b) == Some((Seq::<u8>::empty(), rest)));
        assert(content =~= Seq::<u8>::empty());
    } else {
        let x = content[0];
        let tail = content.skip(1);
        lemma_scan_escaped(tail, rest);
        let brest = escape_bytes(tail) + (seq![34u8] + rest);
        assert(escape_bytes(content) == esc_byte(x) + escape_bytes(tail));
        assert(b =~= esc_byte(x) + brest);
        if x == 34 || x == 92 {
            assert(esc_byte(x) =~= seq![92u8, x]);
            assert(b[0] == 92 && b[1] == x);
            assert(b.len() >= 2);
            assert(b.skip(2) =~= brest);
            assert(sp_str_body(b) == Some((seq![x] + tail, rest)));
            assert(seq![x] + tail =~= content);
        } else if x < 32 {
            let h1 = hexd((x / 16) as u8);
            let h2 = hexd((x % 16) as u8);
            lemma_hexd((x / 16) as u8);
            lemma_hexd((x % 16) as u8);
            assert(esc_byte(x) =~= seq![92u8, 117u8, 48u8, 48u8, h1, h2]);
            assert(b[0] == 92 && b[1] == 117 && b[2] == 48 && b[3] == 48 && b[4] == h1 && b[5]
                == h2);
            assert(b.len() >= 6);
            assert(!(b[1] == 34 || b[1] == 92));
            assert(hexval(h1) * 16 + hexval(h2) == x);
            assert(b.skip(6) =~= brest);
            assert(sp_str_body(b) == Some((seq![x] + tail, rest)));
            assert(seq![x] + tail =~= content);
        } else {
            assert(esc_byte(x) =~= seq![x]);
            assert(b[0] == x);
            assert(x != 34 && x != 92 && x >= 32);
            assert(b.skip(1) =~= brest);
            assert(sp_str_body(b) == Some((seq![x] + tail, rest)));
            assert(seq![x] + tail =~= content);
        }
    }
}

/// Parsing the encoding of a string yields its UTF-8 bytes back.
proof fn lemma_parse_enc_string(s: Seq<char>, rest: Seq<u8>)
    ensures
        sp_string(enc_string(s) + rest) == Some((encode_utf8(s), rest)),
        sp_opt(enc_string(s) + rest) == Some((Some(encode_utf8(s)), rest)),
{
    let b = enc_string(s) + rest;
    assert(b[0] == 34);
    assert(b.len() > 0);
    assert(b.skip(1) =~= escape_bytes(encode_utf8(s)) + (seq![34u8] + rest));
    lemma_scan_escaped(encode_utf8(s), rest);
}

/// Parsing the encoding of an optional field yields it back.
proof fn lemma_parse_enc_opt(o: Option<Seq<char>>, rest: Seq<u8>)
    ensures
        sp_opt(enc_opt(o) + rest) == Some(
            (
                match o {
                    Some(s) => Some(encode_utf8(s)),
                    None => None,
                },
                rest,
            ),
        ),
{
    match o {
        Some(s) => {
            lemma_parse_enc_string(s, rest);
        },
        None => {
            let b = null_lit() + rest;
            lemma_skip_concat(null_lit(), rest);
            assert(b[0] == 110);
            assert(b.skip(4) =~= rest);
        },
    }
}

/// Parsing the encoding of a boolean yields it back.
proof fn lemma_parse_enc_bool(v: bool, rest: Seq<u8>)
    ensures
        sp_bool(enc_bool(v) + rest) == Some((v, rest)),
{
    if v {
        lemma_skip_concat(true_lit(), rest);
        assert((true_lit() + rest).skip(4) =~= rest);
    } else {
        let b = false_lit() + rest;
        lemma_skip_concat(false_lit(), rest);
        assert(!starts_with(b, true_lit())) by {
            if starts_with(b, true_lit()) {
                assert(b.take(4)[0] == b[0]);
                assert(b[0] == 102 && true_lit()[0] == 116);
            }
        }
        assert(b.skip(5) =~= rest);
    }
}

/// Reassociation of concatenation.
proof fn lemma_add_assoc(a: Seq<u8>, b: Seq<u8>, c: Seq<u8>)
    ensures
        (a + b) + c == a + (b + c),
{
    assert((a + b) + c =~= a + (b + c));
}

/// Parsing the encoding of one record yields it back.
#[verifier::rlimit(100)]
#[verifier::spinoff_prover]
proof fn lemma_parse_enc_task(t: TaskView, rest: Seq<u8>)
    ensures
        sp_task(enc_task(t) + rest) == Some((t, rest)),
{
    broadcast use vstd::utf8::encode_utf8_valid_utf8, vstd::utf8::encode_utf8_decode_utf8;

    let s14 = seq![125u8] + rest;
    let s13 = enc_opt(t.last_result) + s14;
    let s12 = key_last_result() + s13;
    let s11 = enc_opt(t.last_run) + s12;
    let s10 = key_last_run() + s11;
    let s9 = enc_bool(t.enabled) + s10;
    let s8 = key_enabled() + s9;
    let s7 = enc_string(t.command) + s8;
    let s6 = key_command() + s7;
    let s5 = enc_string(t.cron_expr) + s6;
    let s4 = key_cron() + s5;
    let s3 = enc_string(t.name) + s4;
    let s2 = key_name() + s3;
    let s1 = enc_string(t.id) + s2;
    let b = key_id() + s1;

    // Peel the left-associated encoding into the right-associated chain.
    let p1 = key_id() + enc_string(t.id);
    let p2 = p1 + key_name();
    let p3 = p2 + enc_string(t.name);
    let p4 = p3 + key_cron();
    let p5 = p4 + enc_string(t.cron_expr);
    let p6 = p5 + key_command();
    let p7 = p6 + enc_string(t.command);
    let p8 = p7 + key_enabled();
    let p9 = p8 + enc_bool(t.enabled);
    let p10 = p9 + key_last_run();
    let p11 = p10 + enc_opt(t.last_run);
    let p12 = p11 + key_last_result();
    let p13 = p12 + enc_opt(t.last_result);
    assert(enc_task(t) == p13 + seq![125u8]);
    lemma_add_assoc(p13, seq![125u8], rest);
    lemma_add_assoc(p12, enc_opt(t.last_result), s14);
    lemma_add_assoc(p11, key_last_result(), s13);
    lemma_add_assoc(p10, enc_opt(t.last_run), s12);
    lemma_add_assoc(p9, key_last_run(), s11);
    lemma_add_assoc(p8, enc_bool(t.enabled), s10);
    lemma_add_assoc(p7, key_enabled(), s9);
    lemma_add_assoc(p6, enc_string(t.command), s8);
    lemma_add_assoc(p5, key_command(), s7);
    lemma_add_assoc(p4, enc_string(t.cron_expr), s6);
    lemma_add_assoc(p3, key_cron(), s5);
    lemma_add_assoc(p2, enc_string(t.name), s4);
    lemma_add_assoc(p1, key_name(), s3);
    lemma_add_assoc(key_id(), enc_string(t.id), s2);
    assert(enc_task(t) + rest == b);

    lemma_skip_concat(key_id(), s1);
    lemma_parse_enc_string(t.id, s2);
    lemma_skip_concat(key_name(), s3);
    lemma_parse_enc_string(t.name, s4);
    lemma_skip_concat(key_cron(), s5);
    lemma_parse_enc_string(t.cron_expr, s6);
    lemma_skip_concat(key_command(), s7);
    lemma_parse_enc_string(t.command, s8);
    lemma_skip_concat(key_enabled(), s9);
    lemma_parse_enc_bool(t.enabled, s10);
    lemma_skip_concat(key_last_run(), s11);
    lemma_parse_enc_opt(t.last_run, s12);
    lemma_skip_concat(key_last_result(), s13);
    lemma_parse_enc_opt(t.last_result, s14);
    lemma_skip_concat(seq![125u8], rest);

    match sp_task(b) {
        Some((u, r)) => {
            assert(u =~= t);
            assert(r == rest);
        },
        None => {
            assert(false);
        },
    }
}

/// Each record contributes at least two bytes.
proof fn lemma_enc_rest_len(vs: Seq<TaskView>)
    requires
        vs.len() >= 1,
    ensures
        enc_rest(vs).len() >= vs.len() + 1,
    decreases vs.len(),
{
    if vs.len() > 1 {
        lemma_enc_rest_len(vs.skip(1));
    }
}

/// Parsing the encoding of the records from the first onwards yields them
/// back, for any recursion bound at least their number.
#[verifier::rlimit(100)]
#[verifier::spinoff_prover]
proof fn lemma_parse_enc_rest(vs: Seq<TaskView>, fuel: nat)
    requires
        vs.len() >= 1,
        fuel >= vs.len(),
    ensures
        sp_tasks_rest(enc_rest(vs), fuel) == Some(vs),
    decreases vs.len(),
{
    let b = enc_rest(vs);
    if vs.len() == 1 {
        lemma_parse_enc_task(vs[0], seq![93u8]);
        assert(b == enc_task(vs[0]) + seq![93u8]);
        assert(seq![93u8].len() == 1 && seq![93u8][0] == 93);
        assert(sp_tasks_rest(b, fuel) == Some(seq![vs[0]]));
        assert(seq![vs[0]] =~= vs);
    } else {
        let tail = seq![44u8] + enc_rest(vs.skip(1));
        assert(b == enc_task(vs[0]) + tail);
        lemma_parse_enc_task(vs[0], tail);
        assert(tail[0] == 44);
        assert(tail.len() >= 1);
        assert(tail.skip(1) =~= enc_rest(vs.skip(1)));
        lemma_parse_enc_rest(vs.skip(1), (fuel - 1) as nat);
        assert(sp_tasks_rest(b, fuel) == Some(seq![vs[0]] + vs.skip(1)));
        assert(seq![vs[0]] + vs.skip(1) =~= vs);
    }
}

/// The reload guarantee: a persisted store parses back to exactly the same
/// records, every field identical.
pub proof fn lemma_tasks_round_trip(vs: Seq<TaskView>)
    ensures
        sp_tasks(enc_tasks(vs)) == Some(vs),
{
    let b = enc_tasks(vs);
    if vs.len() == 0 {
        assert(b == seq![91u8, 93u8]);
        assert(b.len() == 2 && b[0] == 91 && b[1] == 93);
        assert(vs =~= Seq::<TaskView>::empty());
    } else {
        lemma_enc_rest_len(vs);
        assert(b == seq![91u8] + enc_rest(vs));
        assert(b[0] == 91);
        assert(b.len() == 1 + enc_rest(vs).len());
        assert(b.len() >= vs.len() + 2);
        assert(!(b.len() == 2 && b[1] == 93));
        assert(b.skip(1) =~= enc_rest(vs));
        lemma_parse_enc_rest(vs, b.len() as nat);
    }
}


// ---------------------------------------------------------------------------
// The executable encoder.
// ---------------------------------------------------------------------------
fn hexd_exec(v: u8) -> (r: u8)
    requires
        v < 16,
    ensures
        r == hexd(v),
{
    if v < 10 {
        48 + v
    } else {
        87 + v
    }
}

/// Appends the UTF-8 bytes of a literal.
fn append_key(out: &mut Vec<u8>, lit: &str)
    ensures
        final(out)@ == old(out)@ + encode_utf8(lit@),
{
    let mut v = lit.as_bytes_vec();
    out.append(&mut v);
}

proof fn lemma_escape_snoc(s: Seq<u8>, x: u8)
    ensures
        escape_bytes(s.push(x)) == escape_bytes(s) + esc_byte(x),
    decreases s.len(),
{
    if s.len() == 0 {
        reveal_with_fuel(escape_bytes, 3);
        assert(s.push(x)[0] == x);
        assert(s.push(x).skip(1) =~= Seq::<u8>::empty());
        assert(escape_bytes(s.push(x)) == esc_byte(x) + escape_bytes(Seq::<u8>::empty()));
        assert(esc_byte(x) + Seq::<u8>::empty() =~= Seq::<u8>::empty() + esc_byte(x));
    } else {
        assert(s.push(x)[0] == s[0]);
        assert(s.push(x).skip(1) =~= s.skip(1).push(x));
        assert(s.push(x).len() > 0);
        assert(escape_bytes(s.push(x)) == esc_byte(s[0]) + escape_bytes(s.skip(1).push(x)));
        lemma_escape_snoc(s.skip(1), x);
        assert(escape_bytes(s.push(x)) == esc_byte(s[0]) + (escape_bytes(s.skip(1)) + esc_byte(x)));
        assert(esc_byte(s[0]) + (escape_bytes(s.skip(1)) + esc_byte(x)) =~= (esc_byte(s[0])
            + escape_bytes(s.skip(1))) + esc_byte(x));
        assert(escape_bytes(s) == esc_byte(s[0]) + escape_bytes(s.skip(1)));
    }
}

/// Appends the escaped content bytes of one text field.
fn escape_into(out: &mut Vec<u8>, field: &String)
    ensures
        final(out)@ == old(out)@ + escape_bytes(encode_utf8(field@)),
{
    let fb = field.as_str().as_bytes_vec();
    let mut i: usize = 0;
    proof {
        assert(fb@.take(0) =~= Seq::<u8>::empty());
        assert(out@ =~= old(out)@ + escape_bytes(fb@.take(0)));
    }
    while i < fb.len()
        invariant
            i <= fb@.len(),
            fb@ == encode_utf8(field@),
            out@ == old(out)@ + escape_bytes(fb@.take(i as int)),
        decreases fb@.len() - i,
    {
        let x = fb[i];
        proof {
            lemma_escape_snoc(fb@.take(i as int), x);
            assert(fb@.take(i as int + 1) =~= fb@.take(i as int).push(x));
        }
        if x == 34 {
            out.push(92);
            out.push(34);
        } else if x == 92 {
            out.push(92);
            out.push(92);
        } else if x < 32 {
            out.push(92);
            out.push(117);
            out.push(48);
            out.push(48);
            out.push(hexd_exec(x / 16));
            out.push(hexd_exec(x % 16));
        } else {
            out.push(x);
        }
        proof {
            assert(out@ =~= old(out)@ + escape_bytes(fb@.take(i as int + 1)));
        }
        i += 1;
    }
    proof {
        assert(fb@.take(fb@.len() as int) =~= fb@);
    }
}

/// Appends one quoted, escaped string.
fn enc_string_into(out: &mut Vec<u8>, field: &String)
    ensures
        final(out)@ == old(out)@ + enc_string(field@),
{
    out.push(34);
    escape_into(out, field);
    out.push(34);
    proof {
        assert(out@ =~= old(out)@ + enc_string(field@));
    }
}

fn enc_opt_into(out: &mut Vec<u8>, o: &Option<String>)
    ensures
        final(out)@ == old(out)@ + enc_opt(
            match *o {
                Some(s) => Some(s@),
                None => None,
            },
        ),
{
    match o {
        Some(s) => {
            enc_string_into(out, s);
        },
        None => {
            out.push(110);
            out.push(117);
            out.push(108);
            out.push(108);
            proof {
                assert(out@ =~= old(out)@ + null_lit());
            }
        },
    }
}

fn enc_bool_into(out: &mut Vec<u8>, v: bool)
    ensures
        final(out)@ == old(out)@ + enc_bool(v),
{
    if v {
        out.push(116);
        out.push(114);
        out.push(117);
        out.push(101);
        proof {
            assert(out@ =~= old(out)@ + true_lit());
        }
    } else {
        out.push(102);
        out.push(97);
        out.push(108);
        out.push(115);
        out.push(101);
        proof {
            assert(out@ =~= old(out)@ + false_lit());
        }
    }
}

/// Appends one record.
#[verifier::rlimit(100)]
#[verifier::spinoff_prover]
fn enc_task_into(out: &mut Vec<u8>, t: &Task)
    ensures
        final(out)@ == old(out)@ + enc_task(t@),
{
    append_key(out, "{\"id\":");
    enc_string_into(out, &t.id);
    append_key(out, ",\"name\":");
    enc_string_into(out, &t.name);
    append_key(out, ",\"cron_expr\":");
    enc_string_into(out, &t.cron_expr);
    append_key(out, ",\"command\":");
    enc_string_into(out, &t.command);
    append_key(out, ",\"enabled\":");
    enc_bool_into(out, t.enabled);
    append_key(out, ",\"last_run\":");
    enc_opt_into(out, &t.last_run);
    append_key(out, ",\"last_result\":");
    enc_opt_into(out, &t.last_result);
    out.push(125);
    proof {
        assert(out@ =~= old(out)@ + enc_task(t@));
    }
}

/// The whole store as its persisted document.
#[verifier::rlimit(100)]
#[verifier::spinoff_prover]
pub fn encode_tasks(tasks: &Vec<Task>) -> (r: Vec<u8>)
    ensures
        r@ == enc_tasks(task_views(tasks@)),
{
    let ghost views = task_views(tasks@);
    let mut out: Vec<u8> = Vec::new();
    if tasks.len() == 0 {
        out.push(91);
        out.push(93);
        proof {
            assert(out@ =~= enc_tasks(views));
        }
        return out;
    }
    out.push(91);
    proof {
        assert(views.skip(0) =~= views);
        assert(out@ + enc_rest(views.skip(0)) =~= enc_tasks(views));
    }
    let mut i: usize = 0;
    while i < tasks.len()
        invariant
            i <= tasks@.len(),
            tasks@.len() >= 1,
            views == task_views(tasks@),
            i < tasks@.len() ==> out@ + enc_rest(views.skip(i as int)) == enc_tasks(views),
            i == tasks@.len() ==> out@ == enc_tasks(views),
        decreases tasks@.len() - i,
    {
        proof {
            assert(views.skip(i as int)[0] == views[i as int]);
            assert(views[i as int] == tasks@[i as int]@);
        }
        enc_task_into(&mut out, &tasks[i]);
        if i + 1 < tasks.len() {
            out.push(44);
            proof {
                assert(views.skip(i as int).skip(1) =~= views.skip(i as int + 1));
                assert(views.skip(i as int).len() > 1);
                assert(out@ + enc_rest(views.skip(i as int + 1)) =~= enc_tasks(views));
            }
        } else {
            out.push(93);
            proof {
                assert(views.skip(i as int).len() == 1);
                assert(out@ =~= enc_tasks(views));
            }
        }
        i += 1;
    }
    out
}

// ---------------------------------------------------------------------------
// The executable parser.
// ---------------------------------------------------------------------------
fn hexval_exec(d: u8) -> (r: u8)
    requires
        is_hexlc(d),
    ensures
        r == hexval(d),
{
    if d <= 57 {
        d - 48
    } else {
        d - 87
    }
}

/// Does the input at `pos` start with the literal?
fn match_bytes(b: &Vec<u8>, pos: usize, lit: &Vec<u8>) -> (r: bool)
    requires
        pos <= b@.len(),
    ensures
        r == starts_with(b@.skip(pos as int), lit@),
{
    if b.len() - pos < lit.len() {
        return false;
    }
    let mut k: usize = 0;
    while k < lit.len()
        invariant
            pos + lit@.len() <= b@.len(),
            b@.len() <= usize::MAX,
            k <= lit@.len(),
            forall|j: int| 0 <= j < k ==> b@[pos + j] == lit@[j],
        decreases lit@.len() - k,
    {
        if b[pos + k] != lit[k] {
            proof {
                assert(!starts_with(b@.skip(pos as int), lit@)) by {
                    if starts_with(b@.skip(pos as int), lit@) {
                        assert(b@.skip(pos as int).take(lit@.len() as int)[k as int] == lit@[k as int]);
                        assert(b@.skip(pos as int)[k as int] == b@[pos + k]);
                    }
                }
            }
            return false;
        }
        k += 1;
    }
    proof {
        assert(b@.skip(pos as int).take(lit@.len() as int) =~= lit@);
    }
    true
}

/// Scans the content of a string from just after the opening quote: the
/// unescaped content bytes and the position after the closing quote.
#[verifier::rlimit(100)]
#[verifier::spinoff_prover]
fn scan_content(b: &Vec<u8>, start: usize) -> (r: Option<(Vec<u8>, usize)>)
    requires
        start <= b@.len(),
    ensures
        r matches Some(p) ==> start < p.1 <= b@.len() && sp_str_body(b@.skip(start as int))
            == Some((p.0@, b@.skip(p.1 as int))),
        r is None ==> sp_str_body(b@.skip(start as int)) is None,
{
    let mut cur: usize = start;
    let mut acc: Vec<u8> = Vec::new();
    while cur < b.len()
        invariant
            start <= cur <= b@.len(),
            (match sp_str_body(b@.skip(cur as int)) {
                Some(q) => sp_str_body(b@.skip(start as int)) == Some((acc@ + q.0, q.1)),
                None => sp_str_body(b@.skip(start as int)) is None,
            }),
        decreases b@.len() - cur,
    {
        let ghost scur = b@.skip(cur as int);
        proof {
            assert(scur[0] == b@[cur as int]);
        }
        let x = b[cur];
        if x == 34 {
            let np = cur + 1;
            proof {
                assert(scur.skip(1) =~= b@.skip(np as int));
                assert(sp_str_body(scur) == Some((Seq::<u8>::empty(), b@.skip(np as int))));
                assert(acc@ + Seq::<u8>::empty() =~= acc@);
            }
            return Some((acc, np));
        } else if x == 92 {
            if cur + 1 == b.len() {
                proof {
                    assert(scur.len() == 1);
                }
                return None;
            }
            let e = b[cur + 1];
            proof {
                assert(scur[1] == b@[cur as int + 1]);
            }
            if e == 34 || e == 92 {
                let ghost accp = acc@;
                acc.push(e);
                proof {
                    assert(scur.skip(2) =~= b@.skip(cur as int + 2));
                    assert(acc@ =~= accp.push(e));
                    match sp_str_body(b@.skip(cur as int + 2)) {
                        Some(q) => {
                            assert(sp_str_body(scur) == Some((seq![e] + q.0, q.1)));
                            assert(accp + (seq![e] + q.0) =~= acc@ + q.0);
                        },
                        None => {
                            assert(sp_str_body(scur) is None);
                        },
                    }
                }
                cur += 2;
            } else if e == 117 {
                if b.len() - cur < 6 {
                    proof {
                        assert(scur.len() < 6);
                    }
                    return None;
                }
                let d2 = b[cur + 2];
                let d3 = b[cur + 3];
                let h1 = b[cur + 4];
                let h2 = b[cur + 5];
                proof {
                    assert(scur[2] == b@[cur as int + 2]);
                    assert(scur[3] == b@[cur as int + 3]);
                    assert(scur[4] == b@[cur as int + 4]);
                    assert(scur[5] == b@[cur as int + 5]);
                }
                if d2 != 48 || d3 != 48 {
                    return None;
                }
                let h1ok = (48 <= h1 && h1 <= 57) || (97 <= h1 && h1 <= 102);
                let h2ok = (48 <= h2 && h2 <= 57) || (97 <= h2 && h2 <= 102);
                if !h1ok || !h2ok {
                    return None;
                }
                let v = hexval_exec(h1) * 16 + hexval_exec(h2);
                if v >= 32 {
                    return None;
                }
                let ghost accp = acc@;
                acc.push(v);
                proof {
                    assert(scur.skip(6) =~= b@.skip(cur as int + 6));
                    match sp_str_body(b@.skip(cur as int + 6)) {
                        Some(q) => {
                            assert(sp_str_body(scur) == Some((seq![v] + q.0, q.1)));
                            assert(accp + (seq![v] + q.0) =~= acc@ + q.0);
                        },
                        None => {
                            assert(sp_str_body(scur) is None);
                        },
                    }
                }
                cur += 6;
            } else {
                return None;
            }
        } else if x < 32 {
            return None;
        } else {
            let ghost accp = acc@;
            acc.push(x);
            proof {
                assert(scur.skip(1) =~= b@.skip(cur as int + 1));
                match sp_str_body(b@.skip(cur as int + 1)) {
                    Some(q) => {
                        assert(sp_str_body(scur) == Some((seq![x] + q.0, q.1)));
                        assert(accp + (seq![x] + q.0) =~= acc@ + q.0);
                    },
                    None => {
                        assert(sp_str_body(scur) is None);
                    },
                }
            }
            cur += 1;
        }
    }
    proof {
        assert(b@.skip(cur as int).len() == 0);
    }
    None
}

/// One quoted string starting at `pos`: the text and the position after the
/// closing quote; `None` when the shape is off or the content is not valid
/// UTF-8.
#[verifier::rlimit(100)]
#[verifier::spinoff_prover]
fn parse_string(b: &Vec<u8>, pos: usize) -> (r: Option<(String, usize)>)
    requires
        pos <= b@.len(),
    ensures
        r matches Some(p) ==> pos < p.1 <= b@.len(),
        r matches Some(p) ==> (sp_string(b@.skip(pos as int)) matches Some(q) && valid_utf8(q.0)
            && p.0@ == decode_utf8(q.0) && q.1 == b@.skip(p.1 as int)),
        r is None ==> (match sp_string(b@.skip(pos as int)) {
            Some(q) => !valid_utf8(q.0),
            None => true,
        }),
{
    if pos == b.len() {
        return None;
    }
    if b[pos] != 34 {
        proof {
            assert(b@.skip(pos as int)[0] == b@[pos as int]);
            assert(sp_string(b@.skip(pos as int)) is None);
        }
        return None;
    }
    let start = pos + 1;
    proof {
        assert(b@.skip(pos as int)[0] == b@[pos as int]);
        assert(b@.skip(pos as int).skip(1) =~= b@.skip(start as int));
        assert(sp_string(b@.skip(pos as int)) == sp_str_body(b@.skip(start as int)));
    }
    let (acc, np) = match scan_content(b, start) {
        Some(v) => v,
        None => {
            return None;
        },
    };
    match crate::decode::utf8_str(acc.as_slice()) {
        Some(s) => {
            let text = String::from_str(s);
            proof {
                assert(valid_utf8(acc@));
                assert(text@ == decode_utf8(acc@));
            }
            Some((text, np))
        },
        None => {
            proof {
                assert(!valid_utf8(acc@));
            }
            None
        },
    }
}

fn null_vec() -> (r: Vec<u8>)
    ensures
        r@ == null_lit(),
{
    let mut v: Vec<u8> = Vec::new();
    v.push(110);
    v.push(117);
    v.push(108);
    v.push(108);
    proof {
        assert(v@ =~= null_lit());
    }
    v
}

fn true_vec() -> (r: Vec<u8>)
    ensures
        r@ == true_lit(),
{
    let mut v: Vec<u8> = Vec::new();
    v.push(116);
    v.push(114);
    v.push(117);
    v.push(101);
    proof {
        assert(v@ =~= true_lit());
    }
    v
}

fn false_vec() -> (r: Vec<u8>)
    ensures
        r@ == false_lit(),
{
    let mut v: Vec<u8> = Vec::new();
    v.push(102);
    v.push(97);
    v.push(108);
    v.push(115);
    v.push(101);
    proof {
        assert(v@ =~= false_lit());
    }
    v
}

fn parse_bool(b: &Vec<u8>, pos: usize) -> (r: Option<(bool, usize)>)
    requires
        pos <= b@.len(),
    ensures
        (match r {
            Some(p) => pos < p.1 <= b@.len() && sp_bool(b@.skip(pos as int)) == Some(
                (p.0, b@.skip(p.1 as int)),
            ),
            None => sp_bool(b@.skip(pos as int)) is None,
        }),
{
    let n = b.len();
    let t = true_vec();
    if match_bytes(b, pos, &t) {
        proof {
            assert(true_lit().len() == 4);
            assert(pos + 4 <= n);
            assert(b@.skip(pos as int).skip(4) =~= b@.skip(pos as int + 4));
        }
        return Some((true, pos + 4));
    }
    let f = false_vec();
    if match_bytes(b, pos, &f) {
        proof {
            assert(false_lit().len() == 5);
            assert(pos + 5 <= n);
            assert(b@.skip(pos as int).skip(5) =~= b@.skip(pos as int + 5));
        }
        return Some((false, pos + 5));
    }
    None
}

fn parse_opt(b: &Vec<u8>, pos: usize) -> (r: Option<(Option<String>, usize)>)
    requires
        pos <= b@.len(),
    ensures
        (match r {
            Some(p) => {
                &&& pos < p.1 <= b@.len()
                &&& (match sp_opt(b@.skip(pos as int)) {
                    Some(q) => opt_valid(q.0) && (match (p.0, q.0) {
                        (Some(s), Some(c)) => s@ == decode_utf8(c),
                        (None, None) => true,
                        _ => false,
                    }) && q.1 == b@.skip(p.1 as int),
                    None => false,
                })
            },
            None => (match sp_opt(b@.skip(pos as int)) {
                Some(q) => !opt_valid(q.0),
                None => true,
            }),
        }),
{
    if pos < b.len() && b[pos] == 34 {
        match parse_string(b, pos) {
            Some((s, np)) => Some((Some(s), np)),
            None => None,
        }
    } else {
        let bl = b.len();
        let n = null_vec();
        if match_bytes(b, pos, &n) {
            proof {
                assert(null_lit().len() == 4);
                assert(pos + 4 <= bl);
                assert(b@.skip(pos as int).skip(4) =~= b@.skip(pos as int + 4));
                assert(pos < b@.len());
            }
            Some((None, pos + 4))
        } else {
            proof {
                if pos < b@.len() {
                    assert(b@.skip(pos as int)[0] == b@[pos as int]);
                }
            }
            None
        }
    }
}


/// The four text fields starting at `pos`.
#[verifier::rlimit(100)]
#[verifier::spinoff_prover]
fn parse_task_strings(b: &Vec<u8>, pos: usize) -> (r: Option<((String, String, String, String), usize)>)
    requires
        pos <= b@.len(),
    ensures
        r matches Some(p) ==> pos <= p.1 <= b@.len(),
        r matches Some(p) ==> (sp_task_strings(b@.skip(pos as int)) matches Some(q)
            && valid_utf8(q.0.0) && valid_utf8(q.0.1) && valid_utf8(q.0.2) && valid_utf8(q.0.3)
            && p.0.0@ == decode_utf8(q.0.0) && p.0.1@ == decode_utf8(q.0.1) && p.0.2@
            == decode_utf8(q.0.2) && p.0.3@ == decode_utf8(q.0.3) && q.1 == b@.skip(p.1 as int)),
        r is None ==> (match sp_task_strings(b@.skip(pos as int)) {
            Some(q) => !(valid_utf8(q.0.0) && valid_utf8(q.0.1) && valid_utf8(q.0.2)
                && valid_utf8(q.0.3)),
            None => true,
        }),
{
    let bl = b.len();
    let kid = "{\"id\":".as_bytes_vec();
    if !match_bytes(b, pos, &kid) {
        return None;
    }
    proof {
        assert(kid@.len() <= b@.len() - pos);
    }
    let p1 = pos + kid.len();
    proof {
        assert(b@.skip(pos as int).skip(kid@.len() as int) =~= b@.skip(p1 as int));
        assert(sp_lit(b@.skip(pos as int), key_id()) == Some(b@.skip(p1 as int)));
    }
    let (id_s, p2) = match parse_string(b, p1) {
        Some(v) => v,
        None => {
            return None;
        },
    };
    let kname = ",\"name\":".as_bytes_vec();
    if !match_bytes(b, p2, &kname) {
        return None;
    }
    proof {
        assert(kname@.len() <= b@.len() - p2);
    }
    let p3 = p2 + kname.len();
    proof {
        assert(b@.skip(p2 as int).skip(kname@.len() as int) =~= b@.skip(p3 as int));
        assert(sp_lit(b@.skip(p2 as int), key_name()) == Some(b@.skip(p3 as int)));
    }
    let (name_s, p4) = match parse_string(b, p3) {
        Some(v) => v,
        None => {
            return None;
        },
    };
    let kcron = ",\"cron_expr\":".as_bytes_vec();
    if !match_bytes(b, p4, &kcron) {
        return None;
    }
    proof {
        assert(kcron@.len() <= b@.len() - p4);
    }
    let p5 = p4 + kcron.len();
    proof {
        assert(b@.skip(p4 as int).skip(kcron@.len() as int) =~= b@.skip(p5 as int));
        assert(sp_lit(b@.skip(p4 as int), key_cron()) == Some(b@.skip(p5 as int)));
    }
    let (cron_s, p6) = match parse_string(b, p5) {
        Some(v) => v,
        None => {
            return None;
        },
    };
    let kcmd = ",\"command\":".as_bytes_vec();
    if !match_bytes(b, p6, &kcmd) {
        return None;
    }
    proof {
        assert(kcmd@.len() <= b@.len() - p6);
    }
    let p7 = p6 + kcmd.len();
    proof {
        assert(b@.skip(p6 as int).skip(kcmd@.len() as int) =~= b@.skip(p7 as int));
        assert(sp_lit(b@.skip(p6 as int), key_command()) == Some(b@.skip(p7 as int)));
    }
    let (cmd_s, p8) = match parse_string(b, p7) {
        Some(v) => v,
        None => {
            return None;
        },
    };
    Some(((id_s, name_s, cron_s, cmd_s), p8))
}

/// The status fields and the closing brace starting at `pos`.
#[verifier::rlimit(100)]
#[verifier::spinoff_prover]
fn parse_task_tail(b: &Vec<u8>, pos: usize) -> (r: Option<((bool, Option<String>, Option<String>), usize)>)
    requires
        pos <= b@.len(),
    ensures
        r matches Some(p) ==> pos < p.1 <= b@.len(),
        r matches Some(p) ==> (sp_task_tail(b@.skip(pos as int)) matches Some(q) && q.0.0 == p.0.0
            && opt_valid(q.0.1) && opt_valid(q.0.2) && (match (p.0.1, q.0.1) {
            (Some(s), Some(c)) => s@ == decode_utf8(c),
            (None, None) => true,
            _ => false,
        }) && (match (p.0.2, q.0.2) {
            (Some(s), Some(c)) => s@ == decode_utf8(c),
            (None, None) => true,
            _ => false,
        }) && q.1 == b@.skip(p.1 as int)),
        r is None ==> (match sp_task_tail(b@.skip(pos as int)) {
            Some(q) => !(opt_valid(q.0.1) && opt_valid(q.0.2)),
            None => true,
        }),
{
    let bl = b.len();
    let ken = ",\"enabled\":".as_bytes_vec();
    if !match_bytes(b, pos, &ken) {
        return None;
    }
    proof {
        assert(ken@.len() <= b@.len() - pos);
    }
    let p9 = pos + ken.len();
    proof {
        assert(b@.skip(pos as int).skip(ken@.len() as int) =~= b@.skip(p9 as int));
        assert(sp_lit(b@.skip(pos as int), key_enabled()) == Some(b@.skip(p9 as int)));
    }
    let (en, p10) = match parse_bool(b, p9) {
        Some(v) => v,
        None => {
            return None;
        },
    };
    let klr = ",\"last_run\":".as_bytes_vec();
    if !match_bytes(b, p10, &klr) {
        return None;
    }
    proof {
        assert(klr@.len() <= b@.len() - p10);
    }
    let p11 = p10 + klr.len();
    proof {
        assert(b@.skip(p10 as int).skip(klr@.len() as int) =~= b@.skip(p11 as int));
        assert(sp_lit(b@.skip(p10 as int), key_last_run()) == Some(b@.skip(p11 as int)));
    }
    let (lr, p12) = match parse_opt(b, p11) {
        Some(v) => v,
        None => {
            return None;
        },
    };
    let kres = ",\"last_result\":".as_bytes_vec();
    if !match_bytes(b, p12, &kres) {
        return None;
    }
    proof {
        assert(kres@.len() <= b@.len() - p12);
    }
    let p13 = p12 + kres.len();
    proof {
        assert(b@.skip(p12 as int).skip(kres@.len() as int) =~= b@.skip(p13 as int));
        assert(sp_lit(b@.skip(p12 as int), key_last_result()) == Some(b@.skip(p13 as int)));
    }
    let (res, p14) = match parse_opt(b, p13) {
        Some(v) => v,
        None => {
            return None;
        },
    };
    if p14 == bl {
        proof {
            assert(b@.skip(p14 as int).len() == 0);
            assert(!starts_with(b@.skip(p14 as int), seq![125u8]));
        }
        return None;
    }
    if b[p14] != 125 {
        proof {
            assert(!starts_with(b@.skip(p14 as int), seq![125u8])) by {
                if starts_with(b@.skip(p14 as int), seq![125u8]) {
                    assert(b@.skip(p14 as int).take(1)[0] == b@[p14 as int]);
                }
            }
        }
        return None;
    }
    let p15 = p14 + 1;
    proof {
        assert(starts_with(b@.skip(p14 as int), seq![125u8])) by {
            assert(b@.skip(p14 as int).take(1) =~= seq![125u8]);
        }
        assert(b@.skip(p14 as int).skip(1) =~= b@.skip(p15 as int));
        assert(sp_lit(b@.skip(p14 as int), seq![125u8]) == Some(b@.skip(p15 as int)));
    }
    Some(((en, lr, res), p15))
}

/// One record starting at `pos`: the task and the position after its closing
/// brace.
#[verifier::rlimit(100)]
#[verifier::spinoff_prover]
fn parse_task(b: &Vec<u8>, pos: usize) -> (r: Option<(Task, usize)>)
    requires
        pos <= b@.len(),
    ensures
        r matches Some(p) ==> pos < p.1 <= b@.len(),
        r matches Some(p) ==> (sp_task(b@.skip(pos as int)) matches Some(q) && q.0 == p.0@ && q.1
            == b@.skip(p.1 as int)),
        r is None ==> sp_task(b@.skip(pos as int)) is None,
{
    let (fields, p8) = match parse_task_strings(b, pos) {
        Some(v) => v,
        None => {
            return None;
        },
    };
    let (status, p15) = match parse_task_tail(b, p8) {
        Some(v) => v,
        None => {
            return None;
        },
    };
    let (id_s, name_s, cron_s, cmd_s) = fields;
    let (en, lr, res) = status;
    let t = Task {
        id: id_s,
        name: name_s,
        cron_expr: cron_s,
        command: cmd_s,
        enabled: en,
        last_run: lr,
        last_result: res,
    };
    proof {
        match sp_task(b@.skip(pos as int)) {
            Some(q) => {
                assert(q.0 =~= t@);
                assert(q.1 == b@.skip(p15 as int));
            },
            None => {
                assert(false);
            },
        }
    }
    Some((t, p15))
}

/// The persisted document back into the task list; `None` unless the bytes
/// are exactly a canonical encoding.
#[verifier::rlimit(100)]
#[verifier::spinoff_prover]
pub fn parse_tasks(bytes: &Vec<u8>) -> (r: Option<Vec<Task>>)
    ensures
        (match r {
            Some(ts) => sp_tasks(bytes@) == Some(task_views(ts@)),
            None => sp_tasks(bytes@) is None,
        }),
{
    let n = bytes.len();
    if n == 0 {
        return None;
    }
    if bytes[0] != 91 {
        return None;
    }
    if n == 2 && bytes[1] == 93 {
        let out: Vec<Task> = Vec::new();
        proof {
            assert(task_views(out@) =~= Seq::<TaskView>::empty());
        }
        return Some(out);
    }
    let mut out: Vec<Task> = Vec::new();
    let mut pos: usize = 1;
    proof {
        assert(sp_tasks(bytes@) == sp_tasks_rest(bytes@.skip(1), bytes@.len() as nat));
        assert(task_views(out@) =~= Seq::<TaskView>::empty());
    }
    while pos < n
        invariant
            n == bytes@.len(),
            out@.len() + 1 <= pos <= n,
            (match sp_tasks_rest(bytes@.skip(pos as int), (bytes@.len() - out@.len()) as nat) {
                Some(vs) => sp_tasks(bytes@) == Some(task_views(out@) + vs),
                None => sp_tasks(bytes@) is None,
            }),
        decreases n - pos,
    {
        let ghost fuel = (bytes@.len() - out@.len()) as nat;
        proof {
            assert(fuel >= 1);
        }
        match parse_task(bytes, pos) {
            None => {
                proof {
                    assert(sp_tasks_rest(bytes@.skip(pos as int), fuel) is None);
                }
                return None;
            },
            Some((t, np)) => {
                let ghost r0 = bytes@.skip(np as int);
                if np < n && bytes[np] == 44 {
                    proof {
                        assert(r0[0] == bytes@[np as int]);
                        assert(r0.skip(1) =~= bytes@.skip(np as int + 1));
                        match sp_tasks_rest(bytes@.skip(np as int + 1), (fuel - 1) as nat) {
                            Some(vs) => {
                                assert(sp_tasks_rest(bytes@.skip(pos as int), fuel) == Some(
                                    seq![t@] + vs,
                                ));
                            },
                            None => {
                                assert(sp_tasks_rest(bytes@.skip(pos as int), fuel) is None);
                            },
                        }
                    }
                    let ghost prev = out@;
                    out.push(t);
                    pos = np + 1;
                    proof {
                        assert(out@.len() == prev.len() + 1);
                        match sp_tasks_rest(
                            bytes@.skip(pos as int),
                            (bytes@.len() - out@.len()) as nat,
                        ) {
                            Some(vs) => {
                                assert(task_views(prev) + (seq![t@] + vs) =~= task_views(out@)
                                    + vs);
                            },
                            None => {},
                        }
                    }
                } else if np < n && bytes[np] == 93 {
                    if np + 1 != n {
                        proof {
                            assert(r0[0] == 93);
                            assert(r0.len() >= 2);
                            assert(sp_tasks_rest(bytes@.skip(pos as int), fuel) is None);
                        }
                        return None;
                    }
                    proof {
                        assert(r0.len() == 1 && r0[0] == 93);
                        assert(sp_tasks_rest(bytes@.skip(pos as int), fuel) == Some(seq![t@]));
                    }
                    let ghost prev = out@;
                    out.push(t);
                    proof {
                        assert(task_views(prev) + seq![t@] =~= task_views(out@));
                    }
                    return Some(out);
                } else {
                    proof {
                        if np < bytes@.len() {
                            assert(r0[0] == bytes@[np as int]);
                            assert(r0[0] != 44 && r0[0] != 93);
                        } else {
                            assert(r0.len() == 0);
                        }
                        assert(sp_tasks_rest(bytes@.skip(pos as int), fuel) is None);
                    }
                    return None;
                }
            },
        }
    }
    proof {
        assert(bytes@.skip(pos as int).len() == 0);
        assert(sp_string(bytes@.skip(pos as int)) is None);
        assert(sp_tasks_rest(bytes@.skip(pos as int), (bytes@.len() - out@.len()) as nat)
            is None);
    }
    None
}


/// The store as it comes up at startup: the persisted document parsed and
/// every stuck running sentinel normalized to the interrupted sentinel; an
/// unreadable document yields the empty store, as read failures are
/// swallowed.
pub fn load_tasks(bytes: &Vec<u8>) -> (r: Vec<Task>)
    ensures
        (match sp_tasks(bytes@) {
            Some(vs) => task_views(r@).len() == vs.len() && (forall|i: int|
                0 <= i < vs.len() ==> task_views(r@)[i] == normalized_view(#[trigger] vs[i])),
            None => r@.len() == 0,
        }),
{
    let mut tasks = match parse_tasks(bytes) {
        Some(ts) => ts,
        None => Vec::new(),
    };
    normalize_loaded(&mut tasks);
    tasks
}

} // verus!
