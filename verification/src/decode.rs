//! Decoding of raw process output into displayable text.
//!
//! A reader thread of the embedding program pulls chunks of bytes from one of
//! the child's streams and feeds them to a [`StreamDecoder`]; each returned
//! text is emitted as an output notification and appended to the execution's
//! accumulator. The decoder holds back at most one partially read multi-byte
//! character between chunks, so a read boundary falling inside a character
//! loses nothing: on a stream whose bytes are valid UTF-8 the emitted texts
//! concatenate to exactly the stream's decoding
//! ([`lemma_stream_feed_lossless`]). Bytes that are not a truncated UTF-8
//! character fall back to the GBK decoding, which itself falls back to
//! replacement characters, so every chunk yields displayable text and the
//! stream always makes progress; at end of stream the remainder is flushed
//! with a lossy decode.

use vstd::prelude::*;

use vstd::utf8::{
    valid_utf8, decode_utf8, is_char_boundary, is_continuation_byte, is_leading_byte_width_1,
    is_leading_byte_width_2, is_leading_byte_width_3, is_leading_byte_width_4,
    length_of_first_scalar, pop_first_scalar, take_first_scalar, valid_first_scalar,
};

verus! {

/// The GBK decoding of the bytes as `encoding_rs` computes it: the decoded
/// text, and whether any malformed sequence was replaced.
pub uninterp spec fn gbk_decoding(b: Seq<u8>) -> (Seq<char>, bool);

/// The text `String::from_utf8_lossy` makes of the bytes: the lossless
/// decoding when they are valid UTF-8, otherwise with replacement characters.
pub uninterp spec fn lossy_utf8(b: Seq<u8>) -> Seq<char>;

/// Relies on `str::from_utf8`: it succeeds exactly on valid UTF-8 and hands
/// the bytes back decoded.
#[verifier::external_body]
pub(crate) fn utf8_str(b: &[u8]) -> (r: Option<&str>)
    ensures
        r is Some <==> valid_utf8(b@),
        r matches Some(s) ==> s@ == decode_utf8(b@),
{
    std::str::from_utf8(b).ok()
}

/// Relies on `String::from_utf8_lossy`: the result depends on the bytes
/// alone, and equals their decoding when they are valid UTF-8.
#[verifier::external_body]
pub(crate) fn utf8_lossy_string(b: &[u8]) -> (r: String)
    ensures
        r@ == lossy_utf8(b@),
        valid_utf8(b@) ==> r@ == decode_utf8(b@),
{
    String::from_utf8_lossy(b).into_owned()
}

/// Relies on `encoding_rs::Encoding::decode` with the GBK encoding: text and
/// malformed-sequence flag depend on the bytes alone.
#[verifier::external_body]
fn gbk_decode(b: &[u8]) -> (r: (String, bool))
    ensures
        r.0@ == gbk_decoding(b@).0,
        r.1 == gbk_decoding(b@).1,
{
    let (text, _, had_errors) = encoding_rs::GBK.decode(b);
    (text.into_owned(), had_errors)
}

/// Width of the scalar encoding a leading byte opens; 0 for a byte that opens
/// none.
pub open spec fn leading_width(x: u8) -> int {
    if is_leading_byte_width_1(x) {
        1
    } else if is_leading_byte_width_2(x) {
        2
    } else if is_leading_byte_width_3(x) {
        3
    } else if is_leading_byte_width_4(x) {
        4
    } else {
        0
    }
}

/// A proper prefix of one scalar's encoding: a leading byte still expecting
/// more bytes, followed only by continuation bytes.
pub open spec fn open_scalar(t: Seq<u8>) -> bool {
    &&& t.len() >= 1
    &&& leading_width(t[0]) > t.len()
    &&& forall|i: int| 1 <= i < t.len() ==> is_continuation_byte(#[trigger] t[i])
}

/// How many trailing bytes of the buffer are held back as the start of a
/// character split across reads: the cut must leave a valid head and an open
/// scalar start; 0 when no such cut exists.
pub open spec fn hold_back(b: Seq<u8>) -> int {
    if b.len() >= 1 && open_scalar(b.skip(b.len() - 1)) && valid_utf8(b.take(b.len() - 1)) {
        1
    } else if b.len() >= 2 && open_scalar(b.skip(b.len() - 2)) && valid_utf8(b.take(b.len() - 2)) {
        2
    } else if b.len() >= 3 && open_scalar(b.skip(b.len() - 3)) && valid_utf8(b.take(b.len() - 3)) {
        3
    } else {
        0
    }
}

/// What one feed makes of the buffered bytes (previous remainder plus fresh
/// chunk): the emitted text and the bytes held back.
pub open spec fn feed_result(b: Seq<u8>) -> (Seq<char>, Seq<u8>) {
    if valid_utf8(b) {
        (decode_utf8(b), Seq::empty())
    } else if hold_back(b) != 0 {
        (decode_utf8(b.take(b.len() - hold_back(b))), b.skip(b.len() - hold_back(b)))
    } else {
        (gbk_decoding(b).0, Seq::empty())
    }
}

fn leading_width_of(x: u8) -> (r: u8)
    ensures
        r as int == leading_width(x),
{
    if x <= 0x7f {
        1
    } else if 0xc0 <= x && x <= 0xdf {
        2
    } else if 0xe0 <= x && x <= 0xef {
        3
    } else if 0xf0 <= x && x <= 0xf7 {
        4
    } else {
        0
    }
}

/// Is the tail of the buffer from `start` on an open scalar start?
fn open_tail_at(b: &Vec<u8>, start: usize) -> (r: bool)
    requires
        start < b@.len(),
    ensures
        r == open_scalar(b@.skip(start as int)),
{
    let ghost t = b@.skip(start as int);
    let n = b.len();
    let w = leading_width_of(b[start]);
    proof {
        assert(t[0] == b@[start as int]);
    }
    if (w as usize) <= n - start {
        return false;
    }
    let mut j = start + 1;
    while j < n
        invariant
            start < j <= n,
            n == b@.len(),
            t == b@.skip(start as int),
            forall|i: int| 1 <= i < j - start ==> is_continuation_byte(#[trigger] t[i]),
        decreases n - j,
    {
        let x = b[j];
        proof {
            assert(t[j - start] == b@[j as int]);
        }
        if !(128 <= x && x <= 191) {
            return false;
        }
        j += 1;
    }
    true
}

/// Stateful decoder of one output stream: carries at most the first bytes of
/// a character whose remainder has not been read yet.
pub struct StreamDecoder {
    pending: Vec<u8>,
}

impl View for StreamDecoder {
    type V = Seq<u8>;

    closed spec fn view(&self) -> Seq<u8> {
        self.pending@
    }
}

impl StreamDecoder {
    pub fn new() -> (r: StreamDecoder)
        ensures
            r@ == Seq::<u8>::empty(),
    {
        StreamDecoder { pending: Vec::new() }
    }

    /// One chunk as read from the stream: decodes the held-back remainder
    /// plus the chunk, keeping back a trailing truncated character; when the
    /// bytes are neither valid UTF-8 nor such a truncation, the whole buffer
    /// falls to the GBK decoding (clean or with replacement characters) and
    /// the chunk is terminated.
    pub fn feed(&mut self, chunk: &Vec<u8>) -> (msg: String)
        ensures
            msg@ == feed_result(old(self)@ + chunk@).0,
            final(self)@ == feed_result(old(self)@ + chunk@).1,
    {
        let mut buf: Vec<u8> = Vec::new();
        buf.append(&mut self.pending);
        let mut i: usize = 0;
        while i < chunk.len()
            invariant
                i <= chunk@.len(),
                buf@ == old(self)@ + chunk@.take(i as int),
                self.pending@ == Seq::<u8>::empty(),
            decreases chunk@.len() - i,
        {
            buf.push(chunk[i]);
            proof {
                assert(buf@ =~= old(self)@ + chunk@.take(i as int + 1));
            }
            i += 1;
        }
        proof {
            assert(chunk@.take(chunk@.len() as int) =~= chunk@);
        }
        let ghost b = buf@;
        if let Some(s) = utf8_str(buf.as_slice()) {
            return String::from_str(s);
        }
        proof {
            assert(!valid_utf8(b));
        }
        let n = buf.len();
        let mut k: usize = 0;
        if n >= 1 && open_tail_at(&buf, n - 1) {
            k = 1;
        } else if n >= 2 && open_tail_at(&buf, n - 2) {
            k = 2;
        } else if n >= 3 && open_tail_at(&buf, n - 3) {
            k = 3;
        }
        if k > 0 {
            let split = n - k;
            let mut tail: Vec<u8> = Vec::new();
            let mut j = split;
            while j < n
                invariant
                    split <= j <= n,
                    n == buf@.len(),
                    buf@ == b,
                    tail@ == b.subrange(split as int, j as int),
                decreases n - j,
            {
                tail.push(buf[j]);
                proof {
                    assert(tail@ =~= b.subrange(split as int, j as int + 1));
                }
                j += 1;
            }
            proof {
                assert(tail@ =~= b.skip(split as int));
            }
            buf.truncate(split);
            proof {
                assert(buf@ == b.take(split as int));
            }
            let head_text = utf8_str(buf.as_slice());
            if let Some(s) = head_text {
                proof {
                    // The chosen cut is the one the specification names: the
                    // shorter cuts were checked open-free, and longer cuts
                    // would need the leading byte at the cut to be a
                    // continuation byte.
                    assert(hold_back(b) == k) by {
                        assert(valid_utf8(b.take(n as int - k as int)));
                        if k == 2 {
                            assert(!open_scalar(b.skip(n as int - 1)));
                        }
                        if k == 3 {
                            assert(!open_scalar(b.skip(n as int - 1)));
                            assert(!open_scalar(b.skip(n as int - 2)));
                        }
                    }
                }
                self.pending = tail;
                return String::from_str(s);
            }
            // The head is not valid text after all: the specification's cut
            // conditions all fail (the one open cut has an invalid head, and
            // a longer cut would start at this cut's leading byte, which is
            // no continuation byte), so the whole buffer falls to GBK.
            proof {
                assert(hold_back(b) == 0) by {
                    assert(!valid_utf8(b.take(n as int - k as int)));
                    let lead = b[n as int - k as int];
                    assert(leading_width(lead) > k as int);
                    assert(!is_continuation_byte(lead));
                    if k == 1 {
                        if n >= 2 && open_scalar(b.skip(n as int - 2)) {
                            assert(b.skip(n as int - 2)[1] == lead);
                            assert(is_continuation_byte(lead));
                        }
                        if n >= 3 && open_scalar(b.skip(n as int - 3)) {
                            assert(b.skip(n as int - 3)[2] == lead);
                            assert(is_continuation_byte(lead));
                        }
                    }
                    if k == 2 {
                        assert(!open_scalar(b.skip(n as int - 1)));
                        if n >= 3 && open_scalar(b.skip(n as int - 3)) {
                            assert(b.skip(n as int - 3)[1] == lead);
                            assert(is_continuation_byte(lead));
                        }
                    }
                    if k == 3 {
                        assert(!open_scalar(b.skip(n as int - 1)));
                        assert(!open_scalar(b.skip(n as int - 2)));
                    }
                }
            }
            buf.append(&mut tail);
            proof {
                assert(buf@ =~= b);
            }
        } else {
            proof {
                assert(hold_back(b) == 0);
            }
        }
        let (text, _had_errors) = gbk_decode(buf.as_slice());
        text
    }

    /// End of stream: any residual held-back bytes are flushed with a lossy
    /// decode (on a stream of valid UTF-8 nothing is pending, and the flush
    /// is empty).
    pub fn finish(&mut self) -> (msg: String)
        ensures
            msg@ == lossy_utf8(old(self)@),
            final(self)@ == Seq::<u8>::empty(),
    {
        let mut buf: Vec<u8> = Vec::new();
        buf.append(&mut self.pending);
        utf8_lossy_string(buf.as_slice())
    }
}

/// All bytes of a stream, in read order.
pub open spec fn concat_bytes(chunks: Seq<Seq<u8>>) -> Seq<u8>
    decreases chunks.len(),
{
    if chunks.len() == 0 {
        Seq::empty()
    } else {
        concat_bytes(chunks.drop_last()) + chunks.last()
    }
}

/// The decoder fed one chunk after another, starting empty: all emitted text
/// in order, and the final held-back bytes.
pub open spec fn feed_all(chunks: Seq<Seq<u8>>) -> (Seq<char>, Seq<u8>)
    decreases chunks.len(),
{
    if chunks.len() == 0 {
        (Seq::empty(), Seq::empty())
    } else {
        let prev = feed_all(chunks.drop_last());
        let step = feed_result(prev.1 + chunks.last());
        (prev.0 + step.0, step.1)
    }
}


/// A buffer beginning with the complete first character of a valid sequence
/// is valid exactly when what follows that character is.
proof fn lemma_valid_cons(v: Seq<u8>, x: Seq<u8>)
    requires
        valid_utf8(v),
        v.len() >= 1,
    ensures
        valid_utf8(take_first_scalar(v) + x) <==> valid_utf8(x),
{
    let w = length_of_first_scalar(v);
    let head = take_first_scalar(v);
    let b = head + x;
    assert(valid_first_scalar(v));
    assert(vstd::utf8::valid_leading_and_continuation_bytes_first_codepoint(v));
    assert(1 <= w && w <= v.len());
    assert(head.len() == w);
    assert(forall|i: int| 0 <= i < w ==> b[i] == v[i]);
    assert(vstd::utf8::valid_leading_and_continuation_bytes_first_codepoint(b));
    assert(vstd::utf8::length_of_first_codepoint(b) == w);
    assert(vstd::utf8::decode_first_codepoint(b) == vstd::utf8::decode_first_codepoint(v));
    assert(valid_first_scalar(b));
    assert(pop_first_scalar(b) =~= x);
    if valid_utf8(x) {
        assert(valid_utf8(b));
    }
    if valid_utf8(b) {
        assert(valid_utf8(x));
    }
}

/// A boundary of the remainder past a boundary is a boundary of the whole.
proof fn lemma_boundary_compose(s: Seq<u8>, m: int, d: int)
    requires
        valid_utf8(s),
        0 <= m,
        0 <= d,
        m + d <= s.len(),
        is_char_boundary(s, m),
        is_char_boundary(s.skip(m), d),
    ensures
        is_char_boundary(s, m + d),
{
    vstd::utf8::valid_utf8_split(s, m);
    let v = s.skip(m);
    assert(v =~= s.subrange(m, s.len() as int));
    assert(valid_utf8(v));
    if m + d == s.len() {
        vstd::utf8::is_char_boundary_start_end_of_seq(s);
    } else {
        assert(v[d] == s[m + d]);
        vstd::utf8::is_char_boundary_iff_not_is_continuation_byte(v, d);
        vstd::utf8::is_char_boundary_iff_not_is_continuation_byte(s, m + d);
    }
}

/// A boundary below a valid prefix's end is a boundary of that prefix.
proof fn lemma_boundary_in_take(s: Seq<u8>, m: int, j: int)
    requires
        valid_utf8(s),
        valid_utf8(s.take(j)),
        0 <= m <= j <= s.len(),
        is_char_boundary(s, m),
    ensures
        is_char_boundary(s.take(j), m),
{
    let x = s.take(j);
    if m == j {
        vstd::utf8::is_char_boundary_start_end_of_seq(x);
    } else {
        assert(x[m] == s[m]);
        vstd::utf8::is_char_boundary_iff_not_is_continuation_byte(s, m);
        vstd::utf8::is_char_boundary_iff_not_is_continuation_byte(x, m);
    }
}

/// Any prefix of valid UTF-8 is either valid itself, ending on a character
/// boundary, or splits at the enclosing character's start into a valid head
/// and an open scalar start of at most three bytes — and `hold_back` finds
/// exactly that split.
#[verifier::rlimit(100)]
#[verifier::spinoff_prover]
proof fn lemma_valid_prefix_shape(v: Seq<u8>, d: int)
    requires
        valid_utf8(v),
        0 <= d <= v.len(),
    ensures
        valid_utf8(v.take(d)) ==> is_char_boundary(v, d),
        !valid_utf8(v.take(d)) ==> ({
            let k = hold_back(v.take(d));
            &&& 1 <= k <= 3 && k <= d
            &&& valid_utf8(v.take(d - k))
            &&& is_char_boundary(v, d - k)
            &&& open_scalar(v.take(d).skip(d - k))
        }),
    decreases v.len(),
{
    let q = v.take(d);
    if d == 0 {
        assert(q =~= Seq::<u8>::empty());
        assert(valid_utf8(q));
        vstd::utf8::is_char_boundary_start_end_of_seq(v);
    } else {
        assert(valid_first_scalar(v));
        assert(vstd::utf8::valid_leading_and_continuation_bytes_first_codepoint(v));
        let w = length_of_first_scalar(v);
        let head = take_first_scalar(v);
        let rest = pop_first_scalar(v);
        assert(1 <= w && w <= v.len());
        assert(forall|i: int| 0 <= i < d ==> q[i] == v[i]);
        if d < w {
            // The first character itself is cut short: the whole prefix is
            // the open start, over an empty head.
            assert(leading_width(v[0]) == w);
            assert(forall|i: int| 1 <= i < d ==> is_continuation_byte(#[trigger] q[i]));
            assert(open_scalar(q));
            assert(!valid_utf8(q)) by {
                if valid_utf8(q) {
                    assert(vstd::utf8::valid_leading_and_continuation_bytes_first_codepoint(q));
                }
            }
            assert(q.skip(0) =~= q);
            assert(q.take(0) =~= Seq::<u8>::empty());
            if d == 2 {
                assert(q.skip(1)[0] == q[1]);
                assert(!open_scalar(q.skip(1)));
            }
            if d == 3 {
                assert(q.skip(1)[0] == q[1]);
                assert(q.skip(2)[0] == q[2]);
                assert(!open_scalar(q.skip(1)));
                assert(!open_scalar(q.skip(2)));
            }
            assert(hold_back(q) == d);
            vstd::utf8::is_char_boundary_start_end_of_seq(v);
            assert(v.take(0) =~= Seq::<u8>::empty());
        } else {
            assert(valid_utf8(rest));
            assert(rest.len() == v.len() - w);
            lemma_valid_prefix_shape(rest, d - w);
            let rq = rest.take(d - w);
            assert(head =~= v.take(w));
            assert(rest =~= v.skip(w));
            assert(q =~= head + rq);
            lemma_valid_cons(v, rq);
            if valid_utf8(rq) {
                assert(valid_utf8(q));
                assert(is_char_boundary(rest, d - w));
                assert(is_char_boundary(v, d)) by {
                    reveal_with_fuel(vstd::utf8::is_char_boundary, 2);
                }
            } else {
                assert(!valid_utf8(q));
                let k = hold_back(rq);
                assert(rq.len() >= 1) by {
                    if rq.len() == 0 {
                        assert(rq =~= Seq::<u8>::empty());
                    }
                }
                assert(1 <= k <= 3 && k <= d - w);
                assert(rq.len() == d - w);
                assert(q.len() == d);
                assert(q.skip(d - k) =~= rq.skip(d - w - k));
                assert(q.take(d - k) =~= head + rest.take(d - w - k));
                lemma_valid_cons(v, rest.take(d - w - k));
                assert(valid_utf8(q.take(d - k)));
                assert(open_scalar(q.skip(d - k)));
                if k == 1 {
                    assert(hold_back(q) == 1);
                } else if k == 2 {
                    assert(!(open_scalar(rq.skip(d - w - 1)) && valid_utf8(rq.take(d - w - 1))));
                    assert(q.skip(d - 1) =~= rq.skip(d - w - 1));
                    assert(q.take(d - 1) =~= head + rest.take(d - w - 1));
                    lemma_valid_cons(v, rest.take(d - w - 1));
                    assert(rest.take(d - w - 1) =~= rq.take(d - w - 1));
                    assert(!(open_scalar(q.skip(d - 1)) && valid_utf8(q.take(d - 1))));
                    assert(hold_back(q) == 2);
                } else {
                    assert(!(open_scalar(rq.skip(d - w - 1)) && valid_utf8(rq.take(d - w - 1))));
                    assert(!(open_scalar(rq.skip(d - w - 2)) && valid_utf8(rq.take(d - w - 2))));
                    assert(q.skip(d - 1) =~= rq.skip(d - w - 1));
                    assert(q.take(d - 1) =~= head + rest.take(d - w - 1));
                    lemma_valid_cons(v, rest.take(d - w - 1));
                    assert(rest.take(d - w - 1) =~= rq.take(d - w - 1));
                    assert(q.skip(d - 2) =~= rq.skip(d - w - 2));
                    assert(q.take(d - 2) =~= head + rest.take(d - w - 2));
                    lemma_valid_cons(v, rest.take(d - w - 2));
                    assert(rest.take(d - w - 2) =~= rq.take(d - w - 2));
                    assert(!(open_scalar(q.skip(d - 1)) && valid_utf8(q.take(d - 1))));
                    assert(!(open_scalar(q.skip(d - 2)) && valid_utf8(q.take(d - 2))));
                    assert(hold_back(q) == 3);
                }
                assert(is_char_boundary(v, d - k)) by {
                    reveal_with_fuel(vstd::utf8::is_char_boundary, 2);
                }
                assert(v.take(d - k) =~= q.take(d - k));
            }
        }
    }
}

/// Feeding any chunking of a prefix of a valid byte stream: everything
/// emitted so far is the decoding of the consumed bytes up to the last
/// character boundary, and the held-back bytes are exactly the rest — at most
/// the open start of one character.
#[verifier::rlimit(100)]
#[verifier::spinoff_prover]
proof fn lemma_feed_all_shape(chunks: Seq<Seq<u8>>, s: Seq<u8>)
    requires
        valid_utf8(s),
        concat_bytes(chunks).len() <= s.len(),
        concat_bytes(chunks) == s.take(concat_bytes(chunks).len() as int),
    ensures
        ({
            let consumed = concat_bytes(chunks).len() as int;
            let r = feed_all(chunks);
            let m = consumed - r.1.len();
            &&& r.1.len() <= consumed
            &&& r.1 == s.subrange(m, consumed)
            &&& valid_utf8(s.take(m))
            &&& is_char_boundary(s, m)
            &&& r.0 == decode_utf8(s.take(m))
            &&& (r.1.len() == 0 || open_scalar(r.1))
        }),
    decreases chunks.len(),
{
    if chunks.len() == 0 {
        assert(s.take(0) =~= Seq::<u8>::empty());
        assert(feed_all(chunks).1 =~= s.subrange(0, 0));
        assert(valid_utf8(Seq::<u8>::empty()));
        vstd::utf8::is_char_boundary_start_end_of_seq(s);
        assert(decode_utf8(Seq::<u8>::empty()) =~= Seq::<char>::empty());
    } else {
        let pre = chunks.drop_last();
        let c = chunks.last();
        let j0 = concat_bytes(pre).len() as int;
        let j1 = concat_bytes(chunks).len() as int;
        assert(concat_bytes(chunks) == concat_bytes(pre) + c);
        assert(j1 == j0 + c.len());
        assert(0 <= j0 <= j1 <= s.len());
        assert(concat_bytes(pre) == s.take(j0)) by {
            assert(forall|i: int|
                0 <= i < j0 ==> #[trigger] concat_bytes(pre)[i] == concat_bytes(chunks)[i]);
            assert(forall|i: int|
                0 <= i < j1 ==> #[trigger] concat_bytes(chunks)[i] == s[i]) by {
                assert(forall|i: int|
                    0 <= i < j1 ==> #[trigger] concat_bytes(chunks)[i] == s.take(j1)[i]);
            }
            assert(concat_bytes(pre) =~= s.take(j0));
        }
        lemma_feed_all_shape(pre, s);
        let rp = feed_all(pre);
        let m = j0 - rp.1.len();
        assert(0 <= m <= j0);
        let b = rp.1 + c;
        assert(rp.1 == s.subrange(m, j0));
        assert(c =~= s.subrange(j0, j1)) by {
            assert(forall|i: int| 0 <= i < c.len() ==> #[trigger] c[i] == concat_bytes(chunks)[j0 + i]);
        }
        assert(b =~= s.subrange(m, j1));
        vstd::utf8::valid_utf8_split(s, m);
        let v = s.skip(m);
        assert(v =~= s.subrange(m, s.len() as int));
        assert(valid_utf8(v));
        let d = j1 - m;
        assert(b =~= v.take(d));
        lemma_valid_prefix_shape(v, d);
        let r = feed_all(chunks);
        assert(r.0 == rp.0 + feed_result(b).0 && r.1 == feed_result(b).1);
        if valid_utf8(b) {
            let m1 = j1;
            assert(s.take(m1) =~= s.take(m) + b);
            vstd::utf8::valid_utf8_concat(s.take(m), b);
            assert(valid_utf8(s.take(m1)));
            assert(is_char_boundary(v, d));
            lemma_boundary_compose(s, m, d);
            lemma_boundary_in_take(s, m, m1);
            vstd::utf8::decode_utf8_split(s.take(m1), m);
            assert(s.take(m1).take(m) =~= s.take(m));
            assert(s.take(m1).skip(m) =~= b);
            assert(r.0 == decode_utf8(s.take(m1)));
            assert(r.1 =~= s.subrange(m1, j1));
        } else {
            let k = hold_back(b);
            assert(1 <= k <= 3 && k <= d);
            let m1 = j1 - k;
            assert(b.take(d - k) =~= v.take(d - k));
            assert(s.take(m1) =~= s.take(m) + v.take(d - k));
            vstd::utf8::valid_utf8_concat(s.take(m), v.take(d - k));
            assert(valid_utf8(s.take(m1)));
            lemma_boundary_compose(s, m, d - k);
            lemma_boundary_in_take(s, m, m1);
            vstd::utf8::decode_utf8_split(s.take(m1), m);
            assert(s.take(m1).take(m) =~= s.take(m));
            assert(s.take(m1).skip(m) =~= b.take(d - k));
            assert(r.0 == decode_utf8(s.take(m1)));
            assert(r.1 == b.skip(d - k));
            assert(r.1 =~= s.subrange(m1, j1));
            assert(open_scalar(v.take(d).skip(d - k)));
            assert(v.take(d).skip(d - k) =~= r.1);
        }
    }
}

/// Output notifications are lossless: when a stream's whole byte sequence is
/// valid UTF-8, the texts the decoder emits for its chunks — however the
/// reads were split — concatenate to exactly the stream's decoding, and
/// nothing is left for the flush.
pub proof fn lemma_stream_feed_lossless(chunks: Seq<Seq<u8>>)
    requires
        valid_utf8(concat_bytes(chunks)),
    ensures
        feed_all(chunks).0 == decode_utf8(concat_bytes(chunks)),
        feed_all(chunks).1 == Seq::<u8>::empty(),
{
    let s = concat_bytes(chunks);
    assert(s == s.take(s.len() as int)) by {
        assert(s.take(s.len() as int) =~= s);
    }
    lemma_feed_all_shape(chunks, s);
    let r = feed_all(chunks);
    let m = s.len() - r.1.len();
    vstd::utf8::valid_utf8_split(s, m);
    if r.1.len() != 0 {
        assert(open_scalar(r.1));
        assert(r.1 =~= s.subrange(m, s.len() as int));
        assert(s.subrange(m, s.len() as int) =~= s.skip(m));
        assert(valid_utf8(r.1));
        assert(valid_first_scalar(r.1));
        assert(vstd::utf8::valid_leading_and_continuation_bytes_first_codepoint(r.1));
        assert(false);
    }
    assert(r.1 =~= Seq::<u8>::empty());
    assert(s.take(m) =~= s);
}

} // verus!
