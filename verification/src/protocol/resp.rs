//! RESP2 (REdis Serialization Protocol, version 2) framing.
//!
//! ferrium speaks the same wire protocol as Redis, so `redis-cli` and any
//! off-the-shelf client library work unchanged. This module implements a
//! streaming decoder (partial frames return `Ok(None)`) and an encoder, both
//! proved against the grammar written below as spec functions.

use vstd::prelude::*;
use vstd::utf8::{decode_utf8, encode_utf8, valid_utf8};

use crate::decimal::{
    decimal, parse_i64, parse_i64_text, push_decimal, push_signed_decimal, signed_decimal,
};
use crate::error::Error;
use crate::text::{ascii_chars, ascii_string, string_bytes, utf8_string};

verus! {

/// A single RESP2 value.
#[derive(Debug, PartialEq, Eq)]
pub enum Frame {
    /// `+OK\r\n`
    Simple(String),
    /// `-ERR message\r\n`
    Error(String),
    /// `:1000\r\n`
    Integer(i64),
    /// `$5\r\nhello\r\n`
    Bulk(Vec<u8>),
    /// `$-1\r\n`
    Null,
    /// `*2\r\n...`
    Array(Vec<Frame>),
}

/// The value of a [`Frame`].
pub enum FrameView {
    Simple(Seq<char>),
    Error(Seq<char>),
    Integer(i64),
    Bulk(Seq<u8>),
    Null,
    Array(Seq<FrameView>),
}

/// The value of a frame.
pub open spec fn frame_view(f: Frame) -> FrameView
    decreases f, 1nat,
{
    match f {
        Frame::Simple(s) => FrameView::Simple(s@),
        Frame::Error(s) => FrameView::Error(s@),
        Frame::Integer(n) => FrameView::Integer(n),
        Frame::Bulk(b) => FrameView::Bulk(b@),
        Frame::Null => FrameView::Null,
        Frame::Array(items) => FrameView::Array(frames_view(items@)),
    }
}

/// The values of a list of frames.
pub open spec fn frames_view(s: Seq<Frame>) -> Seq<FrameView>
    decreases s, 0nat,
{
    if s.len() == 0 {
        Seq::empty()
    } else {
        frames_view(s.drop_last()).push(frame_view(s.last()))
    }
}

impl View for Frame {
    type V = FrameView;

    open spec fn view(&self) -> FrameView {
        frame_view(*self)
    }
}

/// `\r\n`
pub open spec fn crlf() -> Seq<u8> {
    seq![13u8, 10u8]
}

/// The RESP2 encoding of a frame.
pub open spec fn encoding(f: FrameView) -> Seq<u8>
    decreases f, 1nat,
{
    match f {
        FrameView::Simple(s) => seq![43u8] + encode_utf8(s) + crlf(),
        FrameView::Error(s) => seq![45u8] + encode_utf8(s) + crlf(),
        FrameView::Integer(n) => seq![58u8] + signed_decimal(n as int) + crlf(),
        FrameView::Bulk(d) => seq![36u8] + decimal(d.len()) + crlf() + d + crlf(),
        FrameView::Null => seq![36u8, 45u8, 49u8, 13u8, 10u8],
        FrameView::Array(items) => seq![42u8] + decimal(items.len()) + crlf() + encodings(items),
    }
}

/// The encodings of frames, one after the other.
pub open spec fn encodings(items: Seq<FrameView>) -> Seq<u8>
    decreases items, 0nat,
{
    if items.len() == 0 {
        Seq::empty()
    } else {
        encodings(items.drop_last()) + encoding(items.last())
    }
}

/// The first `\r\n` at or after `start`, by the index of its `\r`.
pub open spec fn line_end(buf: Seq<u8>, start: int) -> Option<int>
    decreases buf.len() - start,
{
    if start < 0 || start + 1 >= buf.len() {
        None
    } else if buf[start] == 13 && buf[start + 1] == 10 {
        Some(start)
    } else {
        line_end(buf, start + 1)
    }
}

/// The outcome of reading a frame that starts at a position.
pub enum Parsed {
    /// More bytes are needed.
    Incomplete,
    /// The bytes are malformed; the message says how.
    Invalid(Seq<char>),
    /// A frame, and the position just past it.
    Done(FrameView, int),
}

/// The outcome of reading several frames in a row.
pub enum ParsedItems {
    Incomplete,
    Invalid(Seq<char>),
    Done(Seq<FrameView>, int),
}

/// How a byte list prints with `{:?}`: `[1, 2, 3]`.
pub open spec fn byte_list_text(b: Seq<u8>) -> Seq<u8>
    decreases b.len(),
{
    if b.len() == 0 {
        seq![91u8, 93u8]
    } else {
        byte_list_items(b) + seq![93u8]
    }
}

/// `[` followed by the items of `b` separated by `, `.
pub open spec fn byte_list_items(b: Seq<u8>) -> Seq<u8>
    decreases b.len(),
{
    if b.len() == 0 {
        seq![91u8]
    } else if b.len() == 1 {
        seq![91u8] + decimal(b[0] as nat)
    } else {
        byte_list_items(b.drop_last()) + seq![44u8, 32u8] + decimal(b.last() as nat)
    }
}

/// The message for a line that is not an integer.
pub open spec fn invalid_integer_message(line: Seq<u8>) -> Seq<char> {
    "invalid integer: "@ + ascii_chars(byte_list_text(line))
}

/// The integer on the line starting at `start`, and the position after the
/// line.
pub open spec fn int_line(buf: Seq<u8>, start: int) -> Parsed {
    match line_end(buf, start) {
        None => Parsed::Incomplete,
        Some(e) => match parse_i64_text(buf.subrange(start, e)) {
            Some(v) => Parsed::Done(FrameView::Integer(v), e + 2),
            None => Parsed::Invalid(invalid_integer_message(buf.subrange(start, e))),
        },
    }
}

/// The text on the line starting at `start` (it must be UTF-8).
pub open spec fn string_line(buf: Seq<u8>, start: int) -> Option<Option<(Seq<char>, int)>> {
    match line_end(buf, start) {
        None => None,
        Some(e) => if valid_utf8(buf.subrange(start, e)) {
            Some(Some((decode_utf8(buf.subrange(start, e)), e + 2)))
        } else {
            Some(None)
        },
    }
}

/// The length of the word at the front of `s` (up to the first space).
pub open spec fn word_len(s: Seq<u8>) -> nat
    decreases s.len(),
{
    if s.len() == 0 || s[0] == 32 {
        0
    } else {
        1 + word_len(s.drop_first())
    }
}

/// The words of a line: the runs of bytes between spaces, empty runs
/// skipped.
pub open spec fn words(s: Seq<u8>) -> Seq<Seq<u8>>
    decreases s.len(),
{
    if s.len() == 0 {
        Seq::empty()
    } else if s[0] == 32 {
        words(s.drop_first())
    } else {
        let n = word_len(s);
        if 0 < n <= s.len() {
            seq![s.take(n as int)] + words(s.skip(n as int))
        } else {
            Seq::empty()
        }
    }
}

/// Bulk frames holding each word.
pub open spec fn bulk_words(w: Seq<Seq<u8>>) -> Seq<FrameView> {
    Seq::new(w.len(), |i: int| FrameView::Bulk(w[i]))
}

/// The RESP2 grammar: the frame that starts at `pos` in `buf`.
///
/// A leading `+`, `-`, `:`, `$` or `*` selects a simple string, an error, an
/// integer, a bulk string or an array; a negative bulk or array length is the
/// null frame. Any other first byte starts an inline command: the whole line,
/// split at spaces, as an array of bulk strings.
pub open spec fn parse_at(buf: Seq<u8>, pos: int) -> Parsed
    decreases buf.len() - pos, 0nat,
{
    if pos < 0 || pos >= buf.len() {
        Parsed::Incomplete
    } else {
        let tag = buf[pos];
        if tag == 43 || tag == 45 {
            match string_line(buf, pos + 1) {
                None => Parsed::Incomplete,
                Some(None) => Parsed::Invalid("invalid utf-8 in simple string"@),
                Some(Some((s, e))) => Parsed::Done(
                    if tag == 43 {
                        FrameView::Simple(s)
                    } else {
                        FrameView::Error(s)
                    },
                    e,
                ),
            }
        } else if tag == 58 {
            int_line(buf, pos + 1)
        } else if tag == 36 {
            match int_line(buf, pos + 1) {
                Parsed::Done(FrameView::Integer(n), p) => if n < 0 {
                    Parsed::Done(FrameView::Null, p)
                } else if p + n > buf.len() {
                    Parsed::Incomplete
                } else if p + n + 2 > buf.len() {
                    Parsed::Incomplete
                } else if buf.subrange(p + n, p + n + 2) != crlf() {
                    Parsed::Invalid("bulk not terminated by CRLF"@)
                } else {
                    Parsed::Done(FrameView::Bulk(buf.subrange(p, p + n)), p + n + 2)
                },
                Parsed::Done(_, _) => Parsed::Incomplete,
                Parsed::Incomplete => Parsed::Incomplete,
                Parsed::Invalid(m) => Parsed::Invalid(m),
            }
        } else if tag == 42 {
            match int_line(buf, pos + 1) {
                Parsed::Done(FrameView::Integer(n), p) => if n < 0 {
                    Parsed::Done(FrameView::Null, p)
                } else if pos < p <= buf.len() {
                    match parse_items(buf, p, n as int) {
                        ParsedItems::Done(items, e) => Parsed::Done(FrameView::Array(items), e),
                        ParsedItems::Incomplete => Parsed::Incomplete,
                        ParsedItems::Invalid(m) => Parsed::Invalid(m),
                    }
                } else {
                    Parsed::Incomplete
                },
                Parsed::Done(_, _) => Parsed::Incomplete,
                Parsed::Incomplete => Parsed::Incomplete,
                Parsed::Invalid(m) => Parsed::Invalid(m),
            }
        } else {
            match line_end(buf, pos) {
                None => Parsed::Incomplete,
                Some(e) => Parsed::Done(
                    FrameView::Array(bulk_words(words(buf.subrange(pos, e)))),
                    e + 2,
                ),
            }
        }
    }
}

/// `count` frames in a row, the first starting at `pos`.
pub open spec fn parse_items(buf: Seq<u8>, pos: int, count: int) -> ParsedItems
    decreases buf.len() - pos, 1nat,
{
    if count <= 0 {
        ParsedItems::Done(Seq::empty(), pos)
    } else if pos < 0 || pos >= buf.len() {
        ParsedItems::Incomplete
    } else {
        match parse_at(buf, pos) {
            Parsed::Done(f, q) => if pos < q <= buf.len() {
                match parse_items(buf, q, count - 1) {
                    ParsedItems::Done(rest, e) => ParsedItems::Done(seq![f] + rest, e),
                    ParsedItems::Incomplete => ParsedItems::Incomplete,
                    ParsedItems::Invalid(m) => ParsedItems::Invalid(m),
                }
            } else {
                ParsedItems::Incomplete
            },
            Parsed::Incomplete => ParsedItems::Incomplete,
            Parsed::Invalid(m) => ParsedItems::Invalid(m),
        }
    }
}


/// Every value in a frame list is the value of the frame at that place.
pub proof fn lemma_frames_view_index(s: Seq<Frame>)
    ensures
        frames_view(s).len() == s.len(),
        forall|j: int| 0 <= j < s.len() ==> #[trigger] frames_view(s)[j] == frame_view(s[j]),
    decreases s.len(),
{
    if s.len() > 0 {
        lemma_frames_view_index(s.drop_last());
        assert forall|j: int| 0 <= j < s.len() implies #[trigger] frames_view(s)[j] == frame_view(s[j]) by {
            if j < s.len() - 1 {
                assert(s.drop_last()[j] == s[j]);
            }
        }
    }
}

/// The values of a list with one more frame.
pub proof fn lemma_frames_view_push(s: Seq<Frame>, f: Frame)
    ensures
        frames_view(s.push(f)) == frames_view(s).push(frame_view(f)),
{
    assert(s.push(f).drop_last() =~= s);
}

/// A line found from `start` ends within the buffer.
pub proof fn lemma_line_end_bounds(buf: Seq<u8>, start: int)
    ensures
        line_end(buf, start) matches Some(e) ==> 0 <= start <= e && e + 1 < buf.len() && buf[e] == 13
            && buf[e + 1] == 10,
    decreases buf.len() - start,
{
    if start >= 0 && start + 1 < buf.len() && !(buf[start] == 13 && buf[start + 1] == 10) {
        lemma_line_end_bounds(buf, start + 1);
    }
}

/// The array frame that a list of parsed items makes.
pub open spec fn array_result(r: ParsedItems) -> Parsed {
    match r {
        ParsedItems::Done(items, e) => Parsed::Done(FrameView::Array(items), e),
        ParsedItems::Incomplete => Parsed::Incomplete,
        ParsedItems::Invalid(m) => Parsed::Invalid(m),
    }
}

/// `items` before whatever `rest` gives.
pub open spec fn after_items(items: Seq<FrameView>, rest: ParsedItems) -> ParsedItems {
    match rest {
        ParsedItems::Done(more, e) => ParsedItems::Done(items + more, e),
        ParsedItems::Incomplete => ParsedItems::Incomplete,
        ParsedItems::Invalid(m) => ParsedItems::Invalid(m),
    }
}

/// A tiny read cursor over a byte slice used by the decoder.
struct Cursor<'a> {
    buf: &'a [u8],
    pos: usize,
}

enum ParseError {
    /// Not enough bytes yet — caller should wait for more.
    Incomplete,
    /// The bytes are malformed and the connection is unrecoverable.
    Invalid(String),
}

impl<'a> Cursor<'a> {
    fn new(buf: &'a [u8]) -> (res: Self)
        ensures
            res.buf@ == buf@,
            res.pos == 0,
    {
        Cursor { buf, pos: 0 }
    }

    fn u8(&mut self) -> (res: Result<u8, ParseError>)
        ensures
            final(self).buf@ == old(self).buf@,
            old(self).pos < old(self).buf@.len() ==> (res matches Ok(b) && b == old(self).buf@[old(self).pos as int]
                && final(self).pos == old(self).pos + 1),
            old(self).pos >= old(self).buf@.len() ==> res matches Err(ParseError::Incomplete),
    {
        if self.pos >= self.buf.len() {
            return Err(ParseError::Incomplete);
        }
        let b = self.buf[self.pos];
        self.pos = self.pos + 1;
        Ok(b)
    }

    /// Read up to and including the next CRLF, returning the line without it.
    fn line(&mut self) -> (res: Result<&'a [u8], ParseError>)
        requires
            old(self).pos <= old(self).buf@.len(),
        ensures
            final(self).buf@ == old(self).buf@,
            match line_end(old(self).buf@, old(self).pos as int) {
                None => res matches Err(ParseError::Incomplete),
                Some(e) => res matches Ok(l) && l@ == old(self).buf@.subrange(old(self).pos as int, e)
                    && final(self).pos == e + 2 && old(self).pos + 2 <= e + 2 <= old(self).buf@.len(),
            },
    {
        proof {
            lemma_line_end_bounds(self.buf@, self.pos as int);
        }
        let start = self.pos;
        let len = self.buf.len();
        while len > 0 && self.pos < len - 1
            invariant
                start <= self.pos <= len,
                len == self.buf@.len(),
                self.buf@ == old(self).buf@,
                start == old(self).pos,
                line_end(self.buf@, start as int) == line_end(self.buf@, self.pos as int),
            decreases len - self.pos,
        {
            if self.buf[self.pos] == 13 && self.buf[self.pos + 1] == 10 {
                let line = vstd::slice::slice_subrange(self.buf, start, self.pos);
                self.pos = self.pos + 2;
                return Ok(line);
            }
            self.pos = self.pos + 1;
        }
        Err(ParseError::Incomplete)
    }

    fn take(&mut self, n: usize) -> (res: Result<&'a [u8], ParseError>)
        requires
            old(self).pos <= old(self).buf@.len(),
        ensures
            final(self).buf@ == old(self).buf@,
            old(self).pos + n > old(self).buf@.len() ==> res matches Err(ParseError::Incomplete),
            old(self).pos + n <= old(self).buf@.len() ==> (res matches Ok(s) && s@ == old(self).buf@.subrange(
                old(self).pos as int,
                old(self).pos + n,
            ) && final(self).pos == old(self).pos + n),
    {
        if n > self.buf.len() - self.pos {
            return Err(ParseError::Incomplete);
        }
        let slice = vstd::slice::slice_subrange(self.buf, self.pos, self.pos + n);
        self.pos = self.pos + n;
        Ok(slice)
    }
}

/// Append the `{:?}` text of a byte list.
fn push_byte_list(out: &mut Vec<u8>, b: &[u8])
    ensures
        final(out)@ == old(out)@ + byte_list_text(b@),
{
    out.push(91);
    let mut i: usize = 0;
    while i < b.len()
        invariant
            i <= b@.len(),
            i == 0 ==> out@ == old(out)@ + seq![91u8],
            i > 0 ==> out@ == old(out)@ + byte_list_items(b@.take(i as int)),
        decreases b.len() - i,
    {
        let ghost before = out@;
        if i > 0 {
            out.push(44);
            out.push(32);
        }
        push_decimal(out, b[i] as u64);
        proof {
            let t = b@.take(i + 1);
            assert(t.drop_last() =~= b@.take(i as int));
            assert(t.last() == b@[i as int]);
            if i == 0 {
                assert(t[0] == b@[0]);
                assert(out@ =~= old(out)@ + byte_list_items(t));
            } else {
                assert(out@ =~= old(out)@ + byte_list_items(t));
            }
        }
        i = i + 1;
    }
    out.push(93);
    proof {
        assert(b@.take(b@.len() as int) =~= b@);
        assert(out@ =~= old(out)@ + byte_list_text(b@));
    }
}

proof fn lemma_byte_list_items_ascii(b: Seq<u8>)
    ensures
        crate::text::all_ascii(byte_list_items(b)),
    decreases b.len(),
{
    if b.len() == 1 {
        crate::decimal::lemma_decimal_digits(b[0] as nat);
        let t = byte_list_items(b);
        assert forall|i: int| 0 <= i < t.len() implies #[trigger] t[i] < 128 by {
            if i > 0 {
                assert(t[i] == decimal(b[0] as nat)[i - 1]);
            }
        }
    } else if b.len() > 1 {
        lemma_byte_list_items_ascii(b.drop_last());
        crate::decimal::lemma_decimal_digits(b.last() as nat);
        let p = byte_list_items(b.drop_last());
        let t = byte_list_items(b);
        assert forall|i: int| 0 <= i < t.len() implies #[trigger] t[i] < 128 by {
            if i < p.len() {
                assert(t[i] == p[i]);
            } else if i >= p.len() + 2 {
                assert(t[i] == decimal(b.last() as nat)[i - p.len() - 2]);
            }
        }
    }
}

proof fn lemma_byte_list_ascii(b: Seq<u8>)
    ensures
        crate::text::all_ascii(byte_list_text(b)),
{
    lemma_byte_list_items_ascii(b);
}

fn parse_int(line: &[u8]) -> (res: Result<i64, ParseError>)
    ensures
        match parse_i64_text(line@) {
            Some(v) => res matches Ok(x) && x == v,
            None => res matches Err(ParseError::Invalid(m)) && m@ == invalid_integer_message(line@),
        },
{
    match parse_i64(line) {
        Some(v) => Ok(v),
        None => {
            let mut text: Vec<u8> = Vec::new();
            push_byte_list(&mut text, line);
            proof {
                assert(text@ =~= byte_list_text(line@));
                lemma_byte_list_ascii(line@);
            }
            let listed = ascii_string(text);
            let mut msg = "invalid integer: ".to_owned();
            msg.append(listed.as_str());
            Err(ParseError::Invalid(msg))
        },
    }
}

fn read_string(cursor: &mut Cursor<'_>) -> (res: Result<String, ParseError>)
    requires
        old(cursor).pos <= old(cursor).buf@.len(),
    ensures
        final(cursor).buf@ == old(cursor).buf@,
        match string_line(old(cursor).buf@, old(cursor).pos as int) {
            None => res matches Err(ParseError::Incomplete),
            Some(None) => res matches Err(ParseError::Invalid(m)) && m@ == "invalid utf-8 in simple string"@,
            Some(Some((s, e))) => res matches Ok(x) && x@ == s && final(cursor).pos == e,
        },
{
    let line = match cursor.line() {
        Ok(l) => l,
        Err(e) => return Err(e),
    };
    match utf8_string(vstd::slice::slice_to_vec(line)) {
        Some(s) => Ok(s),
        None => Err(ParseError::Invalid("invalid utf-8 in simple string".to_owned())),
    }
}


/// The words of an inline command line, as bulk frames.
fn inline_words(line: &[u8]) -> (res: Vec<Frame>)
    ensures
        frames_view(res@) == bulk_words(words(line@)),
{
    let mut items: Vec<Frame> = Vec::new();
    let len = line.len();
    let mut i: usize = 0;
    proof {
        assert(line@.skip(0) =~= line@);
        assert(frames_view(items@) =~= Seq::<FrameView>::empty());
    }
    while i < len
        invariant
            i <= len,
            len == line@.len(),
            bulk_words(words(line@)) == frames_view(items@) + bulk_words(words(line@.skip(i as int))),
        decreases len - i,
    {
        let ghost rest = line@.skip(i as int);
        if line[i] == 32 {
            assert(rest.drop_first() =~= line@.skip(i + 1));
            i = i + 1;
        } else {
            let mut j: usize = i;
            while j < len && line[j] != 32
                invariant
                    i <= j <= len,
                    len == line@.len(),
                    rest == line@.skip(i as int),
                    word_len(rest) == (j - i) + word_len(line@.skip(j as int)),
                decreases len - j,
            {
                assert(line@.skip(j as int).drop_first() =~= line@.skip(j + 1));
                j = j + 1;
            }
            assert(word_len(line@.skip(j as int)) == 0);
            let word = vstd::slice::slice_to_vec(vstd::slice::slice_subrange(line, i, j));
            let ghost before = frames_view(items@);
            let ghost old_items = items@;
            let ghost w = word@;
            proof {
                assert(w =~= rest.take((j - i) as int));
                assert(rest.skip((j - i) as int) =~= line@.skip(j as int));
                assert(words(rest) == seq![w] + words(line@.skip(j as int)));
                assert(bulk_words(words(rest)) =~= seq![FrameView::Bulk(w)] + bulk_words(words(line@.skip(j as int))));
            }
            items.push(Frame::Bulk(word));
            proof {
                lemma_frames_view_push(old_items, items@.last());
                assert(old_items.push(items@.last()) =~= items@);
                assert(frame_view(items@.last()) == FrameView::Bulk(w));
                assert(frames_view(items@) == before.push(FrameView::Bulk(w)));
                assert(before.push(FrameView::Bulk(w)) + bulk_words(words(line@.skip(j as int))) =~= before + (
                seq![FrameView::Bulk(w)] + bulk_words(words(line@.skip(j as int)))));
            }
            i = j;
        }
    }
    proof {
        assert(line@.skip(len as int) =~= Seq::<u8>::empty());
        assert(frames_view(items@) + Seq::<FrameView>::empty() =~= frames_view(items@));
        assert(bulk_words(Seq::<Seq<u8>>::empty()) =~= Seq::<FrameView>::empty());
    }
    items
}

/// Read the frame at the cursor.
fn parse(cursor: &mut Cursor<'_>) -> (res: Result<Frame, ParseError>)
    requires
        old(cursor).pos <= old(cursor).buf@.len(),
    ensures
        final(cursor).buf@ == old(cursor).buf@,
        match parse_at(old(cursor).buf@, old(cursor).pos as int) {
            Parsed::Done(f, e) => res matches Ok(x) && x@ == f && final(cursor).pos == e
                && old(cursor).pos < e <= old(cursor).buf@.len(),
            Parsed::Incomplete => res matches Err(ParseError::Incomplete),
            Parsed::Invalid(m) => res matches Err(ParseError::Invalid(x)) && x@ == m,
        },
    decreases old(cursor).buf@.len() - old(cursor).pos,
{
    let ghost buf = cursor.buf@;
    let ghost pos = cursor.pos as int;
    proof {
        lemma_line_end_bounds(buf, pos + 1);
        lemma_line_end_bounds(buf, pos);
    }
    let tag = match cursor.u8() {
        Ok(t) => t,
        Err(e) => return Err(e),
    };
    if tag == 43 || tag == 45 {
        let s = match read_string(cursor) {
            Ok(s) => s,
            Err(e) => return Err(e),
        };
        if tag == 43 {
            Ok(Frame::Simple(s))
        } else {
            Ok(Frame::Error(s))
        }
    } else if tag == 58 {
        let line = match cursor.line() {
            Ok(l) => l,
            Err(e) => return Err(e),
        };
        match parse_int(line) {
            Ok(n) => Ok(Frame::Integer(n)),
            Err(e) => Err(e),
        }
    } else if tag == 36 {
        let line = match cursor.line() {
            Ok(l) => l,
            Err(e) => return Err(e),
        };
        let len = match parse_int(line) {
            Ok(n) => n,
            Err(e) => return Err(e),
        };
        if len < 0 {
            return Ok(Frame::Null);
        }
        if len as u64 > (cursor.buf.len() - cursor.pos) as u64 {
            return Err(ParseError::Incomplete);
        }
        let data = match cursor.take(len as usize) {
            Ok(d) => d,
            Err(e) => return Err(e),
        };
        let frame = Frame::Bulk(vstd::slice::slice_to_vec(data));
        // Consume the trailing CRLF.
        let end = match cursor.take(2) {
            Ok(d) => d,
            Err(e) => return Err(e),
        };
        if end[0] != 13 || end[1] != 10 {
            assert(end@ != crlf());
            return Err(ParseError::Invalid("bulk not terminated by CRLF".to_owned()));
        }
        assert(end@ =~= crlf());
        Ok(frame)
    } else if tag == 42 {
        let line = match cursor.line() {
            Ok(l) => l,
            Err(e) => return Err(e),
        };
        let len = match parse_int(line) {
            Ok(n) => n,
            Err(e) => return Err(e),
        };
        if len < 0 {
            return Ok(Frame::Null);
        }
        let ghost p0 = cursor.pos as int;
        let mut items: Vec<Frame> = Vec::new();
        let mut k: i64 = 0;
        assert(frames_view(items@) =~= Seq::<FrameView>::empty());
        assert(after_items(Seq::empty(), parse_items(buf, p0, len as int)) =~= parse_items(buf, p0, len as int));
        assert(parse_at(buf, pos) == array_result(parse_items(buf, p0, len as int)));
        while k < len
            invariant
                0 <= k <= len,
                cursor.buf@ == buf,
                buf == old(cursor).buf@,
                pos == old(cursor).pos,
                parse_at(buf, pos) == array_result(parse_items(buf, p0, len as int)),
                pos < p0 <= cursor.pos <= buf.len(),
                parse_items(buf, p0, len as int) == after_items(
                    frames_view(items@),
                    parse_items(buf, cursor.pos as int, (len - k) as int),
                ),
            decreases len - k,
        {
            let ghost at = cursor.pos as int;
            let item = match parse(cursor) {
                Ok(f) => f,
                Err(e) => return Err(e),
            };
            let ghost before = frames_view(items@);
            let ghost old_items = items@;
            let ghost fv = item@;
            items.push(item);
            proof {
                lemma_frames_view_push(old_items, items@.last());
                assert(old_items.push(items@.last()) =~= items@);
                match parse_items(buf, cursor.pos as int, (len - k - 1) as int) {
                    ParsedItems::Done(rest, e) => {
                        assert(before + (seq![fv] + rest) =~= before.push(fv) + rest);
                    },
                    _ => {},
                }
            }
            k = k + 1;
        }
        assert(frames_view(items@) + Seq::<FrameView>::empty() =~= frames_view(items@));
        assert(parse_items(buf, cursor.pos as int, 0) == ParsedItems::Done(Seq::empty(), cursor.pos as int));
        assert(parse_at(buf, pos) == Parsed::Done(FrameView::Array(frames_view(items@)), cursor.pos as int));
        Ok(Frame::Array(items))
    } else {
        // Inline commands (a bare line, e.g. typed by hand into a socket) are
        // treated as an array of the whitespace-split words.
        cursor.pos = cursor.pos - 1;
        let line = match cursor.line() {
            Ok(l) => l,
            Err(e) => return Err(e),
        };
        let words = inline_words(line);
        assert(parse_at(buf, pos) == Parsed::Done(FrameView::Array(frames_view(words@)), cursor.pos as int));
        Ok(Frame::Array(words))
    }
}

impl Frame {
    /// Convenience constructor for a bulk string.
    pub fn bulk(data: &[u8]) -> (res: Frame)
        ensures
            res@ == FrameView::Bulk(data@),
    {
        Frame::Bulk(vstd::slice::slice_to_vec(data))
    }

    /// Attempt to decode a single frame from the front of `src`.
    ///
    /// Returns `Ok(None)` when more bytes are needed. On success the consumed
    /// bytes are removed from `src`.
    pub fn decode(src: &mut Vec<u8>) -> (res: Result<Option<Frame>, Error>)
        ensures
            match parse_at(old(src)@, 0) {
                Parsed::Done(f, n) => res matches Ok(Some(x)) && x@ == f && final(src)@ == old(src)@.skip(n),
                Parsed::Incomplete => res matches Ok(None) && final(src)@ == old(src)@,
                Parsed::Invalid(m) => res matches Err(Error::Protocol(x)) && x@ == m && final(src)@
                    == old(src)@,
            },
    {
        let mut cursor = Cursor::new(src.as_slice());
        match parse(&mut cursor) {
            Ok(frame) => {
                let consumed = cursor.pos;
                let rest = src.split_off(consumed);
                *src = rest;
                Ok(Some(frame))
            },
            Err(ParseError::Incomplete) => Ok(None),
            Err(ParseError::Invalid(msg)) => Err(Error::Protocol(msg)),
        }
    }
}


impl Frame {
    /// A frame with the same value.
    pub fn duplicate(&self) -> (res: Frame)
        ensures
            res@ == self@,
        decreases self,
    {
        match self {
            Frame::Simple(s) => Frame::Simple(s.clone()),
            Frame::Error(s) => Frame::Error(s.clone()),
            Frame::Integer(n) => Frame::Integer(*n),
            Frame::Bulk(b) => Frame::Bulk(b.clone()),
            Frame::Null => Frame::Null,
            Frame::Array(items) => {
                let mut out: Vec<Frame> = Vec::new();
                let mut i: usize = 0;
                while i < items.len()
                    invariant
                        i <= items@.len(),
                        *self == Frame::Array(*items),
                        frames_view(out@) == frames_view(items@.take(i as int)),
                    decreases items.len() - i,
                {
                    let item = &items[i];
                    assert(decreases_to!(*self => *item)) by {
                        assert(decreases_to!(*self => (*self)->Array_0));
                        assert((*self)->Array_0 == *items);
                        assert(decreases_to!(*items => items@));
                        assert(decreases_to!(items@ => items@[i as int]));
                    }
                    let copy = item.duplicate();
                    proof {
                        lemma_frames_view_push(out@, copy);
                        lemma_frames_view_push(items@.take(i as int), *item);
                        assert(items@.take(i + 1) =~= items@.take(i as int).push(*item));
                    }
                    out.push(copy);
                    i = i + 1;
                }
                proof {
                    assert(items@.take(items@.len() as int) =~= items@);
                }
                Frame::Array(out)
            },
        }
    }
}

impl Clone for Frame {
    fn clone(&self) -> (res: Frame)
        ensures
            res@ == self@,
    {
        self.duplicate()
    }
}


/// Append all of `src` to `dst`.
fn push_all(dst: &mut Vec<u8>, src: &[u8])
    ensures
        final(dst)@ == old(dst)@ + src@,
{
    let mut i: usize = 0;
    while i < src.len()
        invariant
            i <= src@.len(),
            dst@ == old(dst)@ + src@.take(i as int),
        decreases src.len() - i,
    {
        dst.push(src[i]);
        i = i + 1;
        assert(dst@ =~= old(dst)@ + src@.take(i as int));
    }
    assert(src@.take(src@.len() as int) =~= src@);
}

impl Frame {
    /// Serialize this frame at the end of `dst`.
    pub fn encode(&self, dst: &mut Vec<u8>)
        ensures
            final(dst)@ == old(dst)@ + encoding(self@),
        decreases self,
    {
        match self {
            Frame::Simple(s) => {
                dst.push(43);
                push_all(dst, string_bytes(s));
                dst.push(13);
                dst.push(10);
                assert(dst@ =~= old(dst)@ + encoding(self@));
            },
            Frame::Error(s) => {
                dst.push(45);
                push_all(dst, string_bytes(s));
                dst.push(13);
                dst.push(10);
                assert(dst@ =~= old(dst)@ + encoding(self@));
            },
            Frame::Integer(n) => {
                dst.push(58);
                push_signed_decimal(dst, *n);
                dst.push(13);
                dst.push(10);
                assert(dst@ =~= old(dst)@ + encoding(self@));
            },
            Frame::Bulk(data) => {
                dst.push(36);
                push_decimal(dst, data.len() as u64);
                dst.push(13);
                dst.push(10);
                push_all(dst, data.as_slice());
                dst.push(13);
                dst.push(10);
                assert(dst@ =~= old(dst)@ + encoding(self@));
            },
            Frame::Null => {
                dst.push(36);
                dst.push(45);
                dst.push(49);
                dst.push(13);
                dst.push(10);
                assert(dst@ =~= old(dst)@ + encoding(self@));
            },
            Frame::Array(items) => {
                dst.push(42);
                push_decimal(dst, items.len() as u64);
                dst.push(13);
                dst.push(10);
                let ghost head = dst@;
                let ghost views = frames_view(items@);
                proof {
                    lemma_frames_view_index(items@);
                    assert(head + encodings(views.take(0)) =~= head) by {
                        assert(views.take(0) =~= Seq::<FrameView>::empty());
                    }
                }
                let mut i: usize = 0;
                while i < items.len()
                    invariant
                        i <= items@.len(),
                        *self == Frame::Array(*items),
                        views == frames_view(items@),
                        views.len() == items@.len(),
                        forall|j: int| 0 <= j < items@.len() ==> #[trigger] views[j] == frame_view(items@[j]),
                        dst@ == head + encodings(views.take(i as int)),
                    decreases items.len() - i,
                {
                    let item = &items[i];
                    assert(decreases_to!(*self => *item)) by {
                        assert(decreases_to!(*self => (*self)->Array_0));
                        assert((*self)->Array_0 == *items);
                        assert(decreases_to!(*items => items@));
                        assert(decreases_to!(items@ => items@[i as int]));
                    }
                    item.encode(dst);
                    proof {
                        let t = views.take(i + 1);
                        assert(t.drop_last() =~= views.take(i as int));
                        assert(t.last() == views[i as int]);
                    }
                    i = i + 1;
                }
                proof {
                    assert(views.take(items@.len() as int) =~= views);
                }
                assert(dst@ =~= old(dst)@ + encoding(self@));
            },
        }
    }
}


/// Whether `b` holds no `\r\n` pair.
pub open spec fn no_crlf(b: Seq<u8>) -> bool {
    forall|i: int| 0 <= i < b.len() - 1 ==> !(#[trigger] b[i] == 13 && b[i + 1] == 10)
}

/// The frames that the encoder and decoder agree on: strings without a
/// `\r\n` inside (a line ends at the first one), and lengths within `i64`.
pub open spec fn encodable(f: FrameView) -> bool
    decreases f, 1nat,
{
    match f {
        FrameView::Simple(s) => no_crlf(encode_utf8(s)),
        FrameView::Error(s) => no_crlf(encode_utf8(s)),
        FrameView::Bulk(d) => d.len() <= i64::MAX,
        FrameView::Array(items) => items.len() <= i64::MAX && all_encodable(items),
        _ => true,
    }
}

/// Every frame of the list is encodable.
pub open spec fn all_encodable(items: Seq<FrameView>) -> bool
    decreases items, 0nat,
{
    if items.len() == 0 {
        true
    } else {
        all_encodable(items.drop_last()) && encodable(items.last())
    }
}

proof fn lemma_encodings_front(items: Seq<FrameView>)
    requires
        items.len() > 0,
    ensures
        encodings(items) == encoding(items[0]) + encodings(items.drop_first()),
        all_encodable(items) ==> encodable(items[0]) && all_encodable(items.drop_first()),
    decreases items.len(),
{
    if items.len() == 1 {
        assert(items.drop_last() =~= Seq::<FrameView>::empty());
        assert(items.drop_first() =~= Seq::<FrameView>::empty());
        assert(encodings(items.drop_last()) =~= Seq::<u8>::empty());
        assert(encodings(items.drop_first()) =~= Seq::<u8>::empty());
        assert(encodings(items) =~= encoding(items[0]));
    } else {
        let dl = items.drop_last();
        lemma_encodings_front(dl);
        assert(dl[0] == items[0]);
        assert(items.drop_first().drop_last() =~= dl.drop_first());
        assert(items.drop_first().last() == items.last());
        assert(encodings(items) =~= encoding(items[0]) + encodings(items.drop_first()));
    }
}

proof fn lemma_line_end_at(buf: Seq<u8>, start: int, e: int)
    requires
        0 <= start <= e,
        e + 1 < buf.len(),
        buf[e] == 13,
        buf[e + 1] == 10,
        no_crlf(buf.subrange(start, e)),
    ensures
        line_end(buf, start) == Some(e),
    decreases e - start,
{
    if start < e {
        assert(buf.subrange(start, e)[0] == buf[start]);
        if e - start >= 2 {
            assert(buf.subrange(start, e)[1] == buf[start + 1]);
        }
        assert(!(buf[start] == 13 && buf[start + 1] == 10));
        assert forall|i: int| 0 <= i < buf.subrange(start + 1, e).len() - 1 implies !(#[trigger] buf.subrange(
            start + 1,
            e,
        )[i] == 13 && buf.subrange(start + 1, e)[i + 1] == 10) by {
            assert(buf.subrange(start + 1, e)[i] == buf.subrange(start, e)[i + 1]);
            assert(buf.subrange(start + 1, e)[i + 1] == buf.subrange(start, e)[i + 2]);
        }
        lemma_line_end_at(buf, start + 1, e);
    }
}

proof fn lemma_digits_no_crlf(d: Seq<u8>)
    requires
        crate::decimal::all_digits(d) || (d.len() > 0 && d[0] == 45 && crate::decimal::all_digits(d.drop_first())),
    ensures
        no_crlf(d),
{
    assert forall|i: int| 0 <= i < d.len() - 1 implies !(#[trigger] d[i] == 13 && d[i + 1] == 10) by {
        if crate::decimal::all_digits(d) {
            assert(crate::decimal::is_digit(d[i]));
        } else if i > 0 {
            assert(d[i] == d.drop_first()[i - 1]);
            assert(crate::decimal::is_digit(d.drop_first()[i - 1]));
        }
    }
}

/// An integer line: `digits` then `\r\n` at `start` reads back as `n`.
proof fn lemma_int_line(buf: Seq<u8>, start: int, n: i64)
    requires
        0 <= start,
        start + signed_decimal(n as int).len() + 2 <= buf.len(),
        buf.subrange(start, start + signed_decimal(n as int).len()) == signed_decimal(n as int),
        buf[start + signed_decimal(n as int).len()] == 13,
        buf[start + signed_decimal(n as int).len() + 1] == 10,
    ensures
        int_line(buf, start) == Parsed::Done(FrameView::Integer(n), start + signed_decimal(n as int).len() + 2),
{
    let d = signed_decimal(n as int);
    crate::decimal::lemma_signed_decimal_roundtrip(n);
    if n < 0 {
        crate::decimal::lemma_decimal_digits((-(n as int)) as nat);
        assert(d.drop_first() =~= decimal((-(n as int)) as nat));
    } else {
        crate::decimal::lemma_decimal_digits(n as nat);
    }
    lemma_digits_no_crlf(d);
    lemma_line_end_at(buf, start, start + d.len());
}

/// The bytes of `whole`, found at `pos` in `buf`, one by one.
proof fn lemma_bytes_at(buf: Seq<u8>, pos: int, whole: Seq<u8>)
    requires
        0 <= pos,
        pos + whole.len() <= buf.len(),
        buf.subrange(pos, pos + whole.len()) == whole,
    ensures
        forall|i: int| pos <= i < pos + whole.len() ==> #[trigger] buf[i] == whole[i - pos],
{
    assert forall|i: int| pos <= i < pos + whole.len() implies #[trigger] buf[i] == whole[i - pos] by {
        assert(buf.subrange(pos, pos + whole.len())[i - pos] == buf[i]);
    }
}

/// A frame laid out as a tag byte, a header line and what follows the line,
/// found at `pos`: each part is found where it belongs.
proof fn lemma_header_at(buf: Seq<u8>, pos: int, tag: u8, head: Seq<u8>, tail: Seq<u8>)
    requires
        0 <= pos,
        pos + 1 + head.len() + 2 + tail.len() <= buf.len(),
        buf.subrange(pos, pos + 1 + head.len() + 2 + tail.len()) == seq![tag] + head + crlf() + tail,
    ensures
        buf[pos] == tag,
        buf.subrange(pos + 1, pos + 1 + head.len()) == head,
        buf[pos + 1 + head.len()] == 13,
        buf[pos + 1 + head.len() + 1] == 10,
        buf.subrange(pos + 1 + head.len() + 2, pos + 1 + head.len() + 2 + tail.len()) == tail,
{
    let enc = seq![tag] + head + crlf() + tail;
    lemma_bytes_at(buf, pos, enc);
    assert(buf[pos] == enc[0]);
    assert(buf.subrange(pos + 1, pos + 1 + head.len()) =~= head) by {
        assert forall|i: int| 0 <= i < head.len() implies #[trigger] buf.subrange(pos + 1, pos + 1 + head.len())[i] == head[i] by {
            assert(buf[pos + 1 + i] == enc[1 + i]);
        }
    }
    assert(buf[pos + 1 + head.len()] == enc[1 + head.len() as int]);
    assert(buf[pos + 2 + head.len()] == enc[2 + head.len() as int]);
    let p = pos + 1 + head.len() + 2;
    assert(buf.subrange(p, p + tail.len()) =~= tail) by {
        assert forall|i: int| 0 <= i < tail.len() implies #[trigger] buf.subrange(p, p + tail.len())[i] == tail[i] by {
            assert(buf[p + i] == enc[(p + i - pos) as int]);
        }
    }
}

/// A simple string or an error line reads back as itself.
proof fn lemma_parse_line_frame(buf: Seq<u8>, pos: int, f: FrameView)
    requires
        f is Simple || f is Error,
        encodable(f),
        0 <= pos,
        pos + encoding(f).len() <= buf.len(),
        buf.subrange(pos, pos + encoding(f).len()) == encoding(f),
    ensures
        parse_at(buf, pos) == Parsed::Done(f, pos + encoding(f).len()),
{
    let (tag, s) = match f {
        FrameView::Simple(s) => (43u8, s),
        FrameView::Error(s) => (45u8, s),
        _ => (0u8, Seq::empty()),
    };
    let b = encode_utf8(s);
    assert(encoding(f) =~= seq![tag] + b + crlf() + Seq::<u8>::empty());
    lemma_header_at(buf, pos, tag, b, Seq::empty());
    lemma_line_end_at(buf, pos + 1, pos + 1 + b.len());
    vstd::utf8::encode_utf8_valid_utf8(s);
    vstd::utf8::encode_utf8_decode_utf8(s);
}

/// An integer frame reads back as itself.
proof fn lemma_parse_integer_frame(buf: Seq<u8>, pos: int, n: i64)
    requires
        0 <= pos,
        pos + encoding(FrameView::Integer(n)).len() <= buf.len(),
        buf.subrange(pos, pos + encoding(FrameView::Integer(n)).len()) == encoding(FrameView::Integer(n)),
    ensures
        parse_at(buf, pos) == Parsed::Done(FrameView::Integer(n), pos + encoding(FrameView::Integer(n)).len()),
{
    let d = signed_decimal(n as int);
    assert(encoding(FrameView::Integer(n)) =~= seq![58u8] + d + crlf() + Seq::<u8>::empty());
    lemma_header_at(buf, pos, 58u8, d, Seq::empty());
    lemma_int_line(buf, pos + 1, n);
}

/// A bulk frame reads back as itself.
proof fn lemma_parse_bulk_frame(buf: Seq<u8>, pos: int, data: Seq<u8>)
    requires
        data.len() <= i64::MAX,
        0 <= pos,
        pos + encoding(FrameView::Bulk(data)).len() <= buf.len(),
        buf.subrange(pos, pos + encoding(FrameView::Bulk(data)).len()) == encoding(FrameView::Bulk(data)),
    ensures
        parse_at(buf, pos) == Parsed::Done(FrameView::Bulk(data), pos + encoding(FrameView::Bulk(data)).len()),
{
    let n = data.len() as i64;
    let d = decimal(data.len());
    assert(signed_decimal(n as int) == d);
    assert(encoding(FrameView::Bulk(data)) =~= seq![36u8] + d + crlf() + (data + crlf()));
    lemma_header_at(buf, pos, 36u8, d, data + crlf());
    lemma_int_line(buf, pos + 1, n);
    let p = pos + 1 + d.len() + 2;
    lemma_bytes_at(buf, p, data + crlf());
    assert(buf.subrange(p, p + data.len()) =~= data) by {
        assert forall|i: int| 0 <= i < data.len() implies #[trigger] buf.subrange(p, p + data.len())[i] == data[i] by {
            assert(buf[p + i] == (data + crlf())[i]);
        }
    }
    assert(buf.subrange(p + data.len(), p + data.len() + 2) =~= crlf()) by {
        assert(buf[p + data.len()] == (data + crlf())[data.len() as int]);
        assert(buf[p + data.len() + 1] == (data + crlf())[data.len() + 1int]);
    }
}

/// The null frame reads back as itself.
proof fn lemma_parse_null_frame(buf: Seq<u8>, pos: int)
    requires
        0 <= pos,
        pos + encoding(FrameView::Null).len() <= buf.len(),
        buf.subrange(pos, pos + encoding(FrameView::Null).len()) == encoding(FrameView::Null),
    ensures
        parse_at(buf, pos) == Parsed::Done(FrameView::Null, pos + encoding(FrameView::Null).len()),
{
    let d = signed_decimal(-1);
    assert(d =~= seq![45u8, 49u8]) by {
        assert(decimal(1) =~= seq![49u8]);
    }
    assert(encoding(FrameView::Null) =~= seq![36u8] + d + crlf() + Seq::<u8>::empty());
    lemma_header_at(buf, pos, 36u8, d, Seq::empty());
    lemma_int_line(buf, pos + 1, -1i64);
}

/// The frame encoded at `pos` reads back as that frame, ending just past
/// its encoding.
pub proof fn lemma_parse_encoding(buf: Seq<u8>, pos: int, f: FrameView)
    requires
        encodable(f),
        0 <= pos,
        pos + encoding(f).len() <= buf.len(),
        buf.subrange(pos, pos + encoding(f).len()) == encoding(f),
    ensures
        parse_at(buf, pos) == Parsed::Done(f, pos + encoding(f).len()),
    decreases f, 1nat,
{
    match f {
        FrameView::Simple(_) => lemma_parse_line_frame(buf, pos, f),
        FrameView::Error(_) => lemma_parse_line_frame(buf, pos, f),
        FrameView::Integer(n) => lemma_parse_integer_frame(buf, pos, n),
        FrameView::Bulk(data) => lemma_parse_bulk_frame(buf, pos, data),
        FrameView::Null => lemma_parse_null_frame(buf, pos),
        FrameView::Array(items) => {
            let n = items.len() as i64;
            let d = decimal(items.len());
            assert(signed_decimal(n as int) == d);
            let rest = encodings(items);
            assert(encoding(f) =~= seq![42u8] + d + crlf() + rest);
            lemma_header_at(buf, pos, 42u8, d, rest);
            lemma_int_line(buf, pos + 1, n);
            lemma_parse_encodings(buf, pos + 1 + d.len() + 2, items);
        },
    }
}

/// Frames encoded one after the other from `pos` read back as those frames.
pub proof fn lemma_parse_encodings(buf: Seq<u8>, pos: int, items: Seq<FrameView>)
    requires
        all_encodable(items),
        0 <= pos,
        pos + encodings(items).len() <= buf.len(),
        buf.subrange(pos, pos + encodings(items).len()) == encodings(items),
    ensures
        parse_items(buf, pos, items.len() as int) == ParsedItems::Done(items, pos + encodings(items).len()),
    decreases items, 0nat,
{
    if items.len() > 0 {
        lemma_encodings_front(items);
        let e0 = encoding(items[0]);
        let rest = items.drop_first();
        let er = encodings(rest);
        assert(buf.subrange(pos, pos + e0.len()) =~= e0) by {
            assert forall|i: int| 0 <= i < e0.len() implies #[trigger] buf.subrange(pos, pos + e0.len())[i] == e0[i] by {
                assert(buf.subrange(pos, pos + encodings(items).len())[i] == encodings(items)[i]);
            }
        }
        assert(buf.subrange(pos + e0.len(), pos + e0.len() + er.len()) =~= er) by {
            assert forall|i: int| 0 <= i < er.len() implies #[trigger] buf.subrange(pos + e0.len(), pos + e0.len() + er.len())[i] == er[i] by {
                assert(buf.subrange(pos, pos + encodings(items).len())[e0.len() + i] == encodings(items)[e0.len() + i]);
            }
        }
        assert(decreases_to!(items => items[0]));
        lemma_parse_encoding(buf, pos, items[0]);
        assert(e0.len() > 0) by {
            assert(e0[0] == e0[0]);
            lemma_encoding_nonempty(items[0]);
        }
        lemma_parse_encodings(buf, pos + e0.len(), rest);
        assert(seq![items[0]] + rest =~= items);
    } else {
        assert(items =~= Seq::<FrameView>::empty());
    }
}

proof fn lemma_encoding_nonempty(f: FrameView)
    ensures
        encoding(f).len() > 0,
{
}

/// The bytes from `pos` to the end of `buf` are the first bytes of `whole`.
pub open spec fn starts_like(buf: Seq<u8>, pos: int, whole: Seq<u8>) -> bool {
    &&& 0 <= pos <= buf.len()
    &&& buf.len() - pos <= whole.len()
    &&& buf.subrange(pos, buf.len() as int) == whole.take(buf.len() - pos)
}

proof fn lemma_prefix_bytes(buf: Seq<u8>, pos: int, whole: Seq<u8>)
    requires
        starts_like(buf, pos, whole),
    ensures
        forall|i: int| pos <= i < buf.len() ==> #[trigger] buf[i] == whole[i - pos],
{
    assert forall|i: int| pos <= i < buf.len() implies #[trigger] buf[i] == whole[i - pos] by {
        assert(buf.subrange(pos, buf.len() as int)[i - pos] == buf[i]);
        assert(whole.take(buf.len() - pos)[i - pos] == whole[i - pos]);
    }
}

/// No `\r\n` starts at or after `start`: the line is unfinished.
proof fn lemma_line_end_none(buf: Seq<u8>, start: int)
    requires
        0 <= start,
        forall|i: int| start <= i < buf.len() - 1 ==> !(#[trigger] buf[i] == 13 && buf[i + 1] == 10),
    ensures
        line_end(buf, start) is None,
    decreases buf.len() - start,
{
    if start + 1 < buf.len() {
        lemma_line_end_none(buf, start + 1);
    }
}

/// A header line cut before its `\n` arrived is unfinished.
proof fn lemma_cut_header(buf: Seq<u8>, pos: int, tag: u8, head: Seq<u8>, tail: Seq<u8>)
    requires
        starts_like(buf, pos, seq![tag] + head + crlf() + tail),
        pos < buf.len() < pos + 1 + head.len() + 2,
        no_crlf(head),
    ensures
        buf[pos] == tag,
        line_end(buf, pos + 1) is None,
{
    let enc = seq![tag] + head + crlf() + tail;
    lemma_prefix_bytes(buf, pos, enc);
    assert(buf[pos] == enc[0]);
    assert forall|i: int| pos + 1 <= i < buf.len() - 1 implies !(#[trigger] buf[i] == 13 && buf[i + 1] == 10) by {
        assert(buf[i] == enc[i - pos]);
        assert(buf[i + 1] == enc[i + 1 - pos]);
        if i - pos < head.len() {
            assert(enc[i - pos] == head[i - pos - 1]);
            assert(enc[i + 1 - pos] == head[i - pos]);
        } else {
            assert(enc[i + 1 - pos] == 13);
        }
    }
    lemma_line_end_none(buf, pos + 1);
}

/// A header line that arrived whole is found.
proof fn lemma_whole_header(buf: Seq<u8>, pos: int, tag: u8, head: Seq<u8>, tail: Seq<u8>)
    requires
        starts_like(buf, pos, seq![tag] + head + crlf() + tail),
        pos + 1 + head.len() + 2 <= buf.len(),
    ensures
        buf[pos] == tag,
        buf.subrange(pos + 1, pos + 1 + head.len()) == head,
        buf[pos + 1 + head.len()] == 13,
        buf[pos + 1 + head.len() + 1] == 10,
        starts_like(buf, pos + 1 + head.len() + 2, tail),
{
    let enc = seq![tag] + head + crlf() + tail;
    lemma_prefix_bytes(buf, pos, enc);
    assert(buf[pos] == enc[0]);
    assert(buf.subrange(pos + 1, pos + 1 + head.len()) =~= head) by {
        assert forall|i: int| 0 <= i < head.len() implies #[trigger] buf.subrange(pos + 1, pos + 1 + head.len())[i]
            == head[i] by {
            assert(buf[pos + 1 + i] == enc[1 + i]);
        }
    }
    assert(buf[pos + 1 + head.len()] == enc[1 + head.len() as int]);
    assert(buf[pos + 2 + head.len()] == enc[2 + head.len() as int]);
    let p = pos + 1 + head.len() + 2;
    assert(buf.subrange(p, buf.len() as int) =~= tail.take(buf.len() - p)) by {
        assert forall|i: int| 0 <= i < buf.len() - p implies #[trigger] buf.subrange(p, buf.len() as int)[i]
            == tail.take(buf.len() - p)[i] by {
            assert(buf[p + i] == enc[(p + i - pos) as int]);
        }
    }
}

/// The start of an encoded frame, cut anywhere before its end, reads as
/// unfinished.
pub proof fn lemma_prefix_incomplete(buf: Seq<u8>, pos: int, f: FrameView)
    requires
        encodable(f),
        starts_like(buf, pos, encoding(f)),
        buf.len() < pos + encoding(f).len(),
    ensures
        parse_at(buf, pos) == Parsed::Incomplete,
    decreases f, 1nat,
{
    if pos < buf.len() {
        match f {
            FrameView::Simple(s) => {
                let b = encode_utf8(s);
                assert(encoding(f) =~= seq![43u8] + b + crlf() + Seq::<u8>::empty());
                lemma_cut_header(buf, pos, 43u8, b, Seq::empty());
            },
            FrameView::Error(s) => {
                let b = encode_utf8(s);
                assert(encoding(f) =~= seq![45u8] + b + crlf() + Seq::<u8>::empty());
                lemma_cut_header(buf, pos, 45u8, b, Seq::empty());
            },
            FrameView::Integer(n) => {
                let d = signed_decimal(n as int);
                assert(encoding(f) =~= seq![58u8] + d + crlf() + Seq::<u8>::empty());
                crate::decimal::lemma_signed_decimal_roundtrip(n);
                if n < 0 {
                    crate::decimal::lemma_decimal_digits((-(n as int)) as nat);
                    assert(d.drop_first() =~= decimal((-(n as int)) as nat));
                } else {
                    crate::decimal::lemma_decimal_digits(n as nat);
                }
                lemma_digits_no_crlf(d);
                lemma_cut_header(buf, pos, 58u8, d, Seq::empty());
            },
            FrameView::Null => {
                let d = seq![45u8, 49u8];
                assert(encoding(f) =~= seq![36u8] + d + crlf() + Seq::<u8>::empty());
                assert(no_crlf(d));
                lemma_cut_header(buf, pos, 36u8, d, Seq::empty());
            },
            FrameView::Bulk(data) => {
                let n = data.len() as i64;
                let d = decimal(data.len());
                assert(signed_decimal(n as int) == d);
                assert(encoding(f) =~= seq![36u8] + d + crlf() + (data + crlf()));
                crate::decimal::lemma_decimal_digits(data.len());
                lemma_digits_no_crlf(d);
                if buf.len() < pos + 1 + d.len() + 2 {
                    lemma_cut_header(buf, pos, 36u8, d, data + crlf());
                } else {
                    lemma_whole_header(buf, pos, 36u8, d, data + crlf());
                    lemma_int_line(buf, pos + 1, n);
                }
            },
            FrameView::Array(items) => {
                let n = items.len() as i64;
                let d = decimal(items.len());
                assert(signed_decimal(n as int) == d);
                let rest = encodings(items);
                assert(encoding(f) =~= seq![42u8] + d + crlf() + rest);
                crate::decimal::lemma_decimal_digits(items.len());
                lemma_digits_no_crlf(d);
                if buf.len() < pos + 1 + d.len() + 2 {
                    lemma_cut_header(buf, pos, 42u8, d, rest);
                } else {
                    lemma_whole_header(buf, pos, 42u8, d, rest);
                    lemma_int_line(buf, pos + 1, n);
                    lemma_items_prefix_incomplete(buf, pos + 1 + d.len() + 2, items);
                }
            },
        }
    }
}

/// The start of frames encoded one after the other, cut anywhere before
/// their end, reads as unfinished.
pub proof fn lemma_items_prefix_incomplete(buf: Seq<u8>, pos: int, items: Seq<FrameView>)
    requires
        all_encodable(items),
        starts_like(buf, pos, encodings(items)),
        buf.len() < pos + encodings(items).len(),
    ensures
        parse_items(buf, pos, items.len() as int) == ParsedItems::Incomplete,
    decreases items, 0nat,
{
    if items.len() == 0 {
        assert(encodings(items) =~= Seq::<u8>::empty());
    } else if pos < buf.len() {
        lemma_encodings_front(items);
        let e0 = encoding(items[0]);
        let rest = items.drop_first();
        let er = encodings(rest);
        lemma_prefix_bytes(buf, pos, encodings(items));
        assert(decreases_to!(items => items[0]));
        lemma_encoding_nonempty(items[0]);
        if buf.len() < pos + e0.len() {
            assert(starts_like(buf, pos, e0)) by {
                assert(buf.subrange(pos, buf.len() as int) =~= e0.take(buf.len() - pos)) by {
                    assert forall|i: int| 0 <= i < buf.len() - pos implies #[trigger] buf.subrange(
                        pos,
                        buf.len() as int,
                    )[i] == e0.take(buf.len() - pos)[i] by {
                        assert(buf[pos + i] == encodings(items)[i]);
                    }
                }
            }
            lemma_prefix_incomplete(buf, pos, items[0]);
        } else {
            assert(buf.subrange(pos, pos + e0.len()) =~= e0) by {
                assert forall|i: int| 0 <= i < e0.len() implies #[trigger] buf.subrange(pos, pos + e0.len())[i]
                    == e0[i] by {
                    assert(buf[pos + i] == encodings(items)[i]);
                }
            }
            lemma_parse_encoding(buf, pos, items[0]);
            let q = pos + e0.len();
            assert(starts_like(buf, q, er)) by {
                assert(buf.subrange(q, buf.len() as int) =~= er.take(buf.len() - q)) by {
                    assert forall|i: int| 0 <= i < buf.len() - q implies #[trigger] buf.subrange(
                        q,
                        buf.len() as int,
                    )[i] == er.take(buf.len() - q)[i] by {
                        assert(buf[q + i] == encodings(items)[e0.len() + i]);
                    }
                }
            }
            lemma_items_prefix_incomplete(buf, q, rest);
        }
    }
}

/// A decoder fed part of a frame waits for the rest: every proper prefix of
/// an encoding reads as unfinished.
pub proof fn lemma_partial_frame_incomplete(f: FrameView, k: int)
    requires
        encodable(f),
        0 <= k < encoding(f).len(),
    ensures
        parse_at(encoding(f).take(k), 0) == Parsed::Incomplete,
{
    let buf = encoding(f).take(k);
    assert(buf.subrange(0, buf.len() as int) =~= encoding(f).take(k));
    lemma_prefix_incomplete(buf, 0, f);
}

/// Decoding what the encoder wrote gives the frame back and consumes
/// exactly its bytes, whatever follows it.
pub proof fn lemma_decode_encode_roundtrip(f: FrameView, rest: Seq<u8>)
    requires
        encodable(f),
    ensures
        parse_at(encoding(f) + rest, 0) == Parsed::Done(f, encoding(f).len() as int),
{
    let buf = encoding(f) + rest;
    assert(buf.subrange(0, encoding(f).len() as int) =~= encoding(f));
    lemma_parse_encoding(buf, 0, f);
}

} // verus!
