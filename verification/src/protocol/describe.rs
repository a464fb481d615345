//! How a frame reads in a diagnostic: the text that `{:?}` gives for it,
//! with bulk payloads shown as byte-string literals.

use vstd::prelude::*;

use crate::decimal::{append_signed_decimal, signed_decimal};
use crate::protocol::resp::{frame_view, frames_view, lemma_frames_view_index, Frame, FrameView};
use crate::text::{all_ascii, append_ascii, ascii_chars};

verus! {

/// What `{:?}` gives for a string: the text in double quotes, with quotes,
/// backslashes and non-printable characters escaped.
pub uninterp spec fn str_debug(s: Seq<char>) -> Seq<char>;

/// Calls `<str as Debug>::fmt` (through `format!`); the escaping rules are
/// left to the name `str_debug`.
#[verifier::external_body]
fn str_debug_string(s: &str) -> (res: String)
    ensures
        res@ == str_debug(s@),
{
    format!("{:?}", s)
}

/// The lower-case hexadecimal digit of `d` (for `d < 16`).
pub open spec fn hex_digit(d: u8) -> u8 {
    if d < 10 {
        (48 + d) as u8
    } else {
        (87 + d) as u8
    }
}

/// How one byte is written inside a byte-string literal: `\n`, `\r`, `\t`,
/// `\\`, `\"` and `\0` escaped, printable ASCII as itself, anything else as
/// `\xNN`.
pub open spec fn byte_escape(b: u8) -> Seq<u8> {
    if b == 10 {
        seq![92u8, 110u8]
    } else if b == 13 {
        seq![92u8, 114u8]
    } else if b == 9 {
        seq![92u8, 116u8]
    } else if b == 92 || b == 34 {
        seq![92u8, b]
    } else if b == 0 {
        seq![92u8, 48u8]
    } else if 32 <= b < 127 {
        seq![b]
    } else {
        seq![92u8, 120u8, hex_digit(b / 16), hex_digit(b % 16)]
    }
}

/// The escapes of a byte string, one after the other.
pub open spec fn byte_escapes(d: Seq<u8>) -> Seq<u8>
    decreases d.len(),
{
    if d.len() == 0 {
        Seq::empty()
    } else {
        byte_escapes(d.drop_last()) + byte_escape(d.last())
    }
}

/// A byte string as a literal: `b"..."`.
pub open spec fn bytes_debug(d: Seq<u8>) -> Seq<u8> {
    seq![98u8, 34u8] + byte_escapes(d) + seq![34u8]
}

/// The `{:?}` text of a frame.
pub open spec fn frame_debug(f: FrameView) -> Seq<char>
    decreases f, 1nat,
{
    match f {
        FrameView::Simple(s) => "Simple("@ + str_debug(s) + ")"@,
        FrameView::Error(s) => "Error("@ + str_debug(s) + ")"@,
        FrameView::Integer(n) => "Integer("@ + ascii_chars(signed_decimal(n as int)) + ")"@,
        FrameView::Bulk(d) => "Bulk("@ + ascii_chars(bytes_debug(d)) + ")"@,
        FrameView::Null => "Null"@,
        FrameView::Array(items) => "Array(["@ + frames_debug(items) + "])"@,
    }
}

/// The `{:?}` texts of frames, separated by `, `.
pub open spec fn frames_debug(items: Seq<FrameView>) -> Seq<char>
    decreases items, 0nat,
{
    if items.len() == 0 {
        Seq::empty()
    } else if items.len() == 1 {
        frame_debug(items[0])
    } else {
        frames_debug(items.drop_last()) + ", "@ + frame_debug(items.last())
    }
}

proof fn lemma_byte_escape_ascii(b: u8)
    ensures
        all_ascii(byte_escape(b)),
{
    let e = byte_escape(b);
    if !(b == 10 || b == 13 || b == 9 || b == 92 || b == 34 || b == 0 || (32 <= b < 127)) {
        assert(e[2] < 128);
        assert(e[3] < 128);
    }
}

/// The byte-string literal of `d`, as ASCII bytes.
fn bytes_debug_text(d: &[u8]) -> (res: Vec<u8>)
    ensures
        res@ == bytes_debug(d@),
        all_ascii(res@),
{
    let mut out: Vec<u8> = Vec::new();
    out.push(98);
    out.push(34);
    let mut i: usize = 0;
    while i < d.len()
        invariant
            i <= d@.len(),
            out@ == seq![98u8, 34u8] + byte_escapes(d@.take(i as int)),
            all_ascii(out@),
        decreases d.len() - i,
    {
        let b = d[i];
        let ghost before = out@;
        if b == 10 {
            out.push(92);
            out.push(110);
        } else if b == 13 {
            out.push(92);
            out.push(114);
        } else if b == 9 {
            out.push(92);
            out.push(116);
        } else if b == 92 || b == 34 {
            out.push(92);
            out.push(b);
        } else if b == 0 {
            out.push(92);
            out.push(48);
        } else if 32 <= b && b < 127 {
            out.push(b);
        } else {
            let hi = b / 16;
            let lo = b % 16;
            out.push(92);
            out.push(120);
            out.push(if hi < 10 { 48 + hi } else { 87 + hi });
            out.push(if lo < 10 { 48 + lo } else { 87 + lo });
        }
        proof {
            assert(out@ =~= before + byte_escape(b));
            let t = d@.take(i + 1);
            assert(t.drop_last() =~= d@.take(i as int));
            assert(t.last() == b);
            assert(out@ =~= seq![98u8, 34u8] + byte_escapes(t));
            lemma_byte_escape_ascii(b);
            assert forall|j: int| 0 <= j < out@.len() implies #[trigger] out@[j] < 128 by {
                if j >= before.len() {
                    assert(out@[j] == byte_escape(b)[j - before.len()]);
                }
            }
        }
        i = i + 1;
    }
    out.push(34);
    proof {
        assert(d@.take(d@.len() as int) =~= d@);
        assert(out@ =~= bytes_debug(d@));
    }
    out
}

/// Append the `{:?}` text of a frame to `out`.
pub fn push_frame_debug(out: &mut String, f: &Frame)
    ensures
        final(out)@ == old(out)@ + frame_debug(f@),
    decreases f,
{
    match f {
        Frame::Simple(s) => {
            out.append("Simple(");
            let t = str_debug_string(s.as_str());
            out.append(t.as_str());
            out.append(")");
            assert(out@ =~= old(out)@ + frame_debug(f@));
        },
        Frame::Error(s) => {
            out.append("Error(");
            let t = str_debug_string(s.as_str());
            out.append(t.as_str());
            out.append(")");
            assert(out@ =~= old(out)@ + frame_debug(f@));
        },
        Frame::Integer(n) => {
            out.append("Integer(");
            append_signed_decimal(out, *n);
            out.append(")");
            assert(out@ =~= old(out)@ + frame_debug(f@));
        },
        Frame::Bulk(d) => {
            out.append("Bulk(");
            let t = bytes_debug_text(d.as_slice());
            append_ascii(out, t);
            out.append(")");
            assert(out@ =~= old(out)@ + frame_debug(f@));
        },
        Frame::Null => {
            out.append("Null");
        },
        Frame::Array(items) => {
            out.append("Array([");
            let ghost head = out@;
            let ghost views = frames_view(items@);
            proof {
                lemma_frames_view_index(items@);
                assert(views.take(0) =~= Seq::<FrameView>::empty());
                assert(out@ =~= head + frames_debug(views.take(0)));
            }
            let mut i: usize = 0;
            while i < items.len()
                invariant
                    i <= items@.len(),
                    *f == Frame::Array(*items),
                    views == frames_view(items@),
                    views.len() == items@.len(),
                    forall|j: int| 0 <= j < items@.len() ==> #[trigger] views[j] == frame_view(items@[j]),
                    out@ == head + frames_debug(views.take(i as int)),
                decreases items.len() - i,
            {
                let item = &items[i];
                assert(decreases_to!(*f => *item)) by {
                    assert(decreases_to!(*f => (*f)->Array_0));
                    assert((*f)->Array_0 == *items);
                    assert(decreases_to!(*items => items@));
                    assert(decreases_to!(items@ => items@[i as int]));
                }
                let ghost before = out@;
                if i > 0 {
                    out.append(", ");
                }
                push_frame_debug(out, item);
                proof {
                    let t = views.take(i + 1);
                    assert(t.drop_last() =~= views.take(i as int));
                    assert(t.last() == views[i as int]);
                    if i == 0 {
                        assert(t[0] == views[0]);
                    }
                    assert(out@ =~= head + frames_debug(t));
                }
                i = i + 1;
            }
            proof {
                assert(views.take(items@.len() as int) =~= views);
            }
            out.append("])");
            assert(out@ =~= old(out)@ + frame_debug(f@));
        },
    }
}

} // verus!
