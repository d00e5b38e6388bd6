//! The escaper: a string's bytes made safe to display.
//!
//! A control byte is replaced by its control picture, the three bytes
//! `E2 90 (80 + byte)`. A tab is kept as it is. With `multiline` a newline
//! is kept too, after a backslash that marks the continued line.

use vstd::prelude::*;
use vstd::string::StringSliceAdditionalSpecFns;
use vstd::utf8::{encode_utf8, valid_utf8};
use crate::bytes::{append_str, str_from_utf8};
use crate::value::ReprError;

verus! {

pub const TAB: u8 = 0x09;

pub const NEWLINE: u8 = 0x0a;

pub const QUOTE: u8 = 0x22;

pub const BACKSLASH: u8 = 0x5c;

pub const DELETE: u8 = 0x7f;

/// A byte below `0x20`, or `0x7f`.
pub open spec fn is_control(byte: u8) -> bool {
    byte < 0x20 || byte == DELETE
}

/// Whether `byte` is replaced by its control picture.
pub open spec fn is_replaced(byte: u8, multiline: bool) -> bool {
    is_control(byte) && byte != TAB && !(multiline && byte == NEWLINE)
}

/// The control picture of `byte`.
pub open spec fn control_picture(byte: u8) -> Seq<u8>
    recommends
        is_control(byte),
{
    seq![0xe2u8, 0x90u8, (0x80 + byte) as u8]
}

/// What stands for one byte of a string.
pub open spec fn escaped_byte(byte: u8, multiline: bool) -> Seq<u8> {
    if is_replaced(byte, multiline) {
        control_picture(byte)
    } else if multiline && byte == NEWLINE {
        seq![BACKSLASH, NEWLINE]
    } else {
        seq![byte]
    }
}

/// What stands for the bytes of a string, one after the other.
pub open spec fn escaped_payload(payload: Seq<u8>, multiline: bool) -> Seq<u8>
    decreases payload.len(),
{
    if payload.len() == 0 {
        Seq::empty()
    } else {
        escaped_payload(payload.drop_last(), multiline) + escaped_byte(payload.last(), multiline)
    }
}

/// The colour that opens a string.
pub open spec fn string_color_on() -> Seq<u8> {
    "\x1b[33m".spec_bytes()
}

/// The colour that closes a string.
pub open spec fn string_color_off() -> Seq<u8> {
    "\x1b[39m".spec_bytes()
}

/// The escaped string between its quotes, inside its colour where `color`
/// is set.
pub open spec fn escaped_text(payload: Seq<u8>, color: bool, multiline: bool) -> Seq<u8> {
    let quoted = seq![QUOTE] + escaped_payload(payload, multiline) + seq![QUOTE];
    if color {
        string_color_on() + quoted + string_color_off()
    } else {
        quoted
    }
}

/// Appends to `buf` what stands for `byte`.
pub fn push_escaped_byte(buf: &mut Vec<u8>, byte: u8, multiline: bool)
    ensures
        final(buf)@ == old(buf)@ + escaped_byte(byte, multiline),
{
    if (byte < 0x20 && !(multiline && byte == NEWLINE) && byte != TAB) || byte == DELETE {
        buf.push(0xe2);
        buf.push(0x90);
        buf.push(0x80 + byte);
    } else {
        if multiline && byte == NEWLINE {
            buf.push(BACKSLASH);
        }
        buf.push(byte);
    }
    assert(buf@ == old(buf)@ + escaped_byte(byte, multiline));
}

/// The escaped form of `payload`, as bytes.
pub fn escape_bytes(payload: &[u8], color: bool, multiline: bool) -> (text: Vec<u8>)
    ensures
        text@ == escaped_text(payload@, color, multiline),
{
    let mut text: Vec<u8> = Vec::new();
    if color {
        append_str(&mut text, "\x1b[33m");
    }
    text.push(QUOTE);
    let ghost head = text@;
    let mut i: usize = 0;
    while i < payload.len()
        invariant
            i <= payload.len(),
            text@ == head + escaped_payload(payload@.subrange(0, i as int), multiline),
        decreases payload.len() - i,
    {
        push_escaped_byte(&mut text, payload[i], multiline);
        proof {
            let next = payload@.subrange(0, i + 1);
            assert(next.drop_last() == payload@.subrange(0, i as int));
        }
        i = i + 1;
    }
    assert(payload@.subrange(0, i as int) == payload@);
    text.push(QUOTE);
    if color {
        append_str(&mut text, "\x1b[39m");
    }
    assert(text@ == escaped_text(payload@, color, multiline));
    text
}

/// The escaped form of `payload`: its bytes between quotes, each control
/// byte but the tab replaced by its control picture; with `multiline` a
/// newline is kept, behind a backslash.
///
/// It fails where the escaped form is not valid UTF-8: where the payload
/// is not, or holds a delete byte, whose picture is no character.
pub fn escape(payload: &[u8], color: bool, multiline: bool) -> (r: Result<String, ReprError>)
    ensures
        r is Ok <==> valid_utf8(payload@) && !payload@.contains(DELETE),
        r is Ok <==> valid_utf8(escaped_text(payload@, color, multiline)),
        r matches Ok(text) ==> encode_utf8(text@) == escaped_text(payload@, color, multiline),
        r matches Err(e) ==> e == ReprError::Encoding,
{
    let bytes = escape_bytes(payload, color, multiline);
    proof {
        crate::strings::law_string_rendered(payload@, color, multiline);
    }
    match str_from_utf8(bytes.as_slice()) {
        Some(text) => Ok(text.to_owned()),
        None => Err(ReprError::Encoding),
    }
}

/// Escaping goes byte by byte: the escaped form of two payloads, one
/// after the other, is the escaped forms one after the other.
pub proof fn lemma_escaped_payload_concat(a: Seq<u8>, b: Seq<u8>, multiline: bool)
    ensures
        escaped_payload(a + b, multiline) == escaped_payload(a, multiline) + escaped_payload(
            b,
            multiline,
        ),
    decreases b.len(),
{
    if b.len() == 0 {
        assert(a + b == a);
    } else {
        lemma_escaped_payload_concat(a, b.drop_last(), multiline);
        assert((a + b).drop_last() == a + b.drop_last());
        assert((a + b).last() == b.last());
    }
}

/// The escaped form of a single byte.
pub proof fn lemma_escaped_payload_one(byte: u8, multiline: bool)
    ensures
        escaped_payload(seq![byte], multiline) == escaped_byte(byte, multiline),
{
    assert(seq![byte].drop_last() == Seq::<u8>::empty());
    assert(escaped_payload(seq![byte].drop_last(), multiline) == Seq::<u8>::empty());
    assert(Seq::<u8>::empty() + escaped_byte(byte, multiline) == escaped_byte(byte, multiline));
}

/// Where `payload` holds `byte` at `i`, its escaped form holds what stands
/// for `byte`, behind the escaped form of what comes before `i`.
pub proof fn lemma_escaped_byte_occurs(payload: Seq<u8>, i: int, multiline: bool)
    requires
        0 <= i < payload.len(),
    ensures
        ({
            let at = escaped_payload(payload.take(i), multiline).len() as int;
            let width = escaped_byte(payload[i], multiline).len() as int;
            &&& at + width <= escaped_payload(payload, multiline).len()
            &&& escaped_payload(payload, multiline).subrange(at, at + width) == escaped_byte(
                payload[i],
                multiline,
            )
        }),
{
    let head = payload.take(i);
    let tail = payload.skip(i + 1);
    assert(payload == head + seq![payload[i]] + tail);
    lemma_escaped_payload_concat(head + seq![payload[i]], tail, multiline);
    lemma_escaped_payload_concat(head, seq![payload[i]], multiline);
    lemma_escaped_payload_one(payload[i], multiline);
}

/// No byte that is to be replaced stands in the escaped form of a payload.
pub proof fn law_no_raw_control_byte(payload: Seq<u8>, multiline: bool)
    ensures
        forall|k: int|
            0 <= k < escaped_payload(payload, multiline).len() ==> !is_replaced(
                #[trigger] escaped_payload(payload, multiline)[k],
                multiline,
            ),
    decreases payload.len(),
{
    if payload.len() > 0 {
        let head = escaped_payload(payload.drop_last(), multiline);
        let last = escaped_byte(payload.last(), multiline);
        law_no_raw_control_byte(payload.drop_last(), multiline);
        assert forall|k: int| 0 <= k < last.len() implies !is_replaced(
            #[trigger] last[k],
            multiline,
        ) by {
            if is_replaced(payload.last(), multiline) {
                assert(last[2] >= 0x80);
            }
        }
        assert forall|k: int| 0 <= k < (head + last).len() implies !is_replaced(
            #[trigger] (head + last)[k],
            multiline,
        ) by {
            if k >= head.len() {
                assert((head + last)[k] == last[k - head.len()]);
            } else {
                assert((head + last)[k] == head[k]);
            }
        }
    }
}

/// A byte of the payload that is to be replaced stands in the escaped form
/// as its control picture: the three bytes `E2 90 (80 + byte)`.
pub proof fn law_control_byte_pictured(payload: Seq<u8>, i: int, multiline: bool)
    requires
        0 <= i < payload.len(),
        is_replaced(payload[i], multiline),
    ensures
        exists|at: int|
            0 <= at && at + 3 <= escaped_payload(payload, multiline).len() && #[trigger] escaped_payload(
                payload,
                multiline,
            ).subrange(at, at + 3) == seq![0xe2u8, 0x90u8, (0x80 + payload[i]) as u8],
{
    lemma_escaped_byte_occurs(payload, i, multiline);
    let at = escaped_payload(payload.take(i), multiline).len() as int;
    assert(escaped_payload(payload, multiline).subrange(at, at + 3) == control_picture(payload[i]));
}

/// With `multiline` a newline of the payload stands in the escaped form as
/// a backslash and the newline behind it.
pub proof fn law_newline_continued(payload: Seq<u8>, i: int)
    requires
        0 <= i < payload.len(),
        payload[i] == NEWLINE,
    ensures
        exists|at: int|
            0 <= at && at + 2 <= escaped_payload(payload, true).len() && #[trigger] escaped_payload(
                payload,
                true,
            ).subrange(at, at + 2) == seq![BACKSLASH, NEWLINE],
{
    lemma_escaped_byte_occurs(payload, i, true);
    let at = escaped_payload(payload.take(i), true).len() as int;
    assert(escaped_payload(payload, true).subrange(at, at + 2) == seq![BACKSLASH, NEWLINE]);
}

/// A payload without control bytes is its own escaped form.
pub proof fn law_plain_payload(payload: Seq<u8>, multiline: bool)
    requires
        forall|i: int| 0 <= i < payload.len() ==> !is_control(#[trigger] payload[i]),
    ensures
        escaped_payload(payload, multiline) == payload,
    decreases payload.len(),
{
    if payload.len() > 0 {
        law_plain_payload(payload.drop_last(), multiline);
        assert(payload.drop_last() + seq![payload.last()] == payload);
    }
}

/// Without colour, a byte of the payload that is to be replaced does not
/// stand in the escaped text, and its control picture does.
pub proof fn law_control_byte_escaped(payload: Seq<u8>, i: int, multiline: bool)
    requires
        0 <= i < payload.len(),
        is_replaced(payload[i], multiline),
    ensures
        !escaped_text(payload, false, multiline).contains(payload[i]),
        exists|at: int|
            0 <= at && at + 3 <= escaped_text(payload, false, multiline).len()
                && #[trigger] escaped_text(payload, false, multiline).subrange(at, at + 3)
                == seq![0xe2u8, 0x90u8, (0x80 + payload[i]) as u8],
{
    let inner = escaped_payload(payload, multiline);
    let text = escaped_text(payload, false, multiline);
    assert(text.len() == inner.len() + 2);
    assert forall|k: int| 0 <= k < text.len() implies text[k] != payload[i] by {
        law_no_raw_control_byte(payload, multiline);
        if 1 <= k <= inner.len() {
            assert(text[k] == inner[k - 1]);
        }
    }
    law_control_byte_pictured(payload, i, multiline);
    let at = choose|at: int|
        0 <= at && at + 3 <= inner.len() && #[trigger] inner.subrange(at, at + 3)
            == seq![0xe2u8, 0x90u8, (0x80 + payload[i]) as u8];
    assert(text.subrange(at + 1, at + 1 + 3) == inner.subrange(at, at + 3));
}

/// With `multiline` and without colour, a newline of the payload stands in
/// the escaped text behind a backslash.
pub proof fn law_newline_escaped(payload: Seq<u8>, i: int)
    requires
        0 <= i < payload.len(),
        payload[i] == NEWLINE,
    ensures
        exists|at: int|
            0 <= at && at + 2 <= escaped_text(payload, false, true).len() && #[trigger] escaped_text(
                payload,
                false,
                true,
            ).subrange(at, at + 2) == seq![BACKSLASH, NEWLINE],
{
    let inner = escaped_payload(payload, true);
    let text = escaped_text(payload, false, true);
    law_newline_continued(payload, i);
    let at = choose|at: int|
        0 <= at && at + 2 <= inner.len() && #[trigger] inner.subrange(at, at + 2)
            == seq![BACKSLASH, NEWLINE];
    assert(text.subrange(at + 1, at + 1 + 2) == inner.subrange(at, at + 2));
}

} // verus!
