//! Which strings can be rendered: those whose bytes are valid UTF-8 and
//! hold no delete byte.
//!
//! Escaping replaces bytes below `0x80` alone, each by a text of its own,
//! so it keeps the bytes of every longer character where they are. The
//! delete byte is the exception: what stands for it, `E2 90 FF`, is no
//! character.

use vstd::prelude::*;
use vstd::string::StringSliceAdditionalSpecFns;
use vstd::utf8::*;
use crate::escape::{
    escaped_byte, escaped_payload, escaped_text, is_replaced, law_plain_payload,
    lemma_escaped_payload_concat, lemma_escaped_payload_one, string_color_off, string_color_on,
    DELETE, NEWLINE, QUOTE,
};
use crate::repr::string_rendered;
use crate::valid::lemma_ascii_valid;

verus! {

/// The escaped form of a payload begins with what stands for its first
/// byte.
pub proof fn lemma_escaped_payload_front(payload: Seq<u8>, multiline: bool)
    requires
        payload.len() > 0,
    ensures
        escaped_payload(payload, multiline) == escaped_byte(payload[0], multiline)
            + escaped_payload(payload.drop_first(), multiline),
{
    assert(payload == seq![payload[0]] + payload.drop_first());
    lemma_escaped_payload_concat(seq![payload[0]], payload.drop_first(), multiline);
    lemma_escaped_payload_one(payload[0], multiline);
}

/// The control picture of a byte below `0x20` is valid UTF-8.
pub proof fn lemma_picture_valid(byte: u8)
    requires
        byte < 0x20,
    ensures
        valid_utf8(seq![0xe2u8, 0x90u8, (0x80 + byte) as u8]),
{
    let c: u8 = (0x80 + byte) as u8;
    let picture = seq![0xe2u8, 0x90u8, c];
    assert(0x800 <= codepoint_width_3(0xe2u8, 0x90u8, c) && !(0xd800 <= codepoint_width_3(
        0xe2u8,
        0x90u8,
        c,
    ) <= 0xdfff)) by (bit_vector)
        requires
            0x80 <= c <= 0x9f,
    ;
    assert(valid_first_scalar(picture));
    assert(pop_first_scalar(picture) == Seq::<u8>::empty());
    assert(valid_utf8(Seq::<u8>::empty()));
}

/// What stands for a byte below `0x80`, other than the delete byte, is
/// valid UTF-8.
pub proof fn lemma_escaped_byte_valid(byte: u8, multiline: bool)
    requires
        byte < 0x80,
        byte != DELETE,
    ensures
        valid_utf8(escaped_byte(byte, multiline)),
{
    if is_replaced(byte, multiline) {
        lemma_picture_valid(byte);
    } else {
        lemma_ascii_valid(escaped_byte(byte, multiline));
    }
}

/// Where the escaped form of a payload begins with `n` continuation bytes,
/// they are the first `n` bytes of the payload.
pub proof fn lemma_continuation_run(payload: Seq<u8>, multiline: bool, n: nat)
    requires
        n <= escaped_payload(payload, multiline).len(),
        forall|j: int|
            0 <= j < n ==> is_continuation_byte(#[trigger] escaped_payload(payload, multiline)[j]),
    ensures
        n <= payload.len(),
        forall|j: int| 0 <= j < n ==> #[trigger] payload[j] == escaped_payload(payload, multiline)[j],
        escaped_payload(payload, multiline) == payload.subrange(0, n as int) + escaped_payload(
            payload.skip(n as int),
            multiline,
        ),
    decreases n,
{
    let out = escaped_payload(payload, multiline);
    if n == 0 {
        assert(payload.skip(0) == payload);
        assert(payload.subrange(0, 0) + out == out);
    } else {
        let rest = payload.drop_first();
        let tail = escaped_payload(rest, multiline);
        lemma_escaped_payload_front(payload, multiline);
        assert(is_continuation_byte(out[0]));
        assert(escaped_byte(payload[0], multiline) == seq![payload[0]]);
        assert(out == seq![payload[0]] + tail);
        assert forall|j: int| 0 <= j < n - 1 implies is_continuation_byte(#[trigger] tail[j]) by {
            assert(tail[j] == out[j + 1]);
        }
        lemma_continuation_run(rest, multiline, (n - 1) as nat);
        assert forall|j: int| 0 <= j < n implies #[trigger] payload[j] == out[j] by {
            if j > 0 {
                assert(rest[j - 1] == tail[j - 1]);
                assert(tail[j - 1] == out[j]);
            }
        }
        assert(payload.skip(n as int) == rest.skip(n - 1));
        assert(payload.subrange(0, n as int) == seq![payload[0]] + rest.subrange(0, n - 1));
    }
}

/// Where a payload begins with a byte below `0x80` and its escaped form
/// is valid UTF-8, that byte is no delete byte, and the escaped form of the
/// rest is valid UTF-8.
proof fn lemma_low_first(payload: Seq<u8>, multiline: bool)
    requires
        payload.len() > 0,
        payload[0] < 0x80,
        valid_utf8(escaped_payload(payload, multiline)),
    ensures
        payload[0] != DELETE,
        valid_utf8(escaped_payload(payload.drop_first(), multiline)),
{
    let first = payload[0];
    let out = escaped_payload(payload, multiline);
    let tail = escaped_payload(payload.drop_first(), multiline);
    lemma_escaped_payload_front(payload, multiline);
    assert(valid_first_scalar(out));
    assert(valid_utf8(pop_first_scalar(out)));
    if is_replaced(first, multiline) {
        assert(out[0] == 0xe2 && out[1] == 0x90 && out[2] == (0x80 + first) as u8);
        assert(is_continuation_byte(out[2]));
        assert(pop_first_scalar(out) == tail);
    } else if multiline && first == NEWLINE {
        let after = pop_first_scalar(out);
        assert(after == seq![NEWLINE] + tail);
        assert(valid_first_scalar(after));
        assert(pop_first_scalar(after) == tail);
    } else {
        assert(pop_first_scalar(out) == tail);
    }
}

/// Where a payload begins with a byte from `0x80` on and its escaped form
/// is valid UTF-8, the payload begins with a character of `width` bytes,
/// and the escaped form of what follows it is valid UTF-8.
proof fn lemma_high_first(payload: Seq<u8>, multiline: bool) -> (width: int)
    requires
        payload.len() > 0,
        payload[0] >= 0x80,
        valid_utf8(escaped_payload(payload, multiline)),
    ensures
        2 <= width <= 4,
        width <= payload.len(),
        valid_utf8(payload.subrange(0, width)),
        forall|j: int| 0 <= j < width ==> #[trigger] payload[j] >= 0x80,
        valid_utf8(escaped_payload(payload.skip(width), multiline)),
{
    let first = payload[0];
    let rest = payload.drop_first();
    let out = escaped_payload(payload, multiline);
    let tail = escaped_payload(rest, multiline);
    lemma_escaped_payload_front(payload, multiline);
    assert(out == seq![first] + tail);
    assert(valid_first_scalar(out));
    assert(valid_utf8(pop_first_scalar(out)));
    let width = length_of_first_scalar(out);
    assert(2 <= width <= 4);
    assert(width <= out.len());
    assert forall|j: int| 0 <= j < width - 1 implies is_continuation_byte(#[trigger] tail[j]) by {
        assert(tail[j] == out[j + 1]);
    }
    lemma_continuation_run(rest, multiline, (width - 1) as nat);
    let head = payload.subrange(0, width);
    let beyond = payload.skip(width);
    assert(rest.skip(width - 1) == beyond);
    assert(pop_first_scalar(out) == escaped_payload(beyond, multiline));
    assert forall|j: int| 0 <= j < width implies #[trigger] head[j] == out[j] by {
        if j > 0 {
            assert(rest[j - 1] == tail[j - 1]);
            assert(tail[j - 1] == out[j]);
        }
    }
    assert(head[0] == out[0]);
    assert(head[1] == out[1]);
    if width >= 3 {
        assert(head[2] == out[2]);
    }
    if width >= 4 {
        assert(head[3] == out[3]);
    }
    assert(valid_first_scalar(head));
    assert(pop_first_scalar(head) == Seq::<u8>::empty());
    assert(valid_utf8(Seq::<u8>::empty()));
    assert forall|j: int| 0 <= j < width implies #[trigger] payload[j] >= 0x80 by {
        assert(head[j] == payload[j]);
        assert(head[j] == out[j]);
    }
    width
}

/// A payload whose escaped form is valid UTF-8 is valid UTF-8, and holds
/// no delete byte.
pub proof fn lemma_escaped_valid_means_valid(payload: Seq<u8>, multiline: bool)
    requires
        valid_utf8(escaped_payload(payload, multiline)),
    ensures
        valid_utf8(payload),
        forall|i: int| 0 <= i < payload.len() ==> #[trigger] payload[i] != DELETE,
    decreases payload.len(),
{
    if payload.len() > 0 {
        let first = payload[0];
        if first < 0x80 {
            let rest = payload.drop_first();
            lemma_low_first(payload, multiline);
            lemma_escaped_valid_means_valid(rest, multiline);
            lemma_ascii_valid(seq![first]);
            valid_utf8_concat(seq![first], rest);
            assert(seq![first] + rest == payload);
            assert forall|i: int| 0 <= i < payload.len() implies #[trigger] payload[i]
                != DELETE by {
                if i > 0 {
                    assert(rest[i - 1] == payload[i]);
                }
            }
        } else {
            let width = lemma_high_first(payload, multiline);
            let head = payload.subrange(0, width);
            let beyond = payload.skip(width);
            lemma_escaped_valid_means_valid(beyond, multiline);
            valid_utf8_concat(head, beyond);
            assert(head + beyond == payload);
            assert forall|i: int| 0 <= i < payload.len() implies #[trigger] payload[i]
                != DELETE by {
                if i >= width {
                    assert(beyond[i - width] == payload[i]);
                }
            }
        }
    }
}

/// The escaped form of a payload that is valid UTF-8 and holds no delete
/// byte is valid UTF-8.
pub proof fn lemma_valid_means_escaped_valid(payload: Seq<u8>, multiline: bool)
    requires
        valid_utf8(payload),
        forall|i: int| 0 <= i < payload.len() ==> #[trigger] payload[i] != DELETE,
    ensures
        valid_utf8(escaped_payload(payload, multiline)),
    decreases payload.len(),
{
    if payload.len() > 0 {
        let width = length_of_first_scalar(payload);
        let head = payload.subrange(0, width);
        let beyond = pop_first_scalar(payload);
        assert(valid_first_scalar(payload));
        assert(valid_utf8(beyond));
        assert(payload == head + beyond);
        lemma_escaped_payload_concat(head, beyond, multiline);
        assert forall|i: int| 0 <= i < beyond.len() implies #[trigger] beyond[i] != DELETE by {
            assert(beyond[i] == payload[i + width]);
        }
        lemma_valid_means_escaped_valid(beyond, multiline);
        if width == 1 {
            assert(head == seq![payload[0]]);
            lemma_escaped_payload_one(payload[0], multiline);
            lemma_escaped_byte_valid(payload[0], multiline);
        } else {
            assert forall|i: int| 0 <= i < head.len() implies !crate::escape::is_control(
                #[trigger] head[i],
            ) by {
                assert(head[i] == payload[i]);
            }
            law_plain_payload(head, multiline);
            assert(head[0] == payload[0] && head[1] == payload[1]);
            if width >= 3 {
                assert(head[2] == payload[2]);
            }
            if width >= 4 {
                assert(head[3] == payload[3]);
            }
            assert(valid_first_scalar(head));
            assert(pop_first_scalar(head) == Seq::<u8>::empty());
            assert(valid_utf8(Seq::<u8>::empty()));
            assert(valid_utf8(head));
        }
        valid_utf8_concat(escaped_payload(head, multiline), escaped_payload(beyond, multiline));
    }
}

/// A valid text that ends where a byte that continues no character stands
/// in a longer valid text.
proof fn lemma_split_at(bytes: Seq<u8>, index: int)
    requires
        valid_utf8(bytes),
        0 <= index < bytes.len(),
        !is_continuation_byte(bytes[index]),
    ensures
        valid_utf8(bytes.subrange(0, index)),
        valid_utf8(bytes.subrange(index, bytes.len() as int)),
{
    is_char_boundary_iff_not_is_continuation_byte(bytes, index);
    valid_utf8_split(bytes, index);
}

/// The escaped text of a string is valid UTF-8 exactly where its escaped
/// payload is.
pub proof fn lemma_escaped_text_valid(payload: Seq<u8>, color: bool, multiline: bool)
    ensures
        valid_utf8(escaped_text(payload, color, multiline)) <==> valid_utf8(
            escaped_payload(payload, multiline),
        ),
{
    let inner = escaped_payload(payload, multiline);
    let quoted = seq![QUOTE] + inner + seq![QUOTE];
    let text = escaped_text(payload, color, multiline);
    let on = string_color_on();
    let off = string_color_off();
    lemma_ascii_valid(seq![QUOTE]);
    encode_utf8_valid_utf8("\x1b[33m"@);
    encode_utf8_valid_utf8("\x1b[39m"@);
    if valid_utf8(inner) {
        valid_utf8_concat(seq![QUOTE], inner);
        valid_utf8_concat(seq![QUOTE] + inner, seq![QUOTE]);
        if color {
            valid_utf8_concat(on, quoted);
            valid_utf8_concat(on + quoted, off);
        }
    }
    if valid_utf8(text) {
        if color {
            assert(text[on.len() as int] == QUOTE);
            lemma_split_at(text, on.len() as int);
            let from_quote = text.subrange(on.len() as int, text.len() as int);
            assert(from_quote == quoted + off);
            if off.len() > 0 {
                assert(from_quote[quoted.len() as int] == off[0]);
                assert(valid_first_scalar(off));
                assert(!is_continuation_byte(off[0]));
                lemma_split_at(from_quote, quoted.len() as int);
                assert(from_quote.subrange(0, quoted.len() as int) == quoted);
            } else {
                assert(from_quote == quoted);
            }
        }
        assert(valid_utf8(quoted));
        assert(valid_first_scalar(quoted));
        let after = pop_first_scalar(quoted);
        assert(after == inner + seq![QUOTE]);
        assert(after[inner.len() as int] == QUOTE);
        lemma_split_at(after, inner.len() as int);
        assert(after.subrange(0, inner.len() as int) == inner);
    }
}

/// A string is rendered exactly where its bytes are valid UTF-8 and hold
/// no delete byte; else the rendering fails on the encoding.
pub proof fn law_string_rendered(payload: Seq<u8>, color: bool, multiline: bool)
    ensures
        string_rendered(payload, color, multiline) is Ok <==> (valid_utf8(payload)
            && !payload.contains(DELETE)),
        string_rendered(payload, color, multiline) is Err ==> string_rendered(
            payload,
            color,
            multiline,
        ) == Err::<Seq<u8>, crate::value::ReprError>(crate::value::ReprError::Encoding),
{
    lemma_escaped_text_valid(payload, color, multiline);
    if valid_utf8(escaped_payload(payload, multiline)) {
        lemma_escaped_valid_means_valid(payload, multiline);
    }
    if valid_utf8(payload) && !payload.contains(DELETE) {
        lemma_valid_means_escaped_valid(payload, multiline);
    }
}

} // verus!
