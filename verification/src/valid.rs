//! Every rendering is valid UTF-8.

use vstd::prelude::*;
use vstd::string::StringSliceAdditionalSpecFns;
use vstd::utf8::{
    encode_utf8, encode_utf8_valid_utf8, partial_valid_utf8_extend_ascii_block, valid_utf8, valid_utf8_concat,
};
use crate::decimal::{decimal_text, lemma_digits_are_digits};
use crate::order::{lemma_order_of_first_holds, stable_order};
use crate::repr::{
    concat, entry_line, first_failure, indent_text, is_bare_key, key_label, key_outcomes,
    ordered_outcomes, render, table_lines, texts_of, value_outcomes, Rendered,
};
use crate::value::{RenderConfigView, ValueView};

verus! {

/// Bytes below `0x80` are valid UTF-8.
pub proof fn lemma_ascii_valid(bytes: Seq<u8>)
    requires
        forall|i: int| 0 <= i < bytes.len() ==> bytes[i] < 0x80,
    ensures
        valid_utf8(bytes),
{
    assert(bytes.subrange(0, 0) == Seq::<u8>::empty());
    assert(valid_utf8(bytes.subrange(0, 0)));
    partial_valid_utf8_extend_ascii_block(bytes, 0, bytes.len() as int);
    assert(bytes.subrange(0, bytes.len() as int) == bytes);
}

/// The decimal text of an integer is valid UTF-8.
pub proof fn lemma_decimal_valid(n: int)
    ensures
        valid_utf8(decimal_text(n)),
{
    if n < 0 {
        lemma_digits_are_digits((-n) as nat);
    } else {
        lemma_digits_are_digits(n as nat);
    }
    lemma_ascii_valid(decimal_text(n));
}

/// Valid lines make a valid text.
pub proof fn lemma_concat_valid(lines: Seq<Seq<u8>>)
    requires
        forall|j: int| 0 <= j < lines.len() ==> valid_utf8(#[trigger] lines[j]),
    ensures
        valid_utf8(concat(lines)),
    decreases lines.len(),
{
    if lines.len() > 0 {
        lemma_concat_valid(lines.drop_last());
        valid_utf8_concat(concat(lines.drop_last()), lines.last());
    }
}

/// Where there is no failure among `outcomes`, each of them is a text.
pub proof fn lemma_no_failure_means_texts(outcomes: Seq<Rendered>)
    requires
        first_failure(outcomes) is None,
    ensures
        forall|j: int| 0 <= j < outcomes.len() ==> (#[trigger] outcomes[j]) is Ok,
    decreases outcomes.len(),
{
    if outcomes.len() > 0 {
        let rest = outcomes.drop_first();
        lemma_no_failure_means_texts(rest);
        assert forall|j: int| 0 <= j < outcomes.len() implies (#[trigger] outcomes[j]) is Ok by {
            if j > 0 {
                assert(rest[j - 1] == outcomes[j]);
            }
        }
    }
}

/// The line of an entry is valid UTF-8 where its parts are.
pub proof fn lemma_entry_line_valid(indent: Seq<u8>, label: Seq<u8>, value_text: Seq<u8>)
    requires
        valid_utf8(indent),
        valid_utf8(label),
        valid_utf8(value_text),
    ensures
        valid_utf8(entry_line(indent, label, value_text)),
{
    encode_utf8_valid_utf8(" = "@);
    encode_utf8_valid_utf8(",\n"@);
    valid_utf8_concat(indent, label);
    valid_utf8_concat(indent + label, " = ".spec_bytes());
    valid_utf8_concat(indent + label + " = ".spec_bytes(), value_text);
    valid_utf8_concat(indent + label + " = ".spec_bytes() + value_text, ",\n".spec_bytes());
}

/// The label of a key is valid UTF-8 where the text of the key is.
pub proof fn lemma_key_label_valid(key: ValueView, key_text: Seq<u8>)
    requires
        valid_utf8(key_text),
    ensures
        valid_utf8(key_label(key, key_text)),
{
    if !is_bare_key(key) {
        encode_utf8_valid_utf8("["@);
        encode_utf8_valid_utf8("]"@);
        valid_utf8_concat("[".spec_bytes(), key_text);
        valid_utf8_concat("[".spec_bytes() + key_text, "]".spec_bytes());
    }
}

/// The text of a rendering is valid UTF-8.
pub proof fn lemma_render_valid(value: ValueView, config: RenderConfigView)
    ensures
        render(value, config) matches Ok(text) ==> valid_utf8(text),
    decreases value,
{
    match value {
        ValueView::Nil => {
            encode_utf8_valid_utf8("\x1b[3;31mnil\x1b[23;39m"@);
            encode_utf8_valid_utf8("nil"@);
        },
        ValueView::Boolean(b) => {
            encode_utf8_valid_utf8("\x1b[1;32mtrue\x1b[22;39m"@);
            encode_utf8_valid_utf8("\x1b[1;31mfalse\x1b[22;39m"@);
            encode_utf8_valid_utf8("true"@);
            encode_utf8_valid_utf8("false"@);
        },
        ValueView::Integer(n) => {
            lemma_decimal_valid(n);
            lemma_number_valid(decimal_text(n), config.color);
        },
        ValueView::Number(digits) => {
            encode_utf8_valid_utf8(digits);
            lemma_number_valid(encode_utf8(digits), config.color);
        },
        ValueView::Table(entries) => {
            if entries.len() == 0 {
                encode_utf8_valid_utf8("{}"@);
            } else if render(value, config) is Ok {
                let inner = config.descend();
                let keys = key_outcomes(entries, inner);
                let values = value_outcomes(entries, inner);
                let order = stable_order(texts_of(keys));
                let ordered = ordered_outcomes(values, order);
                let indent = indent_text(config.indent_width, config.depth + 1);
                let outer = indent_text(config.indent_width, config.depth);
                let lines = table_lines(entries, texts_of(keys), texts_of(values), order, indent);
                lemma_no_failure_means_texts(keys);
                lemma_no_failure_means_texts(ordered);
                lemma_order_of_first_holds(texts_of(keys), texts_of(keys).len());
                lemma_ascii_valid(indent);
                lemma_ascii_valid(outer);
                assert forall|j: int| 0 <= j < lines.len() implies valid_utf8(
                    #[trigger] lines[j],
                ) by {
                    let at = order[j];
                    assert(order.contains(at));
                    assert(0 <= at < entries.len());
                    assert(ordered[j] is Ok);
                    assert(keys[at] is Ok);
                    lemma_render_valid(entries[at].0, inner);
                    lemma_render_valid(entries[at].1, inner);
                    lemma_key_label_valid(entries[at].0, texts_of(keys)[at]);
                    lemma_entry_line_valid(
                        indent,
                        key_label(entries[at].0, texts_of(keys)[at]),
                        texts_of(values)[at],
                    );
                }
                lemma_concat_valid(lines);
                encode_utf8_valid_utf8("{\n"@);
                encode_utf8_valid_utf8("}"@);
                valid_utf8_concat("{\n".spec_bytes(), concat(lines));
                valid_utf8_concat("{\n".spec_bytes() + concat(lines), outer);
                valid_utf8_concat("{\n".spec_bytes() + concat(lines) + outer, "}".spec_bytes());
            }
        },
        _ => {},
    }
}

/// The text of a number is valid UTF-8 where its decimal text is.
pub proof fn lemma_number_valid(digits: Seq<u8>, color: bool)
    requires
        valid_utf8(digits),
    ensures
        valid_utf8(crate::repr::number_text(digits, color)),
{
    encode_utf8_valid_utf8("\x1b[34m"@);
    encode_utf8_valid_utf8("\x1b[39m"@);
    valid_utf8_concat("\x1b[34m".spec_bytes(), digits);
    valid_utf8_concat("\x1b[34m".spec_bytes() + digits, "\x1b[39m".spec_bytes());
}

} // verus!
