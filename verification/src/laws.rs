//! What holds of every rendering.

use vstd::prelude::*;
use vstd::string::StringSliceAdditionalSpecFns;
use vstd::utf8::{decode_utf8, is_ascii_chars_encode_utf8, valid_utf8, valid_utf8_concat};
use crate::decimal::decimal_text;
use crate::escape::{escaped_text, is_control, law_plain_payload, DELETE, QUOTE};
use crate::names::is_name;
use crate::order::{
    law_order_without_repeats, law_stable_order, law_stable_order_unique,
    insert_last, lemma_lex_le_antisymmetric, lemma_order_of_first_holds, lex_le, order_of_first,
    stable_order,
    stands_before,
};
use crate::strings::law_string_rendered;
use crate::repr::{
    concat, entry_line, indent_text, is_bare_key, is_renderable, key_label, key_outcomes,
    lemma_no_failure,
    ordered_outcomes, render, table_lines, texts_of, value_outcomes,
};
use crate::valid::{lemma_ascii_valid, lemma_no_failure_means_texts};
use crate::value::{Opaque, RenderConfigView, ReprError, ValueView};

verus! {

/// Without colour a boolean is rendered as `true` or as `false`, and
/// nothing more.
pub proof fn law_boolean(b: bool, config: RenderConfigView)
    requires
        !config.color,
    ensures
        render(ValueView::Boolean(b), config) == Ok::<Seq<u8>, ReprError>(
            if b {
                "true".spec_bytes()
            } else {
                "false".spec_bytes()
            },
        ),
{
}

/// The bytes of the literals that are written without colour.
pub proof fn law_literal_bytes()
    ensures
        "true".spec_bytes() == seq![0x74u8, 0x72u8, 0x75u8, 0x65u8],
        "false".spec_bytes() == seq![0x66u8, 0x61u8, 0x6cu8, 0x73u8, 0x65u8],
        "nil".spec_bytes() == seq![0x6eu8, 0x69u8, 0x6cu8],
        "{}".spec_bytes() == seq![0x7bu8, 0x7du8],
{
    reveal_strlit("true");
    reveal_strlit("false");
    reveal_strlit("nil");
    reveal_strlit("{}");
    is_ascii_chars_encode_utf8("true"@);
    is_ascii_chars_encode_utf8("false"@);
    is_ascii_chars_encode_utf8("nil"@);
    is_ascii_chars_encode_utf8("{}"@);
    assert("true".spec_bytes() =~= seq![0x74u8, 0x72u8, 0x75u8, 0x65u8]);
    assert("false".spec_bytes() =~= seq![0x66u8, 0x61u8, 0x6cu8, 0x73u8, 0x65u8]);
    assert("nil".spec_bytes() =~= seq![0x6eu8, 0x69u8, 0x6cu8]);
    assert("{}".spec_bytes() =~= seq![0x7bu8, 0x7du8]);
}

/// Without colour nil is rendered as `nil`.
pub proof fn law_nil(config: RenderConfigView)
    requires
        !config.color,
    ensures
        render(ValueView::Nil, config) == Ok::<Seq<u8>, ReprError>("nil".spec_bytes()),
{
}

/// Without colour an integer is rendered as its decimal text, and nothing
/// more.
pub proof fn law_integer(n: int, config: RenderConfigView)
    requires
        !config.color,
    ensures
        render(ValueView::Integer(n), config) == Ok::<Seq<u8>, ReprError>(decimal_text(n)),
{
}

/// Without colour a string without control bytes is rendered as its bytes
/// between two quotes, where those bytes are valid UTF-8. Where they are
/// not, the rendering fails.
pub proof fn law_plain_string(payload: Seq<u8>, config: RenderConfigView)
    requires
        !config.color,
        forall|i: int| 0 <= i < payload.len() ==> !is_control(#[trigger] payload[i]),
    ensures
        escaped_text(payload, false, config.multiline) == seq![QUOTE] + payload + seq![QUOTE],
        valid_utf8(payload) ==> render(ValueView::Text(payload), config) == Ok::<
            Seq<u8>,
            ReprError,
        >(seq![QUOTE] + payload + seq![QUOTE]),
{
    law_plain_payload(payload, config.multiline);
    if valid_utf8(payload) {
        lemma_ascii_valid(seq![QUOTE]);
        valid_utf8_concat(seq![QUOTE], payload);
        valid_utf8_concat(seq![QUOTE] + payload, seq![QUOTE]);
    }
}

/// A table without entries is rendered as `{}`, whatever the settings.
pub proof fn law_empty_table(config: RenderConfigView)
    ensures
        render(ValueView::Table(Seq::empty()), config) == Ok::<Seq<u8>, ReprError>(
            "{}".spec_bytes(),
        ),
{
}

/// A function, a thread and the two kinds of user data are not rendered:
/// the rendering fails, and names the kind.
pub proof fn law_opaque_fails(config: RenderConfigView)
    ensures
        render(ValueView::Function, config) == Err::<Seq<u8>, ReprError>(
            ReprError::Unsupported(Opaque::Function),
        ),
        render(ValueView::Thread, config) == Err::<Seq<u8>, ReprError>(
            ReprError::Unsupported(Opaque::Thread),
        ),
        render(ValueView::UserData, config) == Err::<Seq<u8>, ReprError>(
            ReprError::Unsupported(Opaque::UserData),
        ),
        render(ValueView::LightUserData, config) == Err::<Seq<u8>, ReprError>(
            ReprError::Unsupported(Opaque::LightUserData),
        ),
        render(ValueView::Other, config) == Err::<Seq<u8>, ReprError>(ReprError::Unrepresentable),
{
}

/// A key that is no name is written as its rendered text in square
/// brackets; a key that is a name is written as it is.
pub proof fn law_key_label(key: ValueView, key_text: Seq<u8>)
    ensures
        !is_bare_key(key) ==> key_label(key, key_text) == "[".spec_bytes() + key_text
            + "]".spec_bytes(),
        is_bare_key(key) ==> key_label(key, key_text) == key->Text_0,
        !(key is Text) ==> !is_bare_key(key),
{
}

/// A table with one entry is rendered as an opening brace, the line of
/// the entry, and the closing brace: the line indented one level deeper
/// than the table, the brace as deep as the table.
pub proof fn law_single_entry(
    key: ValueView,
    value: ValueView,
    key_text: Seq<u8>,
    value_text: Seq<u8>,
    config: RenderConfigView,
)
    requires
        render(key, config.descend()) == Ok::<Seq<u8>, ReprError>(key_text),
        render(value, config.descend()) == Ok::<Seq<u8>, ReprError>(value_text),
    ensures
        render(ValueView::Table(seq![(key, value)]), config) == Ok::<Seq<u8>, ReprError>(
            "{\n".spec_bytes() + entry_line(
                indent_text(config.indent_width, config.depth + 1),
                key_label(key, key_text),
                value_text,
            ) + indent_text(config.indent_width, config.depth) + "}".spec_bytes(),
        ),
{
    let entries = seq![(key, value)];
    let keys = key_outcomes(entries, config.descend());
    let values = value_outcomes(entries, config.descend());
    let indent = indent_text(config.indent_width, config.depth + 1);
    lemma_no_failure(keys);
    assert(order_of_first(texts_of(keys), 0) == Seq::<int>::empty());
    assert(order_of_first(texts_of(keys), 1) == seq![0int]) by {
        reveal_with_fuel(order_of_first, 2);
    }
    let order = stable_order(texts_of(keys));
    assert(order == seq![0int]);
    lemma_no_failure(ordered_outcomes(values, order));
    let lines = table_lines(entries, texts_of(keys), texts_of(values), order, indent);
    let line = entry_line(indent, key_label(key, key_text), value_text);
    assert(lines == seq![line]);
    assert(lines.drop_last() == Seq::<Seq<u8>>::empty());
    assert(concat(lines.drop_last()) == Seq::<u8>::empty());
    assert(concat(lines) == line);
}

/// A value is rendered exactly where it can be rendered, whatever the
/// settings.
pub proof fn law_render_succeeds(value: ValueView, config: RenderConfigView)
    ensures
        render(value, config) is Ok <==> is_renderable(value),
    decreases value,
{
    match value {
        ValueView::Text(payload) => {
            law_string_rendered(payload, config.color, config.multiline);
        },
        ValueView::Table(entries) => {
            if entries.len() > 0 {
                let inner = config.descend();
                let keys = key_outcomes(entries, inner);
                let values = value_outcomes(entries, inner);
                assert forall|i: int| 0 <= i < entries.len() implies (keys[i] is Ok
                    <==> is_renderable(entries[i].0)) && (values[i] is Ok <==> is_renderable(
                    entries[i].1,
                )) by {
                    law_render_succeeds(entries[i].0, inner);
                    law_render_succeeds(entries[i].1, inner);
                }
                if is_renderable(value) {
                    assert forall|i: int| 0 <= i < keys.len() implies keys[i] is Ok by {
                        assert(is_renderable(entries[i].0));
                    }
                    lemma_no_failure(keys);
                    let order = stable_order(texts_of(keys));
                    let ordered = ordered_outcomes(values, order);
                    lemma_order_of_first_holds(texts_of(keys), texts_of(keys).len());
                    assert forall|j: int| 0 <= j < ordered.len() implies ordered[j] is Ok by {
                        assert(order.contains(order[j]));
                        assert(is_renderable(entries[order[j]].1));
                    }
                    lemma_no_failure(ordered);
                }
                if render(value, config) is Ok {
                    let order = stable_order(texts_of(keys));
                    let ordered = ordered_outcomes(values, order);
                    lemma_no_failure_means_texts(keys);
                    lemma_no_failure_means_texts(ordered);
                    lemma_order_of_first_holds(texts_of(keys), texts_of(keys).len());
                    assert forall|i: int| 0 <= i < entries.len() implies is_renderable(
                        (#[trigger] entries[i]).0,
                    ) && is_renderable(entries[i].1) by {
                        assert(keys[i] is Ok);
                        assert(order.contains(i));
                        let j = choose|j: int| 0 <= j < order.len() && order[j] == i;
                        assert(ordered[j] is Ok);
                    }
                }
            }
        },
        _ => {},
    }
}

/// A key that is rendered is written bare exactly where it is a string
/// whose text is a name.
pub proof fn law_bare_key_of_rendered(key: ValueView, config: RenderConfigView)
    requires
        render(key, config) is Ok,
    ensures
        is_bare_key(key) <==> (key matches ValueView::Text(payload) && is_name(
            decode_utf8(payload),
        )),
{
    if let ValueView::Text(payload) = key {
        law_string_rendered(payload, config.color, config.multiline);
    }
}

/// A table with two entries is rendered with the entry first whose key has
/// the text that comes first; where the two texts are equal, with the
/// entry first that was given first.
pub proof fn law_two_entries(
    first: (ValueView, ValueView),
    second: (ValueView, ValueView),
    first_texts: (Seq<u8>, Seq<u8>),
    second_texts: (Seq<u8>, Seq<u8>),
    config: RenderConfigView,
)
    requires
        render(first.0, config.descend()) == Ok::<Seq<u8>, ReprError>(first_texts.0),
        render(first.1, config.descend()) == Ok::<Seq<u8>, ReprError>(first_texts.1),
        render(second.0, config.descend()) == Ok::<Seq<u8>, ReprError>(second_texts.0),
        render(second.1, config.descend()) == Ok::<Seq<u8>, ReprError>(second_texts.1),
    ensures
        ({
            let indent = indent_text(config.indent_width, config.depth + 1);
            let outer = indent_text(config.indent_width, config.depth);
            let first_line = entry_line(indent, key_label(first.0, first_texts.0), first_texts.1);
            let second_line = entry_line(
                indent,
                key_label(second.0, second_texts.0),
                second_texts.1,
            );
            render(ValueView::Table(seq![first, second]), config) == Ok::<Seq<u8>, ReprError>(
                if lex_le(first_texts.0, second_texts.0) {
                    "{\n".spec_bytes() + (first_line + second_line) + outer + "}".spec_bytes()
                } else {
                    "{\n".spec_bytes() + (second_line + first_line) + outer + "}".spec_bytes()
                },
            )
        }),
{
    let entries = seq![first, second];
    let keys = key_outcomes(entries, config.descend());
    let values = value_outcomes(entries, config.descend());
    let texts = texts_of(keys);
    let indent = indent_text(config.indent_width, config.depth + 1);
    lemma_no_failure(keys);
    assert(order_of_first(texts, 0) == Seq::<int>::empty());
    assert(order_of_first(texts, 1) == seq![0int]) by {
        reveal_with_fuel(order_of_first, 2);
    }
    assert(seq![0int].drop_last() == Seq::<int>::empty());
    assert(insert_last(texts, Seq::<int>::empty(), 1) == seq![1int]);
    let order = stable_order(texts);
    assert(order == insert_last(texts, seq![0int], 1)) by {
        reveal_with_fuel(order_of_first, 3);
    }
    let lines = table_lines(entries, texts, texts_of(values), order, indent);
    let first_line = entry_line(indent, key_label(first.0, first_texts.0), first_texts.1);
    let second_line = entry_line(indent, key_label(second.0, second_texts.0), second_texts.1);
    if lex_le(first_texts.0, second_texts.0) {
        assert(order == seq![0int, 1int]);
        assert(lines == seq![first_line, second_line]);
    } else {
        assert(order == seq![1int, 0int]);
        assert(lines == seq![second_line, first_line]);
    }
    lemma_no_failure(ordered_outcomes(values, order));
    assert(lines.drop_last().drop_last() == Seq::<Seq<u8>>::empty());
    assert(concat(lines.drop_last().drop_last()) == Seq::<u8>::empty());
    assert(concat(lines.drop_last()) == lines[0]);
    assert(concat(lines) == lines[0] + lines[1]);
}

/// Whether `forth` and `back` number the same `n` things in two orders:
/// each leads from one numbering to the other.
pub open spec fn is_renumbering(forth: Seq<int>, back: Seq<int>, n: nat) -> bool {
    &&& forth.len() == n
    &&& back.len() == n
    &&& forall|i: int| 0 <= i < n ==> 0 <= #[trigger] forth[i] < n && back[forth[i]] == i
    &&& forall|i: int| 0 <= i < n ==> 0 <= #[trigger] back[i] < n && forth[back[i]] == i
}

/// `entries` in another order: at `i` stands the entry `forth[i]`.
pub open spec fn reordered(entries: Seq<(ValueView, ValueView)>, forth: Seq<int>) -> Seq<
    (ValueView, ValueView),
> {
    Seq::new(entries.len(), |i: int| entries[forth[i]])
}

/// The order in which the entries of a table are given does not change
/// whether the table is rendered.
pub proof fn law_order_of_entries_and_success(
    entries: Seq<(ValueView, ValueView)>,
    forth: Seq<int>,
    back: Seq<int>,
    config: RenderConfigView,
)
    requires
        is_renumbering(forth, back, entries.len()),
    ensures
        render(ValueView::Table(reordered(entries, forth)), config) is Ok <==> render(
            ValueView::Table(entries),
            config,
        ) is Ok,
{
    let other = reordered(entries, forth);
    law_render_succeeds(ValueView::Table(entries), config);
    law_render_succeeds(ValueView::Table(other), config);
    if is_renderable(ValueView::Table(entries)) {
        assert forall|i: int| 0 <= i < other.len() implies is_renderable((#[trigger] other[i]).0)
            && is_renderable(other[i].1) by {
            assert(is_renderable(entries[forth[i]].0));
        }
    }
    if is_renderable(ValueView::Table(other)) {
        assert forall|i: int| 0 <= i < entries.len() implies is_renderable(
            (#[trigger] entries[i]).0,
        ) && is_renderable(entries[i].1) by {
            assert(other[back[i]] == entries[i]);
            assert(is_renderable(other[back[i]].0));
        }
    }
}

/// Where no two keys of a table have the same text, the order in which the
/// entries are given does not change the text of the table.
pub proof fn law_order_of_entries(
    entries: Seq<(ValueView, ValueView)>,
    forth: Seq<int>,
    back: Seq<int>,
    config: RenderConfigView,
)
    requires
        is_renumbering(forth, back, entries.len()),
        render(ValueView::Table(entries), config) is Ok,
        forall|i: int, k: int|
            0 <= i < k < entries.len() ==> render(
                (#[trigger] entries[i]).0,
                config.descend(),
            ) != render((#[trigger] entries[k]).0, config.descend()),
    ensures
        render(ValueView::Table(reordered(entries, forth)), config) == render(
            ValueView::Table(entries),
            config,
        ),
{
    let n = entries.len();
    if n > 0 {
        let other = reordered(entries, forth);
        let inner = config.descend();
        let keys = key_outcomes(entries, inner);
        let values = value_outcomes(entries, inner);
        let texts = texts_of(keys);
        let order = stable_order(texts);
        let ordered = ordered_outcomes(values, order);
        let other_keys = key_outcomes(other, inner);
        let other_values = value_outcomes(other, inner);
        let other_texts = texts_of(other_keys);
        let other_order = stable_order(other_texts);
        let other_ordered = ordered_outcomes(other_values, other_order);

        lemma_no_failure_means_texts(keys);
        lemma_no_failure_means_texts(ordered);
        law_stable_order(texts);
        law_stable_order(other_texts);

        assert forall|i: int| 0 <= i < n implies #[trigger] other_keys[i] == keys[forth[i]]
            && other_values[i] == values[forth[i]] && other_texts[i] == texts[forth[i]] by {
            assert(other[i] == entries[forth[i]]);
        }
        assert forall|i: int| 0 <= i < n implies (#[trigger] other_keys[i]) is Ok by {
            assert(other_keys[i] == keys[forth[i]]);
        }
        lemma_no_failure(other_keys);

        // The other order, numbered as the entries are, is an order of the
        // entries: so it is their order.
        let led = Seq::new(n, |j: int| forth[other_order[j]]);
        assert forall|j: int| 0 <= j < n implies 0 <= #[trigger] other_order[j] < n by {
            assert(other_order.contains(other_order[j]));
        }
        assert forall|x: int| 0 <= x < n <==> #[trigger] led.contains(x) by {
            if 0 <= x < n {
                assert(other_order.contains(back[x]));
                let j = choose|j: int| 0 <= j < other_order.len() && other_order[j] == back[x];
                assert(led[j] == x);
            }
            if led.contains(x) {
                let j = choose|j: int| 0 <= j < led.len() && led[j] == x;
                assert(led[j] == forth[other_order[j]]);
            }
        }
        assert forall|p: int, q: int| 0 <= p < q < led.len() implies stands_before(
            texts,
            #[trigger] led[p],
            #[trigger] led[q],
        ) by {
            let a = other_order[p];
            let b = other_order[q];
            assert(stands_before(other_texts, a, b));
            assert(other_texts[a] == texts[forth[a]]);
            assert(other_texts[b] == texts[forth[b]]);
            if lex_le(texts[forth[b]], texts[forth[a]]) {
                lemma_lex_le_antisymmetric(texts[forth[a]], texts[forth[b]]);
                law_order_without_repeats(other_texts, other_order, p, q);
                assert(back[forth[a]] == a && back[forth[b]] == b);
                assert(forth[a] != forth[b]);
                assert(keys[forth[a]] is Ok && keys[forth[b]] is Ok);
                if forth[a] < forth[b] {
                    assert(render(entries[forth[a]].0, inner) != render(
                        entries[forth[b]].0,
                        inner,
                    ));
                } else {
                    assert(render(entries[forth[b]].0, inner) != render(
                        entries[forth[a]].0,
                        inner,
                    ));
                }
            }
        }
        law_stable_order_unique(texts, led);
        assert forall|j: int| 0 <= j < n implies #[trigger] order[j] == forth[other_order[j]] by {
            assert(led[j] == forth[other_order[j]]);
        }

        assert(other_ordered =~= ordered) by {
            assert forall|j: int| 0 <= j < n implies other_ordered[j] == ordered[j] by {
                assert(other_values[other_order[j]] == values[forth[other_order[j]]]);
            }
        }
        let indent = indent_text(config.indent_width, config.depth + 1);
        let lines = table_lines(entries, texts, texts_of(values), order, indent);
        let other_lines = table_lines(
            other,
            other_texts,
            texts_of(other_values),
            other_order,
            indent,
        );
        assert(other_lines =~= lines) by {
            assert forall|j: int| 0 <= j < n implies other_lines[j] == lines[j] by {
                let a = other_order[j];
                assert(order[j] == forth[a]);
                assert(other[a] == entries[forth[a]]);
                assert(other_texts[a] == texts[forth[a]]);
                assert(other_values[a] == values[forth[a]]);
            }
        }
    } else {
        assert(reordered(entries, forth) =~= entries);
    }
}

} // verus!
