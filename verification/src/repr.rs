//! The rendering of a value.

use vstd::prelude::*;
use vstd::string::StringSliceAdditionalSpecFns;
use vstd::utf8::{decode_utf8, encode_utf8, valid_utf8};
use crate::bytes::{append_bytes, append_str, str_from_utf8};
use crate::decimal::{decimal_text, format_integer};
use crate::escape::{escape_bytes, escaped_text, DELETE};
use crate::names::{is_name, NameTest};
use crate::order::{indices, stable_order, texts_model};
use crate::sort::sort_by_text;
use crate::value::{
    lemma_table_view, Opaque, RenderConfig, RenderConfigView, ReprError, Value, ValueView,
};

verus! {

/// The outcome of a rendering: the bytes of the text, or the reason why
/// there is none.
pub type Rendered = Result<Seq<u8>, ReprError>;

/// The model of what a rendering function returns.
pub open spec fn rendered_view(r: Result<Vec<u8>, ReprError>) -> Rendered {
    match r {
        Ok(text) => Ok(text@),
        Err(e) => Err(e),
    }
}

/// The text of nil.
pub open spec fn nil_text(color: bool) -> Seq<u8> {
    if color {
        "\x1b[3;31mnil\x1b[23;39m".spec_bytes()
    } else {
        "nil".spec_bytes()
    }
}

/// The text of a boolean.
pub open spec fn boolean_text(b: bool, color: bool) -> Seq<u8> {
    if color {
        if b {
            "\x1b[1;32mtrue\x1b[22;39m".spec_bytes()
        } else {
            "\x1b[1;31mfalse\x1b[22;39m".spec_bytes()
        }
    } else if b {
        "true".spec_bytes()
    } else {
        "false".spec_bytes()
    }
}

/// The text of a number whose decimal text is `digits`.
pub open spec fn number_text(digits: Seq<u8>, color: bool) -> Seq<u8> {
    if color {
        "\x1b[34m".spec_bytes() + digits + "\x1b[39m".spec_bytes()
    } else {
        digits
    }
}

/// The outcome for a string: its escaped text, where that is valid UTF-8.
pub open spec fn string_rendered(payload: Seq<u8>, color: bool, multiline: bool) -> Rendered {
    let text = escaped_text(payload, color, multiline);
    if valid_utf8(text) {
        Ok(text)
    } else {
        Err(ReprError::Encoding)
    }
}

/// The indentation at `depth`: `width` spaces at depth one, nothing at any
/// other depth.
pub open spec fn indent_text(width: nat, depth: nat) -> Seq<u8> {
    if depth == 1 {
        Seq::new(width, |i: int| 0x20u8)
    } else {
        Seq::empty()
    }
}

/// The text of a table without entries.
pub open spec fn empty_table_text() -> Seq<u8> {
    "{}".spec_bytes()
}

/// Whether `key` is written bare: a string whose bytes are the UTF-8 text
/// of a name.
pub open spec fn is_bare_key(key: ValueView) -> bool {
    key matches ValueView::Text(payload) && valid_utf8(payload) && is_name(decode_utf8(payload))
}

/// What stands for a key at the head of its line: the key itself where it
/// is written bare, else its rendered text in square brackets.
pub open spec fn key_label(key: ValueView, key_text: Seq<u8>) -> Seq<u8> {
    if is_bare_key(key) {
        key->Text_0
    } else {
        "[".spec_bytes() + key_text + "]".spec_bytes()
    }
}

/// The line of one entry.
pub open spec fn entry_line(indent: Seq<u8>, label: Seq<u8>, value_text: Seq<u8>) -> Seq<u8> {
    indent + label + " = ".spec_bytes() + value_text + ",\n".spec_bytes()
}

/// The first failure among `outcomes`, if there is one.
pub open spec fn first_failure(outcomes: Seq<Rendered>) -> Option<ReprError>
    decreases outcomes.len(),
{
    if outcomes.len() == 0 {
        None
    } else {
        match outcomes[0] {
            Err(e) => Some(e),
            Ok(_) => first_failure(outcomes.drop_first()),
        }
    }
}

/// The texts of `outcomes`, where none of them is a failure.
pub open spec fn texts_of(outcomes: Seq<Rendered>) -> Seq<Seq<u8>> {
    Seq::new(outcomes.len(), |i: int| outcomes[i]->Ok_0)
}

/// `lines`, one after the other.
pub open spec fn concat(lines: Seq<Seq<u8>>) -> Seq<u8>
    decreases lines.len(),
{
    if lines.len() == 0 {
        Seq::empty()
    } else {
        concat(lines.drop_last()) + lines.last()
    }
}

/// The lines of a table: for each index of `order` the line of the entry
/// with that index, indented by `indent`.
pub open spec fn table_lines(
    entries: Seq<(ValueView, ValueView)>,
    key_texts: Seq<Seq<u8>>,
    value_texts: Seq<Seq<u8>>,
    order: Seq<int>,
    indent: Seq<u8>,
) -> Seq<Seq<u8>> {
    Seq::new(
        order.len(),
        |j: int|
            entry_line(
                indent,
                key_label(entries[order[j]].0, key_texts[order[j]]),
                value_texts[order[j]],
            ),
    )
}

/// The outcomes in `values` in the order `order`.
pub open spec fn ordered_outcomes(values: Seq<Rendered>, order: Seq<int>) -> Seq<Rendered> {
    Seq::new(order.len(), |j: int| values[order[j]])
}

/// The outcome for a table with the entries `entries`, where `keys` and
/// `values` are the outcomes for each entry's key and value.
///
/// A key that fails makes the table fail, the first one in the order of
/// the entries. The entries are then put in the order of their keys' texts,
/// and a value that fails makes the table fail, the first one in that
/// order. Else the text is an opening brace, a line for each entry, and the
/// closing brace behind the indentation of the table's own depth.
pub open spec fn table_rendered(
    entries: Seq<(ValueView, ValueView)>,
    keys: Seq<Rendered>,
    values: Seq<Rendered>,
    config: RenderConfigView,
) -> Rendered {
    match first_failure(keys) {
        Some(e) => Err(e),
        None => {
            let order = stable_order(texts_of(keys));
            match first_failure(ordered_outcomes(values, order)) {
                Some(e) => Err(e),
                None => Ok(
                    "{\n".spec_bytes() + concat(
                        table_lines(
                            entries,
                            texts_of(keys),
                            texts_of(values),
                            order,
                            indent_text(config.indent_width, config.depth + 1),
                        ),
                    ) + indent_text(config.indent_width, config.depth) + "}".spec_bytes(),
                ),
            }
        },
    }
}

/// The outcome of rendering `value` with `config`.
///
/// What stands inside a table is rendered one level deeper than the table.
pub open spec fn render(value: ValueView, config: RenderConfigView) -> Rendered
    decreases value, 0nat,
{
    match value {
        ValueView::Nil => Ok(nil_text(config.color)),
        ValueView::Boolean(b) => Ok(boolean_text(b, config.color)),
        ValueView::Integer(n) => Ok(number_text(decimal_text(n), config.color)),
        ValueView::Number(digits) => Ok(number_text(encode_utf8(digits), config.color)),
        ValueView::Text(payload) => string_rendered(payload, config.color, config.multiline),
        ValueView::Function => Err(ReprError::Unsupported(Opaque::Function)),
        ValueView::Thread => Err(ReprError::Unsupported(Opaque::Thread)),
        ValueView::UserData => Err(ReprError::Unsupported(Opaque::UserData)),
        ValueView::LightUserData => Err(ReprError::Unsupported(Opaque::LightUserData)),
        ValueView::Other => Err(ReprError::Unrepresentable),
        ValueView::Table(entries) => {
            if entries.len() == 0 {
                Ok(empty_table_text())
            } else {
                table_rendered(
                    entries,
                    key_outcomes(entries, config.descend()),
                    value_outcomes(entries, config.descend()),
                    config,
                )
            }
        },
    }
}

/// Whether `value` can be rendered: it is nil, a boolean, a number, a
/// string whose bytes are valid UTF-8 without a delete byte, or a table of
/// keys and values that can be rendered.
pub open spec fn is_renderable(value: ValueView) -> bool
    decreases value,
{
    match value {
        ValueView::Nil => true,
        ValueView::Boolean(_) => true,
        ValueView::Integer(_) => true,
        ValueView::Number(_) => true,
        ValueView::Text(payload) => valid_utf8(payload) && !payload.contains(DELETE),
        ValueView::Table(entries) => forall|i: int|
            0 <= i < entries.len() ==> is_renderable((#[trigger] entries[i]).0) && is_renderable(
                entries[i].1,
            ),
        _ => false,
    }
}

/// The outcome of rendering the key of each of `entries` with `config`.
pub open spec fn key_outcomes(
    entries: Seq<(ValueView, ValueView)>,
    config: RenderConfigView,
) -> Seq<Rendered>
    decreases entries, 1nat,
{
    Seq::new(
        entries.len(),
        |i: int|
            if 0 <= i < entries.len() {
                render(entries[i].0, config)
            } else {
                Err(ReprError::Unrepresentable)
            },
    )
}

/// The outcome of rendering the value of each of `entries` with `config`.
pub open spec fn value_outcomes(
    entries: Seq<(ValueView, ValueView)>,
    config: RenderConfigView,
) -> Seq<Rendered>
    decreases entries, 1nat,
{
    Seq::new(
        entries.len(),
        |i: int|
            if 0 <= i < entries.len() {
                render(entries[i].1, config)
            } else {
                Err(ReprError::Unrepresentable)
            },
    )
}

/// The indentation at `depth`.
pub fn get_indent(indent_width: u8, depth: u32) -> (indent: Vec<u8>)
    ensures
        indent@ == indent_text(indent_width as nat, depth as nat),
{
    let mut indent: Vec<u8> = Vec::new();
    if depth == 1 {
        let mut i: u8 = 0;
        while i < indent_width
            invariant
                i <= indent_width,
                indent@ == Seq::new(i as nat, |j: int| 0x20u8),
            decreases indent_width - i,
        {
            indent.push(0x20);
            i = i + 1;
        }
    }
    indent
}

/// The settings for what stands inside a table that is rendered with
/// `config`. At the greatest depth the depth stays: beyond depth one it
/// does not change what is written.
fn descend(config: &RenderConfig) -> (inner: RenderConfig)
    ensures
        inner.color == config.color,
        inner.multiline == config.multiline,
        inner.indent_width == config.indent_width,
        config.depth < u32::MAX ==> inner.depth == config.depth + 1,
        config.depth == u32::MAX ==> inner.depth == u32::MAX,
{
    RenderConfig {
        color: config.color,
        multiline: config.multiline,
        indent_width: config.indent_width,
        depth: if config.depth < u32::MAX {
            config.depth + 1
        } else {
            config.depth
        },
    }
}

/// Where all of `outcomes` before `i` are texts and that at `i` is a
/// failure, it is the first failure.
pub proof fn lemma_first_failure_at(outcomes: Seq<Rendered>, i: int)
    requires
        0 <= i < outcomes.len(),
        outcomes[i] is Err,
        forall|j: int| 0 <= j < i ==> outcomes[j] is Ok,
    ensures
        first_failure(outcomes) == Some(outcomes[i]->Err_0),
    decreases i,
{
    if i > 0 {
        let rest = outcomes.drop_first();
        assert(rest[i - 1] == outcomes[i]);
        assert forall|j: int| 0 <= j < i - 1 implies rest[j] is Ok by {
            assert(rest[j] == outcomes[j + 1]);
        }
        lemma_first_failure_at(rest, i - 1);
    }
}

/// Where all of `outcomes` are texts, there is no failure.
pub proof fn lemma_no_failure(outcomes: Seq<Rendered>)
    requires
        forall|j: int| 0 <= j < outcomes.len() ==> outcomes[j] is Ok,
    ensures
        first_failure(outcomes) is None,
    decreases outcomes.len(),
{
    if outcomes.len() > 0 {
        let rest = outcomes.drop_first();
        assert forall|j: int| 0 <= j < rest.len() implies rest[j] is Ok by {
            assert(rest[j] == outcomes[j + 1]);
        }
        lemma_no_failure(rest);
    }
}

/// Beyond depth one the depth does not change the outcome.
pub proof fn lemma_depth_beyond_one(value: ValueView, a: RenderConfigView, b: RenderConfigView)
    requires
        a.color == b.color,
        a.multiline == b.multiline,
        a.indent_width == b.indent_width,
        a.depth >= 2,
        b.depth >= 2,
    ensures
        render(value, a) == render(value, b),
    decreases value, 0nat,
{
    match value {
        ValueView::Table(entries) => {
            if entries.len() > 0 {
                lemma_entries_beyond_one(entries, a.descend(), b.descend());
            }
        },
        _ => {},
    }
}

/// Beyond depth one the depth does not change the outcomes for the
/// entries of a table.
pub proof fn lemma_entries_beyond_one(
    entries: Seq<(ValueView, ValueView)>,
    a: RenderConfigView,
    b: RenderConfigView,
)
    requires
        a.color == b.color,
        a.multiline == b.multiline,
        a.indent_width == b.indent_width,
        a.depth >= 2,
        b.depth >= 2,
    ensures
        key_outcomes(entries, a) == key_outcomes(entries, b),
        value_outcomes(entries, a) == value_outcomes(entries, b),
    decreases entries, 1nat,
{
    assert forall|i: int| 0 <= i < entries.len() implies key_outcomes(entries, a)[i]
        == key_outcomes(entries, b)[i] && value_outcomes(entries, a)[i] == value_outcomes(
        entries,
        b,
    )[i] by {
        lemma_depth_beyond_one(entries[i].0, a, b);
        lemma_depth_beyond_one(entries[i].1, a, b);
    }
    assert(key_outcomes(entries, a) =~= key_outcomes(entries, b));
    assert(value_outcomes(entries, a) =~= value_outcomes(entries, b));
}

/// The model of the entries of a table.
pub open spec fn entries_view(entries: Vec<(Value, Value)>) -> Seq<(ValueView, ValueView)> {
    Value::Table(entries)@->Table_0
}

/// Renders the key of each of `entries` with `inner`.
fn render_keys(entries: &Vec<(Value, Value)>, inner: &RenderConfig) -> (r: Result<
    Vec<Vec<u8>>,
    ReprError,
>)
    ensures
        match r {
            Ok(texts) => {
                &&& first_failure(key_outcomes(entries_view(*entries), inner@)) is None
                &&& texts_model(texts@) == texts_of(key_outcomes(entries_view(*entries), inner@))
            },
            Err(e) => first_failure(key_outcomes(entries_view(*entries), inner@)) == Some(e),
        },
    decreases entries, 0nat,
{
    let ghost model = entries_view(*entries);
    let ghost keys = key_outcomes(model, inner@);
    proof {
        lemma_table_view(*entries);
    }
    let mut texts: Vec<Vec<u8>> = Vec::new();
    let mut i: usize = 0;
    while i < entries.len()
        invariant
            i <= entries.len(),
            model == entries_view(*entries),
            model.len() == entries@.len(),
            forall|j: int|
                0 <= j < entries@.len() ==> (#[trigger] model[j]) == (
                    entries@[j].0@,
                    entries@[j].1@,
                ),
            keys == key_outcomes(model, inner@),
            texts@.len() == i,
            forall|j: int| 0 <= j < i ==> keys[j] == Ok::<Seq<u8>, ReprError>(texts@[j]@),
        decreases entries.len() - i,
    {
        assert(model[i as int].0 == entries@[i as int].0@);
        match render_bytes(&entries[i].0, inner) {
            Ok(text) => {
                texts.push(text);
            },
            Err(e) => {
                proof {
                    lemma_first_failure_at(keys, i as int);
                }
                return Err(e);
            },
        }
        i = i + 1;
    }
    proof {
        lemma_no_failure(keys);
        assert(texts_model(texts@) =~= texts_of(keys));
    }
    Ok(texts)
}

/// Appends to `text` the line of each of `entries`, in the order `order`,
/// where `key_texts` holds the rendered key of each entry.
fn render_lines(
    text: &mut Vec<u8>,
    entries: &Vec<(Value, Value)>,
    key_texts: &Vec<Vec<u8>>,
    order: &Vec<usize>,
    inner: &RenderConfig,
    indent: &Vec<u8>,
    names: &NameTest,
) -> (r: Result<(), ReprError>)
    requires
        key_texts@.len() == entries@.len(),
        order@.len() == entries@.len(),
        forall|q: int| 0 <= q < order@.len() ==> (#[trigger] order@[q]) < entries@.len(),
    ensures
        match r {
            Ok(_) => {
                &&& first_failure(
                    ordered_outcomes(
                        value_outcomes(entries_view(*entries), inner@),
                        indices(order@),
                    ),
                ) is None
                &&& final(text)@ == old(text)@ + concat(
                    table_lines(
                        entries_view(*entries),
                        texts_model(key_texts@),
                        texts_of(value_outcomes(entries_view(*entries), inner@)),
                        indices(order@),
                        indent@,
                    ),
                )
            },
            Err(e) => first_failure(
                ordered_outcomes(value_outcomes(entries_view(*entries), inner@), indices(order@)),
            ) == Some(e),
        },
    decreases entries, 0nat,
{
    let ghost model = entries_view(*entries);
    let ghost values = value_outcomes(model, inner@);
    let ghost sorted = indices(order@);
    let ghost ordered = ordered_outcomes(values, sorted);
    let ghost lines = table_lines(model, texts_model(key_texts@), texts_of(values), sorted, indent@);
    proof {
        lemma_table_view(*entries);
        assert(lines.take(0) == Seq::<Seq<u8>>::empty());
        assert(old(text)@ + concat(lines.take(0)) == old(text)@);
    }
    let mut j: usize = 0;
    while j < order.len()
        invariant
            j <= order.len(),
            model == entries_view(*entries),
            model.len() == entries@.len(),
            forall|q: int|
                0 <= q < entries@.len() ==> (#[trigger] model[q]) == (
                    entries@[q].0@,
                    entries@[q].1@,
                ),
            key_texts@.len() == entries@.len(),
            order@.len() == entries@.len(),
            forall|q: int| 0 <= q < order@.len() ==> (#[trigger] order@[q]) < entries@.len(),
            values == value_outcomes(model, inner@),
            sorted == indices(order@),
            ordered == ordered_outcomes(values, sorted),
            lines == table_lines(model, texts_model(key_texts@), texts_of(values), sorted, indent@),
            forall|q: int| 0 <= q < j ==> (#[trigger] ordered[q]) is Ok,
            text@ == old(text)@ + concat(lines.take(j as int)),
        decreases order.len() - j,
    {
        let at: usize = order[j];
        assert(sorted[j as int] == at);
        assert(model[at as int] == (entries@[at as int].0@, entries@[at as int].1@));
        let value_text = match render_bytes(&entries[at].1, inner) {
            Ok(value_text) => value_text,
            Err(e) => {
                proof {
                    assert(ordered[j as int] == values[at as int]);
                    lemma_first_failure_at(ordered, j as int);
                }
                return Err(e);
            },
        };
        assert(ordered[j as int] == Ok::<Seq<u8>, ReprError>(value_text@));
        let ghost before = text@;
        append_bytes(text, indent.as_slice());
        push_key_label(text, &entries[at].0, key_texts[at].as_slice(), names);
        append_str(text, " = ");
        append_bytes(text, value_text.as_slice());
        append_str(text, ",\n");
        proof {
            let line = lines[j as int];
            assert(texts_model(key_texts@)[at as int] == key_texts@[at as int]@);
            assert(texts_of(values)[at as int] == value_text@);
            assert(line == entry_line(
                indent@,
                key_label(model[at as int].0, key_texts@[at as int]@),
                value_text@,
            ));
            assert(text@ == before + line);
            assert(lines.take(j + 1).drop_last() == lines.take(j as int));
            assert(lines.take(j + 1).last() == line);
        }
        j = j + 1;
    }
    proof {
        assert(lines.take(j as int) == lines);
        lemma_no_failure(ordered);
    }
    Ok(())
}

/// Renders a table with the entries `entries`.
fn render_table(entries: &Vec<(Value, Value)>, config: &RenderConfig) -> (r: Result<
    Vec<u8>,
    ReprError,
>)
    ensures
        rendered_view(r) == render(Value::Table(*entries)@, config@),
    decreases entries, 1nat,
{
    let mut text: Vec<u8> = Vec::new();
    proof {
        lemma_table_view(*entries);
    }
    if entries.len() == 0 {
        append_str(&mut text, "{}");
        return Ok(text);
    }
    let inner = descend(config);
    let ghost model = entries_view(*entries);
    proof {
        if config.depth == u32::MAX {
            lemma_entries_beyond_one(model, config@.descend(), inner@);
        } else {
            assert(inner@ == config@.descend());
        }
    }
    let key_texts = match render_keys(entries, &inner) {
        Ok(key_texts) => key_texts,
        Err(e) => {
            return Err(e);
        },
    };
    let order = sort_by_text(&key_texts);
    let names = NameTest::new();
    let indent = get_indent(config.indent_width, inner.depth);
    let outer = get_indent(config.indent_width, config.depth);
    append_str(&mut text, "{\n");
    match render_lines(&mut text, entries, &key_texts, &order, &inner, &indent, &names) {
        Ok(_) => {},
        Err(e) => {
            return Err(e);
        },
    }
    append_bytes(&mut text, outer.as_slice());
    append_str(&mut text, "}");
    Ok(text)
}

/// Appends to `buf` what stands for `key` at the head of its line, where
/// `key_text` is the rendered text of `key`.
fn push_key_label(buf: &mut Vec<u8>, key: &Value, key_text: &[u8], names: &NameTest)
    ensures
        final(buf)@ == old(buf)@ + key_label(key@, key_text@),
{
    broadcast use vstd::utf8::encode_utf8_decode_utf8;

    let mut bare: bool = false;
    if let Value::Text(payload) = key {
        if let Some(name) = str_from_utf8(payload.as_slice()) {
            assert(decode_utf8(payload@) == name@);
            bare = names.is_name(name);
        }
        if bare {
            append_bytes(buf, payload.as_slice());
        }
    }
    if !bare {
        append_str(buf, "[");
        append_bytes(buf, key_text);
        append_str(buf, "]");
    }
}

/// Renders `value` with `config`, as bytes.
pub fn render_bytes(value: &Value, config: &RenderConfig) -> (r: Result<Vec<u8>, ReprError>)
    ensures
        rendered_view(r) == render(value@, config@),
        r is Ok <==> is_renderable(value@),
    decreases value, 0nat,
{
    proof {
        crate::laws::law_render_succeeds(value@, config@);
    }
    match value {
        Value::Nil => {
            let mut text: Vec<u8> = Vec::new();
            if config.color {
                append_str(&mut text, "\x1b[3;31mnil\x1b[23;39m");
            } else {
                append_str(&mut text, "nil");
            }
            Ok(text)
        },
        Value::Boolean(b) => {
            let mut text: Vec<u8> = Vec::new();
            if config.color {
                if *b {
                    append_str(&mut text, "\x1b[1;32mtrue\x1b[22;39m");
                } else {
                    append_str(&mut text, "\x1b[1;31mfalse\x1b[22;39m");
                }
            } else if *b {
                append_str(&mut text, "true");
            } else {
                append_str(&mut text, "false");
            }
            Ok(text)
        },
        Value::Integer(n) => {
            let digits = format_integer(*n);
            Ok(color_number(digits.as_slice(), config.color))
        },
        Value::Number(digits) => Ok(color_number(digits.as_str().as_bytes(), config.color)),
        Value::Text(payload) => {
            let text = escape_bytes(payload.as_slice(), config.color, config.multiline);
            if str_from_utf8(text.as_slice()).is_some() {
                Ok(text)
            } else {
                Err(ReprError::Encoding)
            }
        },
        Value::Function => Err(ReprError::Unsupported(Opaque::Function)),
        Value::Thread => Err(ReprError::Unsupported(Opaque::Thread)),
        Value::UserData => Err(ReprError::Unsupported(Opaque::UserData)),
        Value::LightUserData => Err(ReprError::Unsupported(Opaque::LightUserData)),
        Value::Other => Err(ReprError::Unrepresentable),
        Value::Table(entries) => render_table(entries, config),
    }
}

/// The text of a number whose decimal text is `digits`.
fn color_number(digits: &[u8], color: bool) -> (text: Vec<u8>)
    ensures
        text@ == number_text(digits@, color),
{
    let mut text: Vec<u8> = Vec::new();
    if color {
        append_str(&mut text, "\x1b[34m");
    }
    append_bytes(&mut text, digits);
    if color {
        append_str(&mut text, "\x1b[39m");
    }
    text
}

/// The text of `value`, rendered with `config`.
///
/// Nil, booleans and numbers are written as literals, a string between
/// quotes with its control bytes made visible, a table between braces, one
/// entry on each line, in the order of the rendered keys. A function, a
/// thread and the two kinds of user data are not rendered, nor is what
/// holds one of them. The text is no serialisation: nothing reads it back
/// into the value.
pub fn repr(value: &Value, config: &RenderConfig) -> (r: Result<String, ReprError>)
    ensures
        r is Ok <==> is_renderable(value@),
        match r {
            Ok(text) => render(value@, config@) == Ok::<Seq<u8>, ReprError>(encode_utf8(text@)),
            Err(e) => render(value@, config@) == Err::<Seq<u8>, ReprError>(e),
        },
{
    proof {
        crate::laws::law_render_succeeds(value@, config@);
    }
    match render_bytes(value, config) {
        Ok(bytes) => {
            proof {
                crate::valid::lemma_render_valid(value@, config@);
            }
            match str_from_utf8(bytes.as_slice()) {
                Some(text) => Ok(text.to_owned()),
                None => unreached(),
            }
        },
        Err(e) => Err(e),
    }
}

} // verus!
