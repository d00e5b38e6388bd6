//! The values that can be rendered, the settings of a rendering, and the
//! ways in which a rendering fails.

use vstd::prelude::*;
use vstd::string::StringExecFns;

verus! {

/// The kinds of value that have no rendering of their own.
#[derive(Clone, Copy, Debug, PartialEq, Eq, Structural)]
pub enum Opaque {
    Function,
    Thread,
    UserData,
    LightUserData,
}

/// Why a value could not be rendered.
#[derive(Clone, Copy, Debug, PartialEq, Eq, Structural)]
pub enum ReprError {
    /// The escaped form of a string is not valid UTF-8.
    Encoding,
    /// The value is of a kind that is not rendered.
    Unsupported(Opaque),
    /// The value is of no kind that this library knows.
    Unrepresentable,
}

impl Opaque {
    /// The words that name the kind in a message.
    pub open spec fn plural(self) -> Seq<char> {
        match self {
            Opaque::Function => "functions"@,
            Opaque::Thread => "threads"@,
            Opaque::UserData => "userdata-objects"@,
            Opaque::LightUserData => "lightuserdata-objects"@,
        }
    }
}

impl ReprError {
    /// The text of the message of this failure.
    pub open spec fn message_text(self) -> Seq<char> {
        match self {
            ReprError::Encoding => "Rendered string is not valid UTF-8!"@,
            ReprError::Unsupported(kind) => "dope.repr() is not implemented for "@ + kind.plural(),
            ReprError::Unrepresentable => "Cannot generate repr for value!"@,
        }
    }

    /// The message of this failure.
    pub fn message(&self) -> (text: String)
        ensures
            text@ == self.message_text(),
    {
        match self {
            ReprError::Encoding => "Rendered string is not valid UTF-8!".to_owned(),
            ReprError::Unsupported(kind) => {
                let head: String = "dope.repr() is not implemented for ".to_owned();
                match kind {
                    Opaque::Function => head.concat("functions"),
                    Opaque::Thread => head.concat("threads"),
                    Opaque::UserData => head.concat("userdata-objects"),
                    Opaque::LightUserData => head.concat("lightuserdata-objects"),
                }
            },
            ReprError::Unrepresentable => "Cannot generate repr for value!".to_owned(),
        }
    }
}

/// The settings of a rendering.
#[derive(Clone, Copy, Debug, PartialEq, Eq, Structural)]
pub struct RenderConfig {
    /// Whether ANSI colour sequences are written.
    pub color: bool,
    /// Whether a newline in a string is kept as a newline.
    pub multiline: bool,
    /// The number of spaces of one level of indentation.
    pub indent_width: u8,
    /// The number of tables around the value that is rendered.
    pub depth: u32,
}

/// The mathematical model of a [`RenderConfig`]: its depth has no upper
/// limit.
pub struct RenderConfigView {
    pub color: bool,
    pub multiline: bool,
    pub indent_width: nat,
    pub depth: nat,
}

impl RenderConfigView {
    /// The settings for what stands inside a table that is rendered with
    /// `self`.
    pub open spec fn descend(self) -> RenderConfigView {
        RenderConfigView { depth: self.depth + 1, ..self }
    }
}

impl View for RenderConfig {
    type V = RenderConfigView;

    open spec fn view(&self) -> RenderConfigView {
        RenderConfigView {
            color: self.color,
            multiline: self.multiline,
            indent_width: self.indent_width as nat,
            depth: self.depth as nat,
        }
    }
}

impl Default for RenderConfig {
    /// No colour, no kept newlines, four spaces a level, depth zero.
    fn default() -> (config: RenderConfig)
        ensures
            config == (RenderConfig { color: false, multiline: false, indent_width: 4, depth: 0 }),
    {
        RenderConfig { color: false, multiline: false, indent_width: 4, depth: 0 }
    }
}

/// A dynamically typed value.
///
/// A number carries the decimal text that its owner gives it. A table
/// carries its entries in the order in which its owner enumerates them, one
/// entry for each key.
#[derive(Debug)]
pub enum Value {
    Nil,
    Boolean(bool),
    Integer(i64),
    Number(String),
    Text(Vec<u8>),
    Function,
    Thread,
    Table(Vec<(Value, Value)>),
    UserData,
    LightUserData,
    Other,
}

/// The mathematical model of a [`Value`].
pub enum ValueView {
    Nil,
    Boolean(bool),
    Integer(int),
    Number(Seq<char>),
    Text(Seq<u8>),
    Function,
    Thread,
    Table(Seq<(ValueView, ValueView)>),
    UserData,
    LightUserData,
    Other,
}

/// The model of `value`.
pub open spec fn model_of(value: Value) -> ValueView
    decreases value,
{
    match value {
        Value::Nil => ValueView::Nil,
        Value::Boolean(b) => ValueView::Boolean(b),
        Value::Integer(n) => ValueView::Integer(n as int),
        Value::Number(text) => ValueView::Number(text@),
        Value::Text(payload) => ValueView::Text(payload@),
        Value::Function => ValueView::Function,
        Value::Thread => ValueView::Thread,
        Value::Table(entries) => ValueView::Table(
            Seq::new(
                entries@.len(),
                |i: int|
                    if 0 <= i < entries@.len() {
                        (model_of(entries@[i].0), model_of(entries@[i].1))
                    } else {
                        (ValueView::Nil, ValueView::Nil)
                    },
            ),
        ),
        Value::UserData => ValueView::UserData,
        Value::LightUserData => ValueView::LightUserData,
        Value::Other => ValueView::Other,
    }
}

impl View for Value {
    type V = ValueView;

    open spec fn view(&self) -> ValueView {
        model_of(*self)
    }
}

/// The model of a table holds the models of its entries, in their order.
pub proof fn lemma_table_view(entries: Vec<(Value, Value)>)
    ensures
        Value::Table(entries)@ is Table,
        Value::Table(entries)@->Table_0.len() == entries@.len(),
        forall|i: int|
            0 <= i < entries@.len() ==> (#[trigger] Value::Table(entries)@->Table_0[i]) == (
                entries@[i].0@,
                entries@[i].1@,
            ),
{
}

/// A copy of `value` with the same model.
fn clone_value(value: &Value) -> (copy: Value)
    ensures
        copy@ == value@,
    decreases value, 0nat,
{
    match value {
        Value::Nil => Value::Nil,
        Value::Boolean(b) => Value::Boolean(*b),
        Value::Integer(n) => Value::Integer(*n),
        Value::Number(text) => Value::Number(text.clone()),
        Value::Text(payload) => Value::Text(payload.clone()),
        Value::Function => Value::Function,
        Value::Thread => Value::Thread,
        Value::UserData => Value::UserData,
        Value::LightUserData => Value::LightUserData,
        Value::Other => Value::Other,
        Value::Table(entries) => Value::Table(clone_entries(entries)),
    }
}

/// A copy of `entries` with the same model.
fn clone_entries(entries: &Vec<(Value, Value)>) -> (copies: Vec<(Value, Value)>)
    ensures
        Value::Table(copies)@ == Value::Table(*entries)@,
    decreases entries, 0nat,
{
    let mut copies: Vec<(Value, Value)> = Vec::new();
    let mut i: usize = 0;
    while i < entries.len()
        invariant
            i <= entries.len(),
            copies@.len() == i,
            forall|j: int|
                0 <= j < i ==> (#[trigger] copies@[j]).0@ == entries@[j].0@ && copies@[j].1@
                    == entries@[j].1@,
        decreases entries.len() - i,
    {
        let key = clone_value(&entries[i].0);
        let value = clone_value(&entries[i].1);
        copies.push((key, value));
        i = i + 1;
    }
    proof {
        lemma_table_view(*entries);
        lemma_table_view(copies);
        assert(Value::Table(copies)@->Table_0 =~= Value::Table(*entries)@->Table_0);
    }
    copies
}

impl Clone for Value {
    fn clone(&self) -> (copy: Value)
        ensures
            copy@ == self@,
    {
        clone_value(self)
    }
}

} // verus!
