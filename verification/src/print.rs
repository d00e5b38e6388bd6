//! What printing a list of values writes.

use vstd::prelude::*;
use vstd::string::StringSliceAdditionalSpecFns;
use crate::bytes::{append_bytes, append_str};
use crate::laws::law_render_succeeds;
use crate::repr::{
    first_failure, is_renderable, lemma_first_failure_at, lemma_no_failure, render, render_bytes,
    Rendered,
};
use crate::valid::lemma_no_failure_means_texts;
use crate::value::{RenderConfig, RenderConfigView, ReprError, Value, ValueView};

verus! {

/// The settings that printing renders with: colour and kept newlines.
pub open spec fn print_config() -> RenderConfigView {
    RenderConfigView { color: true, multiline: true, indent_width: 4, depth: 0 }
}

/// The models of `values`.
pub open spec fn values_view(values: Seq<Value>) -> Seq<ValueView> {
    Seq::new(values.len(), |i: int| values[i]@)
}

/// The outcome of rendering each of `values` for printing.
pub open spec fn print_outcomes(values: Seq<ValueView>) -> Seq<Rendered> {
    Seq::new(values.len(), |i: int| render(values[i], print_config()))
}

/// The number of texts in `outcomes` before the first failure.
pub open spec fn texts_before_failure(outcomes: Seq<Rendered>) -> nat
    decreases outcomes.len(),
{
    if outcomes.len() == 0 || outcomes[0] is Err {
        0
    } else {
        1 + texts_before_failure(outcomes.drop_first())
    }
}

/// The first `n` texts of `outcomes`, each but the last of all `outcomes`
/// followed by a space.
pub open spec fn joined(outcomes: Seq<Rendered>, n: nat) -> Seq<u8>
    decreases n,
{
    if n == 0 {
        Seq::empty()
    } else {
        joined(outcomes, (n - 1) as nat) + outcomes[n - 1]->Ok_0 + (if n < outcomes.len() {
            " ".spec_bytes()
        } else {
            Seq::empty()
        })
    }
}

/// What printing `values` writes: the texts of the values, with a space
/// between two of them, and a newline at the end. Where a value fails, the
/// texts before it have been written, each with the space behind it, and
/// no newline.
pub open spec fn printed_text(values: Seq<ValueView>) -> Seq<u8> {
    let outcomes = print_outcomes(values);
    let n = texts_before_failure(outcomes);
    if n == outcomes.len() {
        joined(outcomes, n) + "\n".spec_bytes()
    } else {
        joined(outcomes, n)
    }
}

/// What printing a list of values does: the bytes that it writes, and the
/// failure that ends it, if one does.
#[derive(Debug, PartialEq, Eq)]
pub struct Printed {
    pub text: Vec<u8>,
    pub failure: Option<ReprError>,
}

/// Where all of `outcomes` before `i` are texts, and `i` is their number
/// or the place of a failure, there are `i` texts before the first failure.
pub proof fn lemma_texts_before_failure(outcomes: Seq<Rendered>, i: int)
    requires
        0 <= i <= outcomes.len(),
        forall|j: int| 0 <= j < i ==> outcomes[j] is Ok,
        i < outcomes.len() ==> outcomes[i] is Err,
    ensures
        texts_before_failure(outcomes) == i,
    decreases i,
{
    if i > 0 {
        let rest = outcomes.drop_first();
        assert forall|j: int| 0 <= j < i - 1 implies rest[j] is Ok by {
            assert(rest[j] == outcomes[j + 1]);
        }
        if i < outcomes.len() {
            assert(rest[i - 1] == outcomes[i]);
        }
        lemma_texts_before_failure(rest, i - 1);
    }
}

/// What printing `values` writes, and the failure that ends it.
pub fn print_line(values: &Vec<Value>) -> (printed: Printed)
    ensures
        printed.text@ == printed_text(values_view(values@)),
        printed.failure == first_failure(print_outcomes(values_view(values@))),
        printed.failure is None <==> forall|i: int|
            0 <= i < values@.len() ==> is_renderable(#[trigger] values@[i]@),
{
    let config = RenderConfig { color: true, multiline: true, indent_width: 4, depth: 0 };
    let ghost outcomes = print_outcomes(values_view(values@));
    proof {
        assert(outcomes.len() == values@.len());
        if first_failure(outcomes) is None {
            lemma_no_failure_means_texts(outcomes);
            assert forall|i: int| 0 <= i < values@.len() implies is_renderable(
                #[trigger] values@[i]@,
            ) by {
                assert(outcomes[i] is Ok);
                law_render_succeeds(values@[i]@, print_config());
            }
        }
        if forall|i: int| 0 <= i < values@.len() ==> is_renderable(#[trigger] values@[i]@) {
            assert forall|i: int| 0 <= i < outcomes.len() implies outcomes[i] is Ok by {
                assert(is_renderable(values@[i]@));
                law_render_succeeds(values@[i]@, print_config());
            }
            lemma_no_failure(outcomes);
        }
    }
    let mut text: Vec<u8> = Vec::new();
    let mut i: usize = 0;
    while i < values.len()
        invariant
            i <= values.len(),
            config@ == print_config(),
            outcomes == print_outcomes(values_view(values@)),
            outcomes.len() == values@.len(),
            forall|j: int| 0 <= j < i ==> (#[trigger] outcomes[j]) is Ok,
            first_failure(outcomes) is None <==> forall|j: int|
                0 <= j < values@.len() ==> is_renderable(#[trigger] values@[j]@),
            text@ == joined(outcomes, i as nat),
        decreases values.len() - i,
    {
        assert(outcomes[i as int] == render(values@[i as int]@, config@));
        match render_bytes(&values[i], &config) {
            Ok(item) => {
                append_bytes(&mut text, item.as_slice());
            },
            Err(e) => {
                proof {
                    lemma_texts_before_failure(outcomes, i as int);
                    lemma_first_failure_at(outcomes, i as int);
                }
                return Printed { text, failure: Some(e) };
            },
        }
        if i + 1 < values.len() {
            append_str(&mut text, " ");
        }
        i = i + 1;
    }
    proof {
        lemma_texts_before_failure(outcomes, i as int);
        lemma_no_failure(outcomes);
    }
    append_str(&mut text, "\n");
    Printed { text, failure: None }
}

/// Printing two values that are rendered writes their texts with one
/// space between them and a newline behind them.
pub proof fn law_print_pair(
    first: ValueView,
    second: ValueView,
    first_text: Seq<u8>,
    second_text: Seq<u8>,
)
    requires
        render(first, print_config()) == Ok::<Seq<u8>, ReprError>(first_text),
        render(second, print_config()) == Ok::<Seq<u8>, ReprError>(second_text),
    ensures
        printed_text(seq![first, second]) == first_text + " ".spec_bytes() + second_text
            + "\n".spec_bytes(),
{
    let outcomes = print_outcomes(seq![first, second]);
    lemma_texts_before_failure(outcomes, 2);
    assert(joined(outcomes, 2) == first_text + " ".spec_bytes() + second_text) by {
        reveal_with_fuel(joined, 3);
        assert(joined(outcomes, 0) == Seq::<u8>::empty());
        assert(joined(outcomes, 1) == Seq::<u8>::empty() + first_text + " ".spec_bytes());
        assert(Seq::<u8>::empty() + first_text == first_text);
        assert(second_text + Seq::<u8>::empty() == second_text);
    }
}

/// Printing no value writes a newline.
pub proof fn law_print_nothing()
    ensures
        printed_text(Seq::empty()) == "\n".spec_bytes(),
{
    assert(Seq::<u8>::empty() + "\n".spec_bytes() == "\n".spec_bytes());
}

} // verus!
