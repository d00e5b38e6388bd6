//! The order of a table's entries: ascending by the bytes of the rendered
//! key, entries with equal keys in the order in which they were given.

use vstd::prelude::*;

verus! {

/// Whether `a` comes before `b`, or equals it, when the two are compared
/// byte by byte: at the first place where they differ `a` holds the smaller
/// byte, or `a` ends there.
pub open spec fn lex_le(a: Seq<u8>, b: Seq<u8>) -> bool
    decreases a.len(),
{
    if a.len() == 0 {
        true
    } else if b.len() == 0 {
        false
    } else if a[0] != b[0] {
        a[0] < b[0]
    } else {
        lex_le(a.drop_first(), b.drop_first())
    }
}

/// `order`, with `k` put behind the last index whose text does not come
/// after that of `k`.
pub open spec fn insert_last(texts: Seq<Seq<u8>>, order: Seq<int>, k: int) -> Seq<int>
    decreases order.len(),
{
    if order.len() == 0 {
        seq![k]
    } else if lex_le(texts[order.last()], texts[k]) {
        order.push(k)
    } else {
        insert_last(texts, order.drop_last(), k).push(order.last())
    }
}

/// The first `n` indices of `texts` in the order of their texts.
pub open spec fn order_of_first(texts: Seq<Seq<u8>>, n: nat) -> Seq<int>
    decreases n,
{
    if n == 0 {
        Seq::empty()
    } else {
        insert_last(texts, order_of_first(texts, (n - 1) as nat), n - 1)
    }
}

/// The indices of `texts` in the order of their texts: ascending by
/// [`lex_le`], equal texts by ascending index.
pub open spec fn stable_order(texts: Seq<Seq<u8>>) -> Seq<int> {
    order_of_first(texts, texts.len())
}

/// The texts that `texts` holds.
pub open spec fn texts_model(texts: Seq<Vec<u8>>) -> Seq<Seq<u8>> {
    Seq::new(texts.len(), |i: int| texts[i]@)
}

/// The indices that `order` holds.
pub open spec fn indices(order: Seq<usize>) -> Seq<int> {
    Seq::new(order.len(), |j: int| order[j] as int)
}

/// Putting `k` into `order` adds one index and keeps the others.
pub proof fn lemma_insert_last_holds(texts: Seq<Seq<u8>>, order: Seq<int>, k: int)
    ensures
        insert_last(texts, order, k).len() == order.len() + 1,
        forall|x: int|
            #![trigger insert_last(texts, order, k).contains(x)]
            insert_last(texts, order, k).contains(x) <==> (x == k || order.contains(x)),
    decreases order.len(),
{
    let out = insert_last(texts, order, k);
    if order.len() == 0 {
        assert(out[0] == k);
    } else if lex_le(texts[order.last()], texts[k]) {
        assert(out.last() == k);
        assert forall|x: int| order.contains(x) implies out.contains(x) by {
            let j = choose|j: int| 0 <= j < order.len() && order[j] == x;
            assert(out[j] == x);
        }
    } else {
        let rest = order.drop_last();
        let inner = insert_last(texts, rest, k);
        lemma_insert_last_holds(texts, rest, k);
        assert(out == inner.push(order.last()));
        assert forall|x: int| out.contains(x) implies (x == k || order.contains(x)) by {
            let j = choose|j: int| 0 <= j < out.len() && out[j] == x;
            if j < inner.len() {
                assert(inner[j] == x);
                assert(inner.contains(x));
                if x != k {
                    assert(rest.contains(x));
                    let i = choose|i: int| 0 <= i < rest.len() && rest[i] == x;
                    assert(order[i] == rest[i]);
                }
            } else {
                assert(order[order.len() - 1] == x);
            }
        }
        assert forall|x: int| (x == k || order.contains(x)) implies out.contains(x) by {
            if x != k && order.last() == x {
                assert(out[out.len() - 1] == x);
            } else {
                if x != k {
                    let i = choose|i: int| 0 <= i < order.len() && order[i] == x;
                    assert(rest[i] == x);
                    assert(rest.contains(x));
                }
                assert(inner.contains(x));
                let j = choose|j: int| 0 <= j < inner.len() && inner[j] == x;
                assert(out[j] == x);
            }
        }
    }
}

/// The order of the first `n` indices holds each of them, and nothing
/// else.
pub proof fn lemma_order_of_first_holds(texts: Seq<Seq<u8>>, n: nat)
    ensures
        order_of_first(texts, n).len() == n,
        forall|x: int|
            #![trigger order_of_first(texts, n).contains(x)]
            order_of_first(texts, n).contains(x) <==> 0 <= x < n,
    decreases n,
{
    if n > 0 {
        let before = order_of_first(texts, (n - 1) as nat);
        lemma_order_of_first_holds(texts, (n - 1) as nat);
        lemma_insert_last_holds(texts, before, n - 1);
        assert forall|x: int| order_of_first(texts, n).contains(x) <==> 0 <= x < n by {
            assert(insert_last(texts, before, n - 1).contains(x) <==> (x == n - 1
                || before.contains(x)));
        }
    }
}

/// Compares `a` and `b` byte by byte.
pub fn bytes_le(a: &[u8], b: &[u8]) -> (le: bool)
    ensures
        le == lex_le(a@, b@),
{
    let mut i: usize = 0;
    assert(a@.skip(0) == a@ && b@.skip(0) == b@);
    while i < a.len() && i < b.len()
        invariant
            i <= a.len(),
            i <= b.len(),
            lex_le(a@, b@) == lex_le(a@.skip(i as int), b@.skip(i as int)),
        decreases a.len() - i,
    {
        proof {
            assert(a@.skip(i as int).drop_first() == a@.skip(i + 1));
            assert(b@.skip(i as int).drop_first() == b@.skip(i + 1));
        }
        if a[i] != b[i] {
            return a[i] < b[i];
        }
        i = i + 1;
    }
    i == a.len()
}

/// Whether `a` is the beginning of `b`.
pub open spec fn begins(a: Seq<u8>, b: Seq<u8>) -> bool {
    a.len() <= b.len() && b.subrange(0, a.len() as int) == a
}

/// Whether `a` and `b` are equal before `k` and `a` holds the smaller byte
/// at `k`.
pub open spec fn smaller_at(a: Seq<u8>, b: Seq<u8>, k: int) -> bool {
    &&& 0 <= k < a.len()
    &&& k < b.len()
    &&& a.subrange(0, k) == b.subrange(0, k)
    &&& a[k] < b[k]
}

/// The beginning of a text comes before the text, or equals it.
pub proof fn lemma_beginning_is_le(a: Seq<u8>, b: Seq<u8>)
    requires
        begins(a, b),
    ensures
        lex_le(a, b),
    decreases a.len(),
{
    if a.len() > 0 {
        let head = b.subrange(0, a.len() as int);
        let rest = b.drop_first().subrange(0, a.len() - 1);
        assert(head[0] == a[0]);
        assert forall|i: int| 0 <= i < a.len() - 1 implies #[trigger] rest[i] == a.drop_first()[i] by {
            assert(head[i + 1] == a[i + 1]);
        }
        assert(rest == a.drop_first());
        lemma_beginning_is_le(a.drop_first(), b.drop_first());
    }
}

/// A text with the smaller byte at the first difference comes first.
pub proof fn lemma_smaller_at_is_le(a: Seq<u8>, b: Seq<u8>, k: int)
    requires
        smaller_at(a, b, k),
    ensures
        lex_le(a, b),
    decreases k,
{
    if k > 0 {
        let head_a = a.subrange(0, k);
        let head_b = b.subrange(0, k);
        let rest_a = a.drop_first().subrange(0, k - 1);
        let rest_b = b.drop_first().subrange(0, k - 1);
        assert(head_a[0] == head_b[0]);
        assert forall|i: int| 0 <= i < k - 1 implies #[trigger] rest_a[i] == rest_b[i] by {
            assert(head_a[i + 1] == head_b[i + 1]);
        }
        assert(rest_a == rest_b);
        lemma_smaller_at_is_le(a.drop_first(), b.drop_first(), k - 1);
    }
}

/// A text that comes before another, or equals it, is its beginning or
/// holds the smaller byte at the first difference.
pub proof fn lemma_le_has_reason(a: Seq<u8>, b: Seq<u8>)
    requires
        lex_le(a, b),
    ensures
        begins(a, b) || exists|k: int| smaller_at(a, b, k),
    decreases a.len(),
{
    if a.len() == 0 {
        assert(b.subrange(0, 0) == a);
    } else if a[0] != b[0] {
        assert(a.subrange(0, 0) == b.subrange(0, 0));
        assert(smaller_at(a, b, 0));
    } else {
        let x = a.drop_first();
        let y = b.drop_first();
        lemma_le_has_reason(x, y);
        if begins(x, y) {
            let head = b.subrange(0, a.len() as int);
            let inner = y.subrange(0, x.len() as int);
            assert forall|i: int| 0 <= i < a.len() implies #[trigger] head[i] == a[i] by {
                if i > 0 {
                    assert(inner[i - 1] == x[i - 1]);
                }
            }
            assert(head == a);
        } else {
            let k = choose|k: int| smaller_at(x, y, k);
            let head_a = a.subrange(0, k + 1);
            let head_b = b.subrange(0, k + 1);
            let inner_a = x.subrange(0, k);
            let inner_b = y.subrange(0, k);
            assert forall|i: int| 0 <= i < k + 1 implies #[trigger] head_a[i] == head_b[i] by {
                if i > 0 {
                    assert(inner_a[i - 1] == inner_b[i - 1]);
                }
            }
            assert(head_a == head_b);
            assert(a[k + 1] == x[k] && b[k + 1] == y[k]);
            assert(smaller_at(a, b, k + 1));
        }
    }
}

/// A text comes before another, or equals it, exactly where it is the
/// beginning of the other or holds the smaller byte at the first place
/// where the two differ.
pub proof fn law_lex_le_meaning(a: Seq<u8>, b: Seq<u8>)
    ensures
        lex_le(a, b) <==> (begins(a, b) || exists|k: int| smaller_at(a, b, k)),
{
    if lex_le(a, b) {
        lemma_le_has_reason(a, b);
    }
    if begins(a, b) {
        lemma_beginning_is_le(a, b);
    }
    if exists|k: int| smaller_at(a, b, k) {
        let k = choose|k: int| smaller_at(a, b, k);
        lemma_smaller_at_is_le(a, b, k);
    }
}

/// Every text comes before itself or equals it.
pub proof fn lemma_lex_le_reflexive(a: Seq<u8>)
    ensures
        lex_le(a, a),
    decreases a.len(),
{
    if a.len() > 0 {
        lemma_lex_le_reflexive(a.drop_first());
    }
}

/// Of two texts one comes before the other, or they are equal.
pub proof fn lemma_lex_le_total(a: Seq<u8>, b: Seq<u8>)
    ensures
        lex_le(a, b) || lex_le(b, a),
    decreases a.len(),
{
    if a.len() > 0 && b.len() > 0 && a[0] == b[0] {
        lemma_lex_le_total(a.drop_first(), b.drop_first());
    }
}

/// What comes before a text comes before what that text comes before.
pub proof fn lemma_lex_le_transitive(a: Seq<u8>, b: Seq<u8>, c: Seq<u8>)
    requires
        lex_le(a, b),
        lex_le(b, c),
    ensures
        lex_le(a, c),
    decreases a.len(),
{
    if a.len() > 0 && a[0] == b[0] && b[0] == c[0] {
        lemma_lex_le_transitive(a.drop_first(), b.drop_first(), c.drop_first());
    }
}

/// Two texts that come before each other are equal.
pub proof fn lemma_lex_le_antisymmetric(a: Seq<u8>, b: Seq<u8>)
    requires
        lex_le(a, b),
        lex_le(b, a),
    ensures
        a == b,
    decreases a.len(),
{
    if a.len() > 0 {
        lemma_lex_le_antisymmetric(a.drop_first(), b.drop_first());
        assert(a == seq![a[0]] + a.drop_first());
        assert(b == seq![b[0]] + b.drop_first());
    } else {
        assert(a =~= b);
    }
}

/// Whether the entry `i` stands before the entry `j` in the order of
/// `texts`: its text comes first, or the texts are equal and `i` is the
/// smaller index.
pub open spec fn stands_before(texts: Seq<Seq<u8>>, i: int, j: int) -> bool {
    lex_le(texts[i], texts[j]) && (lex_le(texts[j], texts[i]) ==> i < j)
}

/// Whether each index in `order` stands before those behind it.
pub open spec fn is_ordered(texts: Seq<Seq<u8>>, order: Seq<int>) -> bool {
    forall|p: int, q: int|
        0 <= p < q < order.len() ==> stands_before(texts, #[trigger] order[p], #[trigger] order[q])
}

/// Whether `order` is the order of `texts`: it holds each index of `texts`
/// once, ascending by text, equal texts by ascending index.
pub open spec fn is_stable_order(texts: Seq<Seq<u8>>, order: Seq<int>) -> bool {
    &&& order.len() == texts.len()
    &&& forall|x: int| 0 <= x < texts.len() <==> #[trigger] order.contains(x)
    &&& is_ordered(texts, order)
}

/// Putting an index that is greater than those of `order` into `order`
/// keeps the order.
pub proof fn lemma_insert_last_ordered(texts: Seq<Seq<u8>>, order: Seq<int>, k: int)
    requires
        is_ordered(texts, order),
        forall|p: int| 0 <= p < order.len() ==> (#[trigger] order[p]) < k,
    ensures
        is_ordered(texts, insert_last(texts, order, k)),
    decreases order.len(),
{
    let out = insert_last(texts, order, k);
    if order.len() == 0 {
    } else if lex_le(texts[order.last()], texts[k]) {
        assert forall|p: int, q: int| 0 <= p < q < out.len() implies stands_before(
            texts,
            #[trigger] out[p],
            #[trigger] out[q],
        ) by {
            if q == order.len() {
                assert(out[p] == order[p]);
                if p < order.len() - 1 {
                    assert(stands_before(texts, order[p], order[order.len() - 1]));
                    lemma_lex_le_transitive(texts[order[p]], texts[order.last()], texts[k]);
                }
            } else {
                assert(out[p] == order[p] && out[q] == order[q]);
            }
        }
    } else {
        let rest = order.drop_last();
        let inner = insert_last(texts, rest, k);
        assert forall|p: int, q: int| 0 <= p < q < rest.len() implies stands_before(
            texts,
            #[trigger] rest[p],
            #[trigger] rest[q],
        ) by {
            assert(rest[p] == order[p] && rest[q] == order[q]);
        }
        assert forall|p: int| 0 <= p < rest.len() implies (#[trigger] rest[p]) < k by {
            assert(rest[p] == order[p]);
        }
        lemma_insert_last_ordered(texts, rest, k);
        lemma_insert_last_holds(texts, rest, k);
        lemma_lex_le_total(texts[order.last()], texts[k]);
        assert forall|p: int, q: int| 0 <= p < q < out.len() implies stands_before(
            texts,
            #[trigger] out[p],
            #[trigger] out[q],
        ) by {
            if q == inner.len() {
                assert(out[q] == order.last());
                assert(out[p] == inner[p]);
                assert(inner.contains(inner[p]));
                if inner[p] != k {
                    assert(rest.contains(inner[p]));
                    let i = choose|i: int| 0 <= i < rest.len() && rest[i] == inner[p];
                    assert(order[i] == inner[p]);
                    assert(stands_before(texts, order[i], order[order.len() - 1]));
                }
            } else {
                assert(out[p] == inner[p] && out[q] == inner[q]);
            }
        }
    }
}

/// The order of the first `n` indices is ordered.
pub proof fn lemma_order_of_first_ordered(texts: Seq<Seq<u8>>, n: nat)
    ensures
        is_ordered(texts, order_of_first(texts, n)),
    decreases n,
{
    if n > 0 {
        let before = order_of_first(texts, (n - 1) as nat);
        lemma_order_of_first_ordered(texts, (n - 1) as nat);
        lemma_order_of_first_holds(texts, (n - 1) as nat);
        assert forall|p: int| 0 <= p < before.len() implies (#[trigger] before[p]) < n - 1 by {
            assert(before.contains(before[p]));
        }
        lemma_insert_last_ordered(texts, before, n - 1);
    }
}

/// The entries of a table are written in ascending order of their keys'
/// texts, entries with equal texts in the order in which they were given,
/// and each entry once.
pub proof fn law_stable_order(texts: Seq<Seq<u8>>)
    ensures
        is_stable_order(texts, stable_order(texts)),
{
    lemma_order_of_first_holds(texts, texts.len());
    lemma_order_of_first_ordered(texts, texts.len());
}

/// No index stands twice in an order.
pub proof fn law_order_without_repeats(texts: Seq<Seq<u8>>, order: Seq<int>, p: int, q: int)
    requires
        is_ordered(texts, order),
        0 <= p < q < order.len(),
    ensures
        order[p] != order[q],
{
    lemma_lex_le_reflexive(texts[order[p]]);
    assert(stands_before(texts, order[p], order[q]));
}

/// Two orders of the same texts agree in their first `n` places.
pub proof fn lemma_orders_agree(texts: Seq<Seq<u8>>, a: Seq<int>, b: Seq<int>, n: nat)
    requires
        is_stable_order(texts, a),
        is_stable_order(texts, b),
        n <= texts.len(),
    ensures
        forall|p: int| 0 <= p < n ==> a[p] == b[p],
    decreases n,
{
    if n > 0 {
        lemma_orders_agree(texts, a, b, (n - 1) as nat);
        let p = n - 1;
        let x = a[p];
        let y = b[p];
        if x != y {
            assert(a.contains(x));
            assert(b.contains(x));
            let q = choose|q: int| 0 <= q < b.len() && b[q] == x;
            if q < p {
                assert(a[q] == b[q]);
                law_order_without_repeats(texts, a, q, p);
            }
            assert(stands_before(texts, b[p], b[q]));
            assert(b.contains(y));
            assert(a.contains(y));
            let r = choose|r: int| 0 <= r < a.len() && a[r] == y;
            if r < p {
                assert(a[r] == b[r]);
                law_order_without_repeats(texts, b, r, p);
            }
            assert(stands_before(texts, a[p], a[r]));
        }
    }
}

/// There is one order of given texts, and no other.
pub proof fn law_stable_order_unique(texts: Seq<Seq<u8>>, order: Seq<int>)
    requires
        is_stable_order(texts, order),
    ensures
        order == stable_order(texts),
{
    law_stable_order(texts);
    lemma_orders_agree(texts, order, stable_order(texts), texts.len());
    assert(order =~= stable_order(texts));
}

} // verus!
