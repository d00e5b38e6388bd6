//! Sorting the entries of a table by the texts of their keys: a merge
//! sort, which keeps entries with equal texts in their order.

use vstd::prelude::*;
use crate::order::{
    bytes_le, indices, is_ordered, is_stable_order, law_stable_order_unique, lemma_lex_le_total,
    lemma_lex_le_transitive, lex_le, stable_order, stands_before, texts_model,
};

verus! {

/// Whether `order` holds each index from `lo` up to `hi` once, in the order
/// of `texts`.
pub open spec fn is_order_of_range(texts: Seq<Seq<u8>>, order: Seq<int>, lo: int, hi: int) -> bool {
    &&& order.len() == hi - lo
    &&& forall|x: int| lo <= x < hi <==> #[trigger] order.contains(x)
    &&& is_ordered(texts, order)
}

/// Whether `x` stands among the first `n` of `order`.
pub open spec fn among_first(order: Seq<int>, n: int, x: int) -> bool {
    exists|p: int| 0 <= p < n && p < order.len() && order[p] == x
}

/// What stands before an entry stands before what that entry stands
/// before.
pub proof fn lemma_stands_before_transitive(texts: Seq<Seq<u8>>, a: int, b: int, c: int)
    requires
        stands_before(texts, a, b),
        stands_before(texts, b, c),
    ensures
        stands_before(texts, a, c),
{
    lemma_lex_le_transitive(texts[a], texts[b], texts[c]);
    if lex_le(texts[c], texts[a]) {
        lemma_lex_le_transitive(texts[c], texts[a], texts[b]);
        lemma_lex_le_transitive(texts[b], texts[c], texts[a]);
    }
}

/// Merges two orders of adjoining ranges of indices into the order of the
/// whole range.
fn merge(
    texts: &Vec<Vec<u8>>,
    left: &Vec<usize>,
    right: &Vec<usize>,
    Ghost(lo): Ghost<int>,
    Ghost(mid): Ghost<int>,
    Ghost(hi): Ghost<int>,
) -> (out: Vec<usize>)
    requires
        0 <= lo <= mid <= hi <= texts@.len(),
        is_order_of_range(texts_model(texts@), indices(left@), lo, mid),
        is_order_of_range(texts_model(texts@), indices(right@), mid, hi),
    ensures
        is_order_of_range(texts_model(texts@), indices(out@), lo, hi),
{
    let ghost model = texts_model(texts@);
    let ghost from_left = indices(left@);
    let ghost from_right = indices(right@);
    let mut out: Vec<usize> = Vec::new();
    let mut i: usize = 0;
    let mut j: usize = 0;
    while i < left.len() || j < right.len()
        invariant
            0 <= lo <= mid <= hi <= texts@.len(),
            model == texts_model(texts@),
            from_left == indices(left@),
            from_right == indices(right@),
            is_order_of_range(model, from_left, lo, mid),
            is_order_of_range(model, from_right, mid, hi),
            i <= left@.len(),
            j <= right@.len(),
            out@.len() == i + j,
            forall|x: int|
                #![trigger indices(out@).contains(x)]
                indices(out@).contains(x) <==> (among_first(from_left, i as int, x) || among_first(
                    from_right,
                    j as int,
                    x,
                )),
            is_ordered(model, indices(out@)),
            forall|p: int, q: int|
                0 <= p < out@.len() && i <= q < left@.len() ==> stands_before(
                    model,
                    #[trigger] indices(out@)[p],
                    #[trigger] from_left[q],
                ),
            forall|p: int, q: int|
                0 <= p < out@.len() && j <= q < right@.len() ==> stands_before(
                    model,
                    #[trigger] indices(out@)[p],
                    #[trigger] from_right[q],
                ),
        decreases left@.len() - i + right@.len() - j,
    {
        let ghost before = indices(out@);
        proof {
            if i < left@.len() {
                assert(from_left.contains(from_left[i as int]));
                assert(model[from_left[i as int]] == texts@[left@[i as int] as int]@);
            }
            if j < right@.len() {
                assert(from_right.contains(from_right[j as int]));
                assert(model[from_right[j as int]] == texts@[right@[j as int] as int]@);
            }
        }
        let take_left: bool = if j >= right.len() {
            true
        } else if i >= left.len() {
            false
        } else {
            bytes_le(texts[left[i]].as_slice(), texts[right[j]].as_slice())
        };
        if take_left {
            let x: usize = left[i];
            out.push(x);
            proof {
                let after = indices(out@);
                assert(after == before.push(x as int));
                lemma_took(model, before, from_left, i as int, x as int);
                assert forall|p: int, q: int|
                    0 <= p < after.len() && j <= q < from_right.len() implies stands_before(
                    model,
                    #[trigger] after[p],
                    #[trigger] from_right[q],
                ) by {
                    if p == before.len() {
                        assert(from_right.contains(from_right[q]));
                        assert(from_right.contains(from_right[j as int]));
                        assert(stands_before(model, x as int, from_right[j as int]));
                        if q > j {
                            assert(stands_before(model, from_right[j as int], from_right[q]));
                            lemma_stands_before_transitive(
                                model,
                                x as int,
                                from_right[j as int],
                                from_right[q],
                            );
                        }
                    } else {
                        assert(after[p] == before[p]);
                    }
                }
                assert forall|p: int, q: int|
                    0 <= p < after.len() && i + 1 <= q < from_left.len() implies stands_before(
                    model,
                    #[trigger] after[p],
                    #[trigger] from_left[q],
                ) by {
                    if p == before.len() {
                        assert(stands_before(model, from_left[i as int], from_left[q]));
                    } else {
                        assert(after[p] == before[p]);
                    }
                }
                assert forall|x2: int|
                    #![trigger after.contains(x2)]
                    after.contains(x2) <==> (among_first(from_left, i + 1, x2) || among_first(
                        from_right,
                        j as int,
                        x2,
                    )) by {
                    lemma_among_next(from_left, i as int, x2);
                    lemma_contains_push(before, x as int, x2);
                }
            }
            i = i + 1;
        } else {
            let y: usize = right[j];
            out.push(y);
            proof {
                let after = indices(out@);
                assert(after == before.push(y as int));
                lemma_took(model, before, from_right, j as int, y as int);
                assert forall|p: int, q: int|
                    0 <= p < after.len() && i <= q < from_left.len() implies stands_before(
                    model,
                    #[trigger] after[p],
                    #[trigger] from_left[q],
                ) by {
                    if p == before.len() {
                        assert(from_left.contains(from_left[q]));
                        assert(from_left.contains(from_left[i as int]));
                        lemma_lex_le_total(model[from_left[i as int]], model[y as int]);
                        assert(stands_before(model, y as int, from_left[i as int]));
                        if q > i {
                            assert(stands_before(model, from_left[i as int], from_left[q]));
                            lemma_stands_before_transitive(
                                model,
                                y as int,
                                from_left[i as int],
                                from_left[q],
                            );
                        }
                    } else {
                        assert(after[p] == before[p]);
                    }
                }
                assert forall|p: int, q: int|
                    0 <= p < after.len() && j + 1 <= q < from_right.len() implies stands_before(
                    model,
                    #[trigger] after[p],
                    #[trigger] from_right[q],
                ) by {
                    if p == before.len() {
                        assert(stands_before(model, from_right[j as int], from_right[q]));
                    } else {
                        assert(after[p] == before[p]);
                    }
                }
                assert forall|x2: int|
                    #![trigger after.contains(x2)]
                    after.contains(x2) <==> (among_first(from_left, i as int, x2) || among_first(
                        from_right,
                        j + 1,
                        x2,
                    )) by {
                    lemma_among_next(from_right, j as int, x2);
                    lemma_contains_push(before, y as int, x2);
                }
            }
            j = j + 1;
        }
    }
    proof {
        let all = indices(out@);
        assert forall|x: int| lo <= x < hi <==> #[trigger] all.contains(x) by {
            lemma_among_all(from_left, x);
            lemma_among_all(from_right, x);
        }
    }
    out
}

/// An order stays an order when an entry is put behind it that all of it
/// stands before.
proof fn lemma_took(
    texts: Seq<Seq<u8>>,
    before: Seq<int>,
    taken_from: Seq<int>,
    n: int,
    x: int,
)
    requires
        is_ordered(texts, before),
        0 <= n < taken_from.len(),
        taken_from[n] == x,
        forall|p: int, q: int|
            0 <= p < before.len() && n <= q < taken_from.len() ==> stands_before(
                texts,
                #[trigger] before[p],
                #[trigger] taken_from[q],
            ),
    ensures
        is_ordered(texts, before.push(x)),
{
    let after = before.push(x);
    assert forall|p: int, q: int| 0 <= p < q < after.len() implies stands_before(
        texts,
        #[trigger] after[p],
        #[trigger] after[q],
    ) by {
        if q == before.len() {
            assert(after[p] == before[p]);
            assert(stands_before(texts, before[p], taken_from[n]));
        } else {
            assert(after[p] == before[p] && after[q] == before[q]);
        }
    }
}

/// What stands among the first `n + 1` stands among the first `n` or at
/// `n`.
proof fn lemma_among_next(order: Seq<int>, n: int, x: int)
    requires
        0 <= n < order.len(),
    ensures
        among_first(order, n + 1, x) <==> (among_first(order, n, x) || order[n] == x),
{
    if among_first(order, n + 1, x) {
        let p = choose|p: int| 0 <= p < n + 1 && p < order.len() && order[p] == x;
        if p < n {
            assert(among_first(order, n, x));
        }
    }
    if among_first(order, n, x) {
        let p = choose|p: int| 0 <= p < n && p < order.len() && order[p] == x;
        assert(0 <= p < n + 1 && p < order.len() && order[p] == x);
    }
    if order[n] == x {
        assert(0 <= n < n + 1 && n < order.len() && order[n] == x);
    }
}

/// What stands in an order with one more entry stands in the order or is
/// that entry.
proof fn lemma_contains_push(order: Seq<int>, last: int, x: int)
    ensures
        order.push(last).contains(x) <==> (order.contains(x) || last == x),
{
    let longer = order.push(last);
    if longer.contains(x) {
        let p = choose|p: int| 0 <= p < longer.len() && longer[p] == x;
        if p < order.len() {
            assert(order[p] == x);
        }
    }
    if order.contains(x) {
        let p = choose|p: int| 0 <= p < order.len() && order[p] == x;
        assert(longer[p] == x);
    }
    if last == x {
        assert(longer[order.len() as int] == x);
    }
}

/// What stands among all of an order stands in it.
proof fn lemma_among_all(order: Seq<int>, x: int)
    ensures
        among_first(order, order.len() as int, x) <==> order.contains(x),
{
    if among_first(order, order.len() as int, x) {
        let p = choose|p: int| 0 <= p < order.len() && p < order.len() && order[p] == x;
        assert(order[p] == x);
    }
    if order.contains(x) {
        let p = choose|p: int| 0 <= p < order.len() && order[p] == x;
        assert(0 <= p < order.len() && p < order.len() && order[p] == x);
    }
}

/// The indices from `lo` up to `hi` in the order of their texts.
fn sort_range(texts: &Vec<Vec<u8>>, lo: usize, hi: usize) -> (order: Vec<usize>)
    requires
        lo <= hi <= texts@.len(),
    ensures
        is_order_of_range(texts_model(texts@), indices(order@), lo as int, hi as int),
    decreases hi - lo,
{
    let mut order: Vec<usize> = Vec::new();
    if hi - lo == 0 {
        return order;
    }
    if hi - lo == 1 {
        order.push(lo);
        assert(indices(order@)[0] == lo);
        return order;
    }
    let mid: usize = lo + (hi - lo) / 2;
    let left = sort_range(texts, lo, mid);
    let right = sort_range(texts, mid, hi);
    merge(texts, &left, &right, Ghost(lo as int), Ghost(mid as int), Ghost(hi as int))
}

/// The indices of `texts` in the order of their texts.
pub fn sort_by_text(texts: &Vec<Vec<u8>>) -> (order: Vec<usize>)
    ensures
        indices(order@) == stable_order(texts_model(texts@)),
        order@.len() == texts@.len(),
        forall|j: int| 0 <= j < order@.len() ==> (#[trigger] order@[j]) < texts@.len(),
{
    let order = sort_range(texts, 0, texts.len());
    proof {
        let model = texts_model(texts@);
        assert(is_stable_order(model, indices(order@)));
        law_stable_order_unique(model, indices(order@));
        assert forall|j: int| 0 <= j < order@.len() implies (#[trigger] order@[j])
            < texts@.len() by {
            assert(indices(order@)[j] == order@[j]);
            assert(indices(order@).contains(indices(order@)[j]));
        }
    }
    order
}

} // verus!
