//! Positions `0..n` that satisfy a predicate, in increasing order.

use vstd::prelude::*;

verus! {

pub open spec fn select(n: int, pred: spec_fn(int) -> bool) -> Seq<int>
    decreases n,
{
    if n <= 0 {
        Seq::empty()
    } else if pred(n - 1) {
        select(n - 1, pred).push(n - 1)
    } else {
        select(n - 1, pred)
    }
}

pub proof fn lemma_select(n: int, pred: spec_fn(int) -> bool)
    requires
        n >= 0,
    ensures
        forall|k: int|
            0 <= k < select(n, pred).len() ==> 0 <= #[trigger] select(n, pred)[k] < n && pred(
                select(n, pred)[k],
            ),
        forall|a: int, b: int|
            0 <= a < b < select(n, pred).len() ==> #[trigger] select(n, pred)[a] < #[trigger] select(
                n,
                pred,
            )[b],
        forall|i: int| 0 <= i < n && pred(i) ==> #[trigger] select(n, pred).contains(i),
        forall|i: int| #[trigger] select(n, pred).contains(i) ==> 0 <= i < n && pred(i),
        select(n, pred).no_duplicates(),
    decreases n,
{
    if n > 0 {
        lemma_select(n - 1, pred);
        let prev = select(n - 1, pred);
        if pred(n - 1) {
            assert(select(n, pred) == prev.push(n - 1));
            assert forall|i: int| 0 <= i < n && pred(i) implies #[trigger] select(n, pred).contains(
                i,
            ) by {
                if i < n - 1 {
                    assert(prev.contains(i));
                    let k = choose|k: int| 0 <= k < prev.len() && prev[k] == i;
                    assert(select(n, pred)[k] == i);
                } else {
                    assert(select(n, pred)[prev.len() as int] == i);
                }
            }
            assert forall|i: int| #[trigger] select(n, pred).contains(i) implies 0 <= i < n && pred(
                i,
            ) by {
                let k = choose|k: int| 0 <= k < select(n, pred).len() && select(n, pred)[k] == i;
                if k < prev.len() {
                    assert(prev[k] == i);
                }
            }
        }
    }
}

/// Selecting by either of two predicates that never hold together selects as
/// many positions as the two selections together.
pub proof fn lemma_select_len_split(
    n: int,
    p: spec_fn(int) -> bool,
    q: spec_fn(int) -> bool,
    both: spec_fn(int) -> bool,
)
    requires
        n >= 0,
        forall|i: int| 0 <= i < n ==> !(#[trigger] p(i) && q(i)),
        forall|i: int| 0 <= i < n ==> #[trigger] both(i) == (p(i) || q(i)),
    ensures
        select(n, both).len() == select(n, p).len() + select(n, q).len(),
    decreases n,
{
    if n > 0 {
        lemma_select_len_split(n - 1, p, q, both);
    }
}

/// Predicates that agree on `0..n` select the same positions.
pub proof fn lemma_select_same(n: int, p: spec_fn(int) -> bool, q: spec_fn(int) -> bool)
    requires
        forall|i: int| 0 <= i < n ==> #[trigger] p(i) == q(i),
    ensures
        select(n, p) == select(n, q),
    decreases n,
{
    if n > 0 {
        lemma_select_same(n - 1, p, q);
    }
}

} // verus!
