//! Sequences in strict order, and the set of values that one holds.

use vstd::prelude::*;
use crate::frontier::{is_product, products};

verus! {

/// Each element is smaller than every later one.
pub open spec fn ascending(s: Seq<u64>) -> bool {
    forall|i: int, j: int| 0 <= i < j < s.len() ==> s[i] < s[j]
}

/// Each element is larger than every later one.
pub open spec fn descending(s: Seq<u64>) -> bool {
    forall|i: int, j: int| 0 <= i < j < s.len() ==> s[i] > s[j]
}

/// `p` is an element of `s`.
pub open spec fn occurs(s: Seq<u64>, p: int) -> bool {
    exists|i: int| 0 <= i < s.len() && #[trigger] s[i] == p
}

/// The elements of `s` are the members of `values`, no more and no less.
pub open spec fn holds_exactly(s: Seq<u64>, values: Set<int>) -> bool {
    forall|p: int| values.contains(p) <==> #[trigger] occurs(s, p)
}

/// After one more element, a sequence holds what it held and that element.
pub proof fn lemma_occurs_after_push(s: Seq<u64>, v: u64)
    ensures
        forall|p: int| #[trigger] occurs(s.push(v), p) <==> occurs(s, p) || p == v,
{
    let t = s.push(v);
    assert forall|p: int| #[trigger] occurs(t, p) <==> occurs(s, p) || p == v by {
        if occurs(s, p) {
            let i = choose|i: int| 0 <= i < s.len() && #[trigger] s[i] == p;
            assert(t[i] == p);
        }
        if p == v {
            assert(t[s.len() as int] == p);
        }
        if occurs(t, p) {
            let i = choose|i: int| 0 <= i < t.len() && #[trigger] t[i] == p;
            if i < s.len() {
                assert(s[i] == p);
            }
        }
    }
}

/// A descending sequence read backwards is ascending, with the same
/// elements.
pub proof fn lemma_reverse_of_descending(s: Seq<u64>)
    requires
        descending(s),
    ensures
        ascending(s.reverse()),
        forall|p: int| occurs(s.reverse(), p) <==> occurs(s, p),
{
    let r = s.reverse();
    assert forall|i: int, j: int| 0 <= i < j < r.len() implies r[i] < r[j] by {
        assert(s[s.len() - 1 - j] > s[s.len() - 1 - i]);
    }
    assert forall|p: int| occurs(r, p) implies occurs(s, p) by {
        let i = choose|i: int| 0 <= i < r.len() && #[trigger] r[i] == p;
        assert(s[s.len() - 1 - i] == p);
    }
    assert forall|p: int| occurs(s, p) implies occurs(r, p) by {
        let i = choose|i: int| 0 <= i < s.len() && #[trigger] s[i] == p;
        assert(r[s.len() - 1 - i] == p);
    }
}

/// Two ascending sequences with the same elements are the same sequence.
pub proof fn lemma_ascending_is_unique(a: Seq<u64>, b: Seq<u64>)
    requires
        ascending(a),
        ascending(b),
        forall|p: int| occurs(a, p) <==> occurs(b, p),
    ensures
        a =~= b,
    decreases a.len(),
{
    if a.len() == 0 {
        if b.len() > 0 {
            assert(occurs(b, b[0] as int)) by {
                assert(b[0] == b[0] as int);
            }
            assert(occurs(a, b[0] as int));
        }
    } else {
        let top = a.last();
        assert(occurs(a, top as int)) by {
            assert(a[a.len() - 1] == top as int);
        }
        assert(occurs(b, top as int));
        let j = choose|j: int| 0 <= j < b.len() && #[trigger] b[j] == top as int;
        assert(occurs(b, b.last() as int)) by {
            assert(b[b.len() - 1] == b.last() as int);
        }
        assert(occurs(a, b.last() as int));
        let i = choose|i: int| 0 <= i < a.len() && #[trigger] a[i] == b.last() as int;
        assert(b.last() == top);
        let a0 = a.drop_last();
        let b0 = b.drop_last();
        assert forall|p: int| occurs(a0, p) implies occurs(b0, p) by {
            let i = choose|i: int| 0 <= i < a0.len() && #[trigger] a0[i] == p;
            assert(a[i] == p);
            assert(occurs(a, p));
            let j = choose|j: int| 0 <= j < b.len() && #[trigger] b[j] == p;
            assert(j < b.len() - 1);
            assert(b0[j] == p);
        }
        assert forall|p: int| occurs(b0, p) implies occurs(a0, p) by {
            let j = choose|j: int| 0 <= j < b0.len() && #[trigger] b0[j] == p;
            assert(b[j] == p);
            assert(occurs(b, p));
            let i = choose|i: int| 0 <= i < a.len() && #[trigger] a[i] == p;
            assert(i < a.len() - 1);
            assert(a0[i] == p);
        }
        lemma_ascending_is_unique(a0, b0);
        assert(a =~= a0.push(top));
        assert(b =~= b0.push(top));
    }
}

/// The values of a set, given out largest first and then read backwards,
/// come in the same order as given out smallest first.
pub proof fn lemma_descending_reversed_is_ascending(
    values: Set<int>,
    up: Seq<u64>,
    down: Seq<u64>,
)
    requires
        ascending(up),
        holds_exactly(up, values),
        descending(down),
        holds_exactly(down, values),
    ensures
        down.reverse() =~= up,
{
    lemma_reverse_of_descending(down);
    assert forall|p: int| occurs(down.reverse(), p) <==> occurs(up, p) by {
        assert(values.contains(p) <==> occurs(up, p));
        assert(values.contains(p) <==> occurs(down, p));
    }
    lemma_ascending_is_unique(down.reverse(), up);
}

/// Smallest first, the products of `[min, max]` come each once and in
/// strictly rising order, and each value that comes is the product of two
/// factors of the range.
pub proof fn lemma_ascending_drain(min: u64, max: u64, up: Seq<u64>)
    requires
        ascending(up),
        holds_exactly(up, products(min as int, max as int)),
    ensures
        forall|i: int|
            0 <= i < up.len() ==> is_product(#[trigger] up[i] as int, min as int, max as int),
        forall|i: int, j: int| 0 <= i < j < up.len() ==> up[i] < up[j],
        up.no_duplicates(),
{
    assert forall|i: int| 0 <= i < up.len() implies is_product(
        #[trigger] up[i] as int,
        min as int,
        max as int,
    ) by {
        assert(occurs(up, up[i] as int));
    }
}

/// The products of `[min, max]` given out largest first, read backwards,
/// are the products of `[min, max]` given out smallest first.
pub proof fn lemma_drains_agree(min: u64, max: u64, up: Seq<u64>, down: Seq<u64>)
    requires
        ascending(up),
        holds_exactly(up, products(min as int, max as int)),
        descending(down),
        holds_exactly(down, products(min as int, max as int)),
    ensures
        down.reverse() =~= up,
{
    lemma_descending_reversed_is_ascending(products(min as int, max as int), up, down);
}

} // verus!
