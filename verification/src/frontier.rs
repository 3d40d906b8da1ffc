//! The mathematical model of a product enumerator: the products of a range,
//! the rows of its multiplication table, and what one step from either end
//! does to them.

use vstd::prelude::*;
use crate::arith::{
    lemma_div_of_multiple, lemma_mul_cancel_le, lemma_mul_cancel_lt, lemma_mul_monotone,
    lemma_mul_neighbours,
};

verus! {

/// The product of two integers, under a name that quantifiers can match on.
pub open spec fn times(a: int, b: int) -> int {
    a * b
}

/// `p` is the product of two factors that both lie in `[min, max]`.
pub open spec fn is_product(p: int, min: int, max: int) -> bool {
    exists|a: int, b: int| min <= a <= max && min <= b <= max && #[trigger] times(a, b) == p
}

/// Every product of two factors of `[min, max]`.
pub open spec fn products(min: int, max: int) -> Set<int> {
    Set::new(|p: int| is_product(p, min, max))
}

/// A product of two factors of `[min, max]` lies between the square of
/// `min` and the square of `max`.
pub proof fn lemma_product_bounds(p: int, min: int, max: int)
    requires
        0 <= min,
        is_product(p, min, max),
    ensures
        min * min <= p <= max * max,
{
    let (a, b) = choose|a: int, b: int|
        min <= a <= max && min <= b <= max && #[trigger] times(a, b) == p;
    lemma_mul_monotone(min, a, min, b);
    lemma_mul_monotone(a, max, b, max);
}

/// The counterpart of `k` in the product `v`, for a `v` that is a multiple
/// of `k`. The factor zero has the single product zero, with counterpart
/// zero.
pub open spec fn counterpart(k: int, v: int) -> int {
    if k == 0 {
        0
    } else {
        v / k
    }
}

/// The state of an enumerator: the range, the last value given out at each
/// end, and for each live factor the product its row stands at.
pub struct Frontier {
    pub min: u64,
    pub max: u64,
    pub low: Option<u64>,
    pub high: Option<u64>,
    pub rows: Map<u64, u64>,
}

impl Frontier {
    /// The state before anything was given out: every factor of the range
    /// stands at its own square.
    pub open spec fn fresh(min: u64, max: u64) -> Frontier {
        Frontier {
            min,
            max,
            low: None,
            high: None,
            rows: Map::new(|k: u64| min <= k <= max, |k: u64| (k * k) as u64),
        }
    }

    /// `p` lies above everything given out at the low end.
    pub open spec fn above_low(self, p: int) -> bool {
        self.low matches Some(l) ==> l < p
    }

    /// `p` lies below everything given out at the high end.
    pub open spec fn below_high(self, p: int) -> bool {
        self.high matches Some(h) ==> p < h
    }

    /// `p` lies strictly between the two watermarks.
    pub open spec fn pending(self, p: int) -> bool {
        self.above_low(p) && self.below_high(p)
    }

    /// The products of the range that neither end has given out yet.
    pub open spec fn remaining(self) -> Set<int> {
        Set::new(|p: int| is_product(p, self.min as int, self.max as int) && self.pending(p))
    }

    /// How far the low watermark can still rise: it stays at or below the
    /// square of `max`.
    pub open spec fn room_above(self) -> int {
        match self.low {
            Some(l) => self.max * self.max - l,
            None => self.max * self.max + 1,
        }
    }

    /// How far the high watermark can still fall: it stays at or above
    /// zero.
    pub open spec fn room_below(self) -> int {
        match self.high {
            Some(h) => h as int,
            None => self.max * self.max + 1,
        }
    }

    /// `m` is the smallest value any live row stands at.
    pub open spec fn is_lowest_row(self, m: u64) -> bool {
        &&& exists|k: u64| #[trigger] self.rows.contains_key(k) && self.rows[k] == m
        &&& forall|k: u64| #[trigger] self.rows.contains_key(k) ==> m <= self.rows[k]
    }

    /// `m` is the largest value any live row stands at.
    pub open spec fn is_highest_row(self, m: u64) -> bool {
        &&& exists|k: u64| #[trigger] self.rows.contains_key(k) && self.rows[k] == m
        &&& forall|k: u64| #[trigger] self.rows.contains_key(k) ==> self.rows[k] <= m
    }

    /// Where the row of `k` stands once every row at `m` has moved one step
    /// up.
    pub open spec fn stepped_up(self, k: u64, m: u64) -> int {
        if self.rows[k] == m {
            m + k
        } else {
            self.rows[k] as int
        }
    }

    /// Where the row of `k` stands once every row at `m` has moved one step
    /// down.
    pub open spec fn stepped_down(self, k: u64, m: u64) -> int {
        if self.rows[k] == m {
            m - k
        } else {
            self.rows[k] as int
        }
    }

    /// The row of `k` stays live after `m` left at the low end: it stands
    /// above `m`, at a product of `k` and a counterpart of the range, below
    /// the high watermark. The row of the factor zero holds no product but
    /// zero and leaves with it.
    pub open spec fn keeps_up(self, k: u64, m: u64) -> bool {
        let v = self.stepped_up(k, m);
        &&& m < v
        &&& v <= k * self.max
        &&& self.below_high(v)
    }

    /// The row of `k` stays live after `m` left at the high end: it stands
    /// below `m`, at a product of `k` and a counterpart of the range, above
    /// the low watermark. The row of the factor zero holds no product but
    /// zero and leaves with it.
    pub open spec fn keeps_down(self, k: u64, m: u64) -> bool {
        let v = self.stepped_down(k, m);
        &&& v < m
        &&& k * self.min <= v
        &&& self.above_low(v)
    }

    /// The state after `m` left at the low end: `m` is the low watermark,
    /// every row that stood at `m` has moved one step up, and the rows that
    /// stay are those that stand at a product of theirs between the
    /// watermarks.
    pub open spec fn advance_low(self, m: u64) -> Frontier {
        Frontier {
            min: self.min,
            max: self.max,
            low: Some(m),
            high: self.high,
            rows: Map::new(
                |k: u64| self.rows.contains_key(k) && self.keeps_up(k, m),
                |k: u64| self.stepped_up(k, m) as u64,
            ),
        }
    }

    /// The state after `m` left at the high end: `m` is the high watermark,
    /// every row that stood at `m` has moved one step down, and the rows
    /// that stay are those that stand at a product of theirs between the
    /// watermarks.
    pub open spec fn advance_high(self, m: u64) -> Frontier {
        Frontier {
            min: self.min,
            max: self.max,
            low: self.low,
            high: Some(m),
            rows: Map::new(
                |k: u64| self.rows.contains_key(k) && self.keeps_down(k, m),
                |k: u64| self.stepped_down(k, m) as u64,
            ),
        }
    }

    /// The live row of factor `k` stands at a pending product of `k` and a
    /// counterpart of the range, and between that product and the square of
    /// `k` nothing of the row is pending.
    pub open spec fn row_ok(self, k: u64) -> bool {
        let v = self.rows[k] as int;
        let c = counterpart(k as int, v);
        &&& self.min <= k <= self.max
        &&& self.min <= c <= self.max
        &&& v == k * c
        &&& self.pending(v)
        &&& c > k ==> !self.above_low(k * (c - 1))
        &&& c < k ==> !self.below_high(k * (c + 1))
    }

    /// The invariant of an enumerator: squares fit in 64 bits, every live
    /// row is in order, and a factor without a live row has no pending
    /// product.
    pub open spec fn wf(self) -> bool {
        &&& self.min <= self.max ==> self.max * self.max <= u64::MAX
        &&& forall|k: u64| #[trigger] self.rows.contains_key(k) ==> self.row_ok(k)
        &&& forall|k: int, j: int|
            self.min <= k <= self.max && self.min <= j <= self.max && !self.rows.contains_key(
                k as u64,
            ) ==> !self.pending(#[trigger] times(k, j))
    }
}

/// The fresh state of a range whose squares fit in 64 bits is in order, and
/// every product of the range is pending in it.
pub proof fn lemma_fresh(min: u64, max: u64)
    requires
        min <= max ==> max * max <= u64::MAX,
    ensures
        Frontier::fresh(min, max).wf(),
        Frontier::fresh(min, max).remaining() =~= products(min as int, max as int),
{
    let f = Frontier::fresh(min, max);
    assert forall|k: u64| #[trigger] f.rows.contains_key(k) implies f.row_ok(k) by {
        lemma_mul_monotone(k as int, max as int, k as int, max as int);
        if k > 0 {
            lemma_div_of_multiple(k as int, k as int);
        }
    }
}

/// What a live row stands at is a pending product of the range.
pub proof fn lemma_row_is_remaining(f: Frontier, k: u64)
    requires
        f.wf(),
        f.rows.contains_key(k),
    ensures
        f.remaining().contains(f.rows[k] as int),
        f.min * f.min <= f.rows[k] <= f.max * f.max,
{
    assert(f.row_ok(k));
    let c = counterpart(k as int, f.rows[k] as int);
    assert(times(k as int, c) == f.rows[k]);
    lemma_product_bounds(f.rows[k] as int, f.min as int, f.max as int);
}

/// Every pending product has a live row that stands at or below it.
pub proof fn lemma_covered_from_below(f: Frontier, p: int) -> (k: u64)
    requires
        f.wf(),
        f.remaining().contains(p),
    ensures
        f.rows.contains_key(k),
        f.rows[k] <= p,
{
    let (x, y) = choose|x: int, y: int|
        f.min <= x <= f.max && f.min <= y <= f.max && #[trigger] times(x, y) == p;
    let (a, b) = if x <= y {
        (x, y)
    } else {
        (y, x)
    };
    assert(times(a, b) == p) by (nonlinear_arith)
        requires
            times(x, y) == p,
            (a == x && b == y) || (a == y && b == x),
    ;
    let k = a as u64;
    assert(f.rows.contains_key(k));
    assert(f.row_ok(k));
    let v = f.rows[k] as int;
    let c = counterpart(a, v);
    if c <= a {
        lemma_mul_monotone(a, a, c, b);
    } else {
        lemma_mul_cancel_lt(a, c - 1, b);
        lemma_mul_monotone(a, a, c, b);
    }
    k
}

/// Every pending product has a live row that stands at or above it.
pub proof fn lemma_covered_from_above(f: Frontier, p: int) -> (k: u64)
    requires
        f.wf(),
        f.remaining().contains(p),
    ensures
        f.rows.contains_key(k),
        p <= f.rows[k],
{
    let (x, y) = choose|x: int, y: int|
        f.min <= x <= f.max && f.min <= y <= f.max && #[trigger] times(x, y) == p;
    let (a, b) = if x <= y {
        (x, y)
    } else {
        (y, x)
    };
    assert(times(b, a) == p) by (nonlinear_arith)
        requires
            times(x, y) == p,
            (a == x && b == y) || (a == y && b == x),
    ;
    let k = b as u64;
    assert(f.rows.contains_key(k));
    assert(f.row_ok(k));
    let v = f.rows[k] as int;
    let c = counterpart(b, v);
    if c >= b {
        lemma_mul_monotone(b, b, a, c);
    } else {
        lemma_mul_cancel_lt(b, a, c + 1);
        lemma_mul_monotone(b, b, a, c);
    }
    k
}

/// With no live row left, nothing is pending.
pub proof fn lemma_no_rows_nothing_remains(f: Frontier)
    requires
        f.wf(),
        f.rows.dom() =~= Set::empty(),
    ensures
        f.remaining() =~= Set::empty(),
{
    assert forall|p: int| !f.remaining().contains(p) by {
        if f.remaining().contains(p) {
            let k = lemma_covered_from_below(f, p);
        }
    }
}

/// The lowest row stands at the least pending product.
pub proof fn lemma_lowest_row_is_least(f: Frontier, m: u64)
    requires
        f.wf(),
        f.is_lowest_row(m),
    ensures
        f.remaining().contains(m as int),
        forall|p: int| f.remaining().contains(p) ==> m <= p,
{
    let k = choose|k: u64| #[trigger] f.rows.contains_key(k) && f.rows[k] == m;
    lemma_row_is_remaining(f, k);
    assert forall|p: int| f.remaining().contains(p) implies m <= p by {
        let k = lemma_covered_from_below(f, p);
    }
}

/// The highest row stands at the greatest pending product.
pub proof fn lemma_highest_row_is_greatest(f: Frontier, m: u64)
    requires
        f.wf(),
        f.is_highest_row(m),
    ensures
        f.remaining().contains(m as int),
        forall|p: int| f.remaining().contains(p) ==> p <= m,
{
    let k = choose|k: u64| #[trigger] f.rows.contains_key(k) && f.rows[k] == m;
    lemma_row_is_remaining(f, k);
    assert forall|p: int| f.remaining().contains(p) implies p <= m by {
        let k = lemma_covered_from_above(f, p);
    }
}

/// A row that does not stand at the lowest value stays live when that value
/// leaves: only the rows that move can leave.
pub proof fn lemma_unmoved_row_keeps_up(f: Frontier, m: u64, k: u64)
    requires
        f.wf(),
        f.is_lowest_row(m),
        f.rows.contains_key(k),
        f.rows[k] != m,
    ensures
        f.keeps_up(k, m),
{
    assert(f.row_ok(k));
    let c = counterpart(k as int, f.rows[k] as int);
    lemma_mul_monotone(k as int, k as int, c, f.max as int);
}

/// A row that does not stand at the highest value stays live when that
/// value leaves: only the rows that move can leave.
pub proof fn lemma_unmoved_row_keeps_down(f: Frontier, m: u64, k: u64)
    requires
        f.wf(),
        f.is_highest_row(m),
        f.rows.contains_key(k),
        f.rows[k] != m,
    ensures
        f.keeps_down(k, m),
{
    assert(f.row_ok(k));
    let c = counterpart(k as int, f.rows[k] as int);
    lemma_mul_monotone(k as int, k as int, f.min as int, c);
}

/// A row that is live after a step at the low end is in order.
proof fn lemma_row_after_low(f: Frontier, m: u64, k: u64)
    requires
        f.wf(),
        f.is_lowest_row(m),
        f.advance_low(m).rows.contains_key(k),
    ensures
        f.advance_low(m).row_ok(k),
{
    let g = f.advance_low(m);
    let kk = k as int;
    let v = f.rows[k] as int;
    let c = counterpart(kk, v);
    assert(f.row_ok(k));
    let low = choose|k: u64| #[trigger] f.rows.contains_key(k) && f.rows[k] == m;
    assert(f.row_ok(low));
    if v == m {
        assert(f.keeps_up(k, m));
        lemma_mul_neighbours(kk, c);
        lemma_div_of_multiple(kk, c + 1);
        lemma_mul_cancel_le(kk, c + 1, f.max as int);
        lemma_mul_monotone(kk, f.max as int, f.max as int, f.max as int);
        assert(g.rows[k] == m + k);
        assert(counterpart(kk, m + k) == c + 1);
        if c + 1 < kk {
            lemma_mul_neighbours(kk, c + 1);
        }
    }
}

/// A factor without a live row after a step at the low end has no pending
/// product.
proof fn lemma_spent_after_low(f: Frontier, m: u64, k: int, j: int)
    requires
        f.wf(),
        f.is_lowest_row(m),
        f.min <= k <= f.max,
        f.min <= j <= f.max,
        !f.advance_low(m).rows.contains_key(k as u64),
    ensures
        !f.advance_low(m).pending(times(k, j)),
{
    let g = f.advance_low(m);
    let low = choose|k: u64| #[trigger] f.rows.contains_key(k) && f.rows[k] == m;
    assert(f.row_ok(low));
    if f.rows.contains_key(k as u64) {
        assert(f.row_ok(k as u64));
        let c = counterpart(k, m as int);
        if f.rows[k as u64] != m {
            lemma_unmoved_row_keeps_up(f, m, k as u64);
        }
        assert(f.rows[k as u64] == m);
        assert(!f.keeps_up(k as u64, m));
        if k == 0 {
            assert(times(k, j) == 0) by (nonlinear_arith)
                requires
                    k == 0,
            ;
        } else if j <= c {
            lemma_mul_monotone(k, k, j, c);
        } else {
            lemma_mul_neighbours(k, c);
            lemma_mul_monotone(k, k, c + 1, j);
            if m + k > k * f.max {
                lemma_mul_monotone(k, k, j, f.max as int);
            }
        }
    } else {
        assert(!f.pending(times(k, j)));
    }
}

/// A step at the low end keeps the state in order and takes exactly the
/// least pending product out of what remains.
pub proof fn lemma_advance_low(f: Frontier, m: u64)
    requires
        f.wf(),
        f.is_lowest_row(m),
    ensures
        f.advance_low(m).wf(),
        f.advance_low(m).remaining() =~= f.remaining().remove(m as int),
{
    let g = f.advance_low(m);
    lemma_lowest_row_is_least(f, m);
    assert forall|k: u64| #[trigger] g.rows.contains_key(k) implies g.row_ok(k) by {
        lemma_row_after_low(f, m, k);
    }
    assert forall|k: int, j: int|
        g.min <= k <= g.max && g.min <= j <= g.max && !g.rows.contains_key(
            k as u64,
        ) implies !g.pending(#[trigger] times(k, j)) by {
        lemma_spent_after_low(f, m, k, j);
    }
    assert forall|p: int| g.remaining().contains(p) <==> f.remaining().remove(m as int).contains(
        p,
    ) by {
        if f.remaining().contains(p) {
            assert(m <= p);
        }
    }
}

/// A row that is live after a step at the high end is in order.
proof fn lemma_row_after_high(f: Frontier, m: u64, k: u64)
    requires
        f.wf(),
        f.is_highest_row(m),
        f.advance_high(m).rows.contains_key(k),
    ensures
        f.advance_high(m).row_ok(k),
{
    let g = f.advance_high(m);
    let kk = k as int;
    let v = f.rows[k] as int;
    let c = counterpart(kk, v);
    assert(f.row_ok(k));
    let top = choose|k: u64| #[trigger] f.rows.contains_key(k) && f.rows[k] == m;
    assert(f.row_ok(top));
    if v == m {
        assert(f.keeps_down(k, m));
        lemma_mul_neighbours(kk, c);
        lemma_div_of_multiple(kk, c - 1);
        lemma_mul_cancel_le(kk, f.min as int, c - 1);
        assert(g.rows[k] == m - k);
        assert(counterpart(kk, m - k) == c - 1);
        if c - 1 > kk {
            lemma_mul_neighbours(kk, c - 1);
        }
    }
}

/// A factor without a live row after a step at the high end has no pending
/// product.
proof fn lemma_spent_after_high(f: Frontier, m: u64, k: int, j: int)
    requires
        f.wf(),
        f.is_highest_row(m),
        f.min <= k <= f.max,
        f.min <= j <= f.max,
        !f.advance_high(m).rows.contains_key(k as u64),
    ensures
        !f.advance_high(m).pending(times(k, j)),
{
    let g = f.advance_high(m);
    let top = choose|k: u64| #[trigger] f.rows.contains_key(k) && f.rows[k] == m;
    assert(f.row_ok(top));
    if f.rows.contains_key(k as u64) {
        assert(f.row_ok(k as u64));
        let c = counterpart(k, m as int);
        if f.rows[k as u64] != m {
            lemma_unmoved_row_keeps_down(f, m, k as u64);
        }
        assert(f.rows[k as u64] == m);
        assert(!f.keeps_down(k as u64, m));
        if k == 0 {
            assert(times(k, j) == 0) by (nonlinear_arith)
                requires
                    k == 0,
            ;
        } else if j >= c {
            lemma_mul_monotone(k, k, c, j);
        } else {
            lemma_mul_neighbours(k, c);
            lemma_mul_monotone(k, k, j, c - 1);
            if m - k < k * f.min {
                lemma_mul_monotone(k, k, f.min as int, j);
            }
        }
    } else {
        assert(!f.pending(times(k, j)));
    }
}

/// A step at the high end keeps the state in order and takes exactly the
/// greatest pending product out of what remains.
pub proof fn lemma_advance_high(f: Frontier, m: u64)
    requires
        f.wf(),
        f.is_highest_row(m),
    ensures
        f.advance_high(m).wf(),
        f.advance_high(m).remaining() =~= f.remaining().remove(m as int),
{
    let g = f.advance_high(m);
    lemma_highest_row_is_greatest(f, m);
    assert forall|k: u64| #[trigger] g.rows.contains_key(k) implies g.row_ok(k) by {
        lemma_row_after_high(f, m, k);
    }
    assert forall|k: int, j: int|
        g.min <= k <= g.max && g.min <= j <= g.max && !g.rows.contains_key(
            k as u64,
        ) implies !g.pending(#[trigger] times(k, j)) by {
        lemma_spent_after_high(f, m, k, j);
    }
    assert forall|p: int| g.remaining().contains(p) <==> f.remaining().remove(m as int).contains(
        p,
    ) by {
        if f.remaining().contains(p) {
            assert(p <= m);
        }
    }
}

} // verus!
