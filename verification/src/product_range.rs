//! The enumerator of the products of a range: it gives them out in order,
//! smallest first from one end and largest first from the other, without
//! ever holding the whole multiplication table.

use vstd::prelude::*;
use std::collections::HashMap;
use vstd::std_specs::iter::IteratorSpec;
use crate::arith::{lemma_mul_monotone, lemma_square_leaves_room};
use crate::frontier::{
    lemma_advance_high, lemma_advance_low, lemma_fresh, lemma_highest_row_is_greatest,
    lemma_lowest_row_is_least, lemma_no_rows_nothing_remains, lemma_product_bounds,
    lemma_row_is_remaining, lemma_unmoved_row_keeps_down, lemma_unmoved_row_keeps_up, products,
    Frontier,
};
use crate::order::{ascending, descending, holds_exactly, lemma_occurs_after_push, occurs};

verus! {

/// The entries `s` are the entries of `m`, each key once.
spec fn lists(s: Seq<(&u64, &u64)>, m: Map<u64, u64>) -> bool {
    &&& forall|i: int|
        0 <= i < s.len() ==> m.contains_key(*(#[trigger] s[i]).0) && m[*s[i].0] == *s[i].1
    &&& forall|k: u64| #[trigger]
        m.contains_key(k) ==> exists|i: int| 0 <= i < s.len() && *(#[trigger] s[i]).0 == k
    &&& forall|i: int, j: int|
        0 <= i < j < s.len() ==> *(#[trigger] s[i]).0 != *(#[trigger] s[j]).0
}

/// One of the first `upto` entries of `s` has this key and this value.
spec fn listed(s: Seq<(&u64, &u64)>, upto: int, key: u64, value: u64) -> bool {
    exists|i: int| 0 <= i < upto && *(#[trigger] s[i]).0 == key && *s[i].1 == value
}

proof fn lemma_lists(s: Seq<(&u64, &u64)>, m: Map<u64, u64>)
    requires
        s.no_duplicates(),
        forall|i: int|
            0 <= i < s.len() ==> m.contains_key(*(#[trigger] s[i]).0) && m[*s[i].0] == *s[i].1,
        forall|k: u64| #[trigger] m.contains_key(k) ==> s.contains((&k, &m[k])),
    ensures
        lists(s, m),
{
    assert forall|k: u64| #[trigger] m.contains_key(k) implies exists|i: int|
        0 <= i < s.len() && *(#[trigger] s[i]).0 == k by {
        let e = (&k, &m[k]);
        assert(s.contains(e));
        let i = choose|i: int| 0 <= i < s.len() && s[i] == e;
        assert(*s[i].0 == k);
    }
    assert forall|i: int, j: int| 0 <= i < j < s.len() implies *(#[trigger] s[i]).0 != *(
    #[trigger] s[j]).0 by {
        if *s[i].0 == *s[j].0 {
            assert(*s[i].1 == *s[j].1);
            assert(s[i] == s[j]);
        }
    }
}

/// `k` is one of the first `upto` keys.
spec fn among(keys: Seq<u64>, upto: int, k: u64) -> bool {
    exists|j: int| 0 <= j < upto && #[trigger] keys[j] == k
}

/// The rows while a step at the low end is under way: of the rows that
/// stood at `m`, the first `upto` of `keys` have moved up or are gone.
spec fn rows_moving_up(f: Frontier, m: u64, keys: Seq<u64>, upto: int) -> Map<u64, u64> {
    Map::new(
        |k: u64| f.rows.contains_key(k) && (among(keys, upto, k) ==> f.keeps_up(k, m)),
        |k: u64|
            if among(keys, upto, k) {
                (m + k) as u64
            } else {
                f.rows[k]
            },
    )
}

/// The rows while a step at the high end is under way: of the rows that
/// stood at `m`, the first `upto` of `keys` have moved down or are gone.
spec fn rows_moving_down(f: Frontier, m: u64, keys: Seq<u64>, upto: int) -> Map<u64, u64> {
    Map::new(
        |k: u64| f.rows.contains_key(k) && (among(keys, upto, k) ==> f.keeps_down(k, m)),
        |k: u64|
            if among(keys, upto, k) {
                (m - k) as u64
            } else {
                f.rows[k]
            },
    )
}

/// `keys` names each row that stands at `m` once, and no other.
spec fn names_rows_at(f: Frontier, m: u64, keys: Seq<u64>) -> bool {
    &&& keys.no_duplicates()
    &&& forall|k: u64| keys.contains(k) <==> f.rows.contains_key(k) && f.rows[k] == m
}

proof fn lemma_among_next(keys: Seq<u64>, upto: int)
    requires
        0 <= upto < keys.len(),
        keys.no_duplicates(),
    ensures
        !among(keys, upto, keys[upto]),
        forall|k: u64| #[trigger]
            among(keys, upto + 1, k) <==> among(keys, upto, k) || k == keys[upto],
{
    if among(keys, upto, keys[upto]) {
        let j = choose|j: int| 0 <= j < upto && #[trigger] keys[j] == keys[upto];
        assert(keys[j] != keys[upto]);
    }
    assert forall|k: u64| #[trigger] among(keys, upto + 1, k) implies among(keys, upto, k) || k
        == keys[upto] by {
        let j = choose|j: int| 0 <= j < upto + 1 && #[trigger] keys[j] == k;
        if j < upto {
            assert(among(keys, upto, k));
        }
    }
    assert forall|k: u64| among(keys, upto, k) || k == keys[upto] implies #[trigger] among(
        keys,
        upto + 1,
        k,
    ) by {
        if k == keys[upto] {
            assert(keys[upto] == k);
        } else {
            let j = choose|j: int| 0 <= j < upto && #[trigger] keys[j] == k;
            assert(keys[j] == k);
        }
    }
}

proof fn lemma_among_all(f: Frontier, m: u64, keys: Seq<u64>)
    requires
        names_rows_at(f, m, keys),
    ensures
        forall|k: u64| #[trigger]
            among(keys, keys.len() as int, k) <==> f.rows.contains_key(k) && f.rows[k] == m,
{
    assert forall|k: u64| #[trigger] among(keys, keys.len() as int, k) implies f.rows.contains_key(
        k,
    ) && f.rows[k] == m by {
        let j = choose|j: int| 0 <= j < keys.len() && #[trigger] keys[j] == k;
        assert(keys.contains(k));
    }
    assert forall|k: u64| f.rows.contains_key(k) && f.rows[k] == m implies #[trigger] among(
        keys,
        keys.len() as int,
        k,
    ) by {
        assert(keys.contains(k));
        let j = choose|j: int| 0 <= j < keys.len() && keys[j] == k;
        assert(keys[j] == k);
    }
}

/// An enumerator of the products of two factors of a closed range. Each
/// factor has a row, which stands at one product of that factor; a step
/// gives out the extreme of what the rows stand at and moves those rows on.
pub struct ProductRange {
    min: u64,
    max: u64,
    last_min: Option<u64>,
    last_max: Option<u64>,
    data: HashMap<u64, u64>,
}

impl View for ProductRange {
    type V = Frontier;

    closed spec fn view(&self) -> Frontier {
        Frontier {
            min: self.min,
            max: self.max,
            low: self.last_min,
            high: self.last_max,
            rows: self.data@,
        }
    }
}

impl ProductRange {
    /// The enumerator is in order.
    pub open spec fn wf(&self) -> bool {
        self@.wf()
    }

    /// An enumerator over the products of `[min, max]`, none of them given
    /// out yet: the row of each factor stands at the factor's square. With
    /// `min > max` there is no product. The square of `max` has to fit in
    /// 64 bits.
    pub fn new(min: u64, max: u64) -> (r: ProductRange)
        requires
            min <= max ==> max * max <= u64::MAX,
        ensures
            r@ == Frontier::fresh(min, max),
            r.wf(),
            r@.remaining() == products(min as int, max as int),
    {
        broadcast use vstd::std_specs::hash::group_hash_axioms;
        let mut data: HashMap<u64, u64> = HashMap::new();
        if min <= max {
            proof {
                lemma_square_leaves_room(max as int);
                assert(max < u64::MAX) by (nonlinear_arith)
                    requires
                        max * max + max <= u64::MAX,
                ;
            }
            let mut k: u64 = min;
            while k <= max
                invariant
                    min <= k <= max + 1,
                    max < u64::MAX,
                    max * max + max <= u64::MAX,
                    data@ =~= Map::new(|j: u64| min <= j < k, |j: u64| (j * j) as u64),
                decreases max + 1 - k,
            {
                proof {
                    lemma_mul_monotone(k as int, max as int, k as int, max as int);
                }
                data.insert(k, k * k);
                k += 1;
            }
        }
        let r = ProductRange { min, max, last_min: None, last_max: None, data };
        proof {
            lemma_fresh(min, max);
            assert(r@.rows =~= Frontier::fresh(min, max).rows);
        }
        r
    }

    /// The factors whose rows stand at `value`, each once, in no particular
    /// order.
    pub fn find_keys(&self, value: u64) -> (keys: Vec<u64>)
        ensures
            keys@.no_duplicates(),
            forall|k: u64|
                keys@.contains(k) <==> self@.rows.contains_key(k) && self@.rows[k] == value,
    {
        broadcast use vstd::std_specs::hash::group_hash_axioms;
        let mut keys: Vec<u64> = Vec::new();
        let iter = self.data.iter();
        let ghost listing = iter.remaining();
        let ghost mut seen: int = 0;
        proof {
            lemma_lists(listing, self.data@);
        }
        for entry in it: iter
            invariant
                it.seq() == listing,
                it.index() == seen,
                lists(listing, self.data@),
                keys@.no_duplicates(),
                forall|j: int|
                    0 <= j < keys@.len() ==> listed(listing, seen, #[trigger] keys@[j], value),
                forall|i: int|
                    0 <= i < seen && *(#[trigger] listing[i]).1 == value ==> keys@.contains(
                        *listing[i].0,
                    ),
        {
            let (k, v) = entry;
            let ghost before = keys@;
            if *v == value {
                keys.push(*k);
            }
            proof {
                let after = keys@;
                if *v == value {
                    assert forall|a: int, b: int| 0 <= a < b < after.len() implies after[a]
                        != after[b] by {
                        if b == before.len() {
                            assert(listed(listing, seen, before[a], value));
                            let i = choose|i: int|
                                0 <= i < seen && *(#[trigger] listing[i]).0 == before[a]
                                    && *listing[i].1 == value;
                            assert(*listing[i].0 != *listing[seen].0);
                        }
                    }
                }
                assert forall|j: int| 0 <= j < after.len() implies listed(
                    listing,
                    seen + 1,
                    #[trigger] after[j],
                    value,
                ) by {
                    if j == before.len() {
                        assert(*listing[seen].0 == after[j]);
                    } else {
                        assert(listed(listing, seen, before[j], value));
                        let i = choose|i: int|
                            0 <= i < seen && *(#[trigger] listing[i]).0 == before[j]
                                && *listing[i].1 == value;
                        assert(*listing[i].0 == after[j]);
                    }
                }
                assert forall|i: int|
                    0 <= i < seen + 1 && *(#[trigger] listing[i]).1 == value implies after.contains(
                    *listing[i].0,
                ) by {
                    if i == seen {
                        assert(after[before.len() as int] == *k);
                    } else {
                        let j = choose|j: int| 0 <= j < before.len() && before[j] == *listing[i].0;
                        assert(after[j] == *listing[i].0);
                    }
                }
                seen = seen + 1;
            }
        }
        proof {
            assert(seen == listing.len());
            assert forall|k: u64| keys@.contains(k) implies self.data@.contains_key(k)
                && self.data@[k] == value by {
                let j = choose|j: int| 0 <= j < keys@.len() && keys@[j] == k;
                assert(listed(listing, seen, keys@[j], value));
            }
            assert forall|k: u64|
                self.data@.contains_key(k) && self.data@[k] == value implies keys@.contains(k) by {
                let i = choose|i: int| 0 <= i < listing.len() && *(#[trigger] listing[i]).0 == k;
                assert(*listing[i].1 == value);
            }
        }
        keys
    }

    /// The smallest value that any row stands at.
    fn lowest(&self) -> (m: u64)
        requires
            self@.rows.dom().len() > 0,
        ensures
            self@.is_lowest_row(m),
    {
        broadcast use vstd::std_specs::hash::group_hash_axioms;
        let mut best: Option<u64> = None;
        let iter = self.data.iter();
        let ghost listing = iter.remaining();
        let ghost mut seen: int = 0;
        proof {
            lemma_lists(listing, self.data@);
        }
        for entry in it: iter
            invariant
                it.seq() == listing,
                it.index() == seen,
                lists(listing, self.data@),
                seen > 0 ==> best is Some,
                best matches Some(m) ==> exists|i: int|
                    0 <= i < seen && *(#[trigger] listing[i]).1 == m,
                best matches Some(m) ==> forall|i: int|
                    0 <= i < seen ==> m <= *(#[trigger] listing[i]).1,
        {
            let (_, v) = entry;
            let take = match best {
                Some(m) => *v < m,
                None => true,
            };
            proof {
                if let Some(m) = best {
                    let i = choose|i: int| 0 <= i < seen && *(#[trigger] listing[i]).1 == m;
                    assert(*listing[i].1 == m);
                }
                assert(*listing[seen].1 == *v);
            }
            if take {
                best = Some(*v);
            }
            proof {
                seen = seen + 1;
            }
        }
        proof {
            assert(seen == listing.len());
            assert(listing.len() == self.data@.dom().len());
            let m = best->0;
            let i = choose|i: int| 0 <= i < seen && *(#[trigger] listing[i]).1 == m;
            assert(self.data@.contains_key(*listing[i].0) && self.data@[*listing[i].0] == m);
            assert forall|k: u64| #[trigger] self@.rows.contains_key(k) implies m
                <= self@.rows[k] by {
                let j = choose|j: int| 0 <= j < listing.len() && *(#[trigger] listing[j]).0 == k;
                assert(m <= *listing[j].1);
            }
        }
        best.unwrap()
    }

    /// The largest value that any row stands at.
    fn highest(&self) -> (m: u64)
        requires
            self@.rows.dom().len() > 0,
        ensures
            self@.is_highest_row(m),
    {
        broadcast use vstd::std_specs::hash::group_hash_axioms;
        let mut best: Option<u64> = None;
        let iter = self.data.iter();
        let ghost listing = iter.remaining();
        let ghost mut seen: int = 0;
        proof {
            lemma_lists(listing, self.data@);
        }
        for entry in it: iter
            invariant
                it.seq() == listing,
                it.index() == seen,
                lists(listing, self.data@),
                seen > 0 ==> best is Some,
                best matches Some(m) ==> exists|i: int|
                    0 <= i < seen && *(#[trigger] listing[i]).1 == m,
                best matches Some(m) ==> forall|i: int|
                    0 <= i < seen ==> *(#[trigger] listing[i]).1 <= m,
        {
            let (_, v) = entry;
            let take = match best {
                Some(m) => *v > m,
                None => true,
            };
            proof {
                if let Some(m) = best {
                    let i = choose|i: int| 0 <= i < seen && *(#[trigger] listing[i]).1 == m;
                    assert(*listing[i].1 == m);
                }
                assert(*listing[seen].1 == *v);
            }
            if take {
                best = Some(*v);
            }
            proof {
                seen = seen + 1;
            }
        }
        proof {
            assert(seen == listing.len());
            assert(listing.len() == self.data@.dom().len());
            let m = best->0;
            let i = choose|i: int| 0 <= i < seen && *(#[trigger] listing[i]).1 == m;
            assert(self.data@.contains_key(*listing[i].0) && self.data@[*listing[i].0] == m);
            assert forall|k: u64| #[trigger] self@.rows.contains_key(k) implies self@.rows[k]
                <= m by {
                let j = choose|j: int| 0 <= j < listing.len() && *(#[trigger] listing[j]).0 == k;
                assert(*listing[j].1 <= m);
            }
        }
        best.unwrap()
    }
    /// Gives out the smallest product that has not been given out at
    /// either end, or `None` when none is left. Every row that stood at that
    /// product moves one step up, so a product that several rows reach
    /// comes once.
    pub fn next(&mut self) -> (r: Option<u64>)
        requires
            old(self).wf(),
        ensures
            final(self).wf(),
            match r {
                Some(m) => {
                    &&& old(self)@.is_lowest_row(m)
                    &&& old(self)@.remaining().contains(m as int)
                    &&& forall|p: int| old(self)@.remaining().contains(p) ==> m <= p
                    &&& final(self)@ == old(self)@.advance_low(m)
                    &&& final(self)@.remaining() == old(self)@.remaining().remove(m as int)
                },
                None => {
                    &&& old(self)@.remaining() == Set::<int>::empty()
                    &&& final(self)@ == old(self)@
                },
            },
    {
        broadcast use vstd::std_specs::hash::group_hash_axioms;
        if self.data.is_empty() {
            proof {
                lemma_no_rows_nothing_remains(self@);
            }
            return None;
        }
        let min_val: u64 = self.lowest();
        let to_update = self.find_keys(min_val);
        let ghost f = self@;
        proof {
            lemma_lowest_row_is_least(f, min_val);
            lemma_advance_low(f, min_val);
        }
        let mut i: usize = 0;
        while i < to_update.len()
            invariant
                i <= to_update.len(),
                f.wf(),
                f.is_lowest_row(min_val),
                names_rows_at(f, min_val, to_update@),
                self.min == f.min,
                self.max == f.max,
                self.last_min == f.low,
                self.last_max == f.high,
                self.data@ =~= rows_moving_up(f, min_val, to_update@, i as int),
            decreases to_update.len() - i,
        {
            let k: u64 = to_update[i];
            proof {
                lemma_among_next(to_update@, i as int);
                assert(to_update@.contains(k));
                assert(f.row_ok(k));
                lemma_row_is_remaining(f, k);
                lemma_square_leaves_room(f.max as int);
                lemma_mul_monotone(k as int, f.max as int, f.max as int, f.max as int);
            }
            let moved: u64 = min_val + k;
            let keep = k != 0 && moved <= k * self.max && match self.last_max {
                Some(h) => moved < h,
                None => true,
            };
            assert(keep == f.keeps_up(k, min_val));
            if keep {
                self.data.insert(k, moved);
            } else {
                self.data.remove(&k);
            }
            i += 1;
        }
        proof {
            lemma_among_all(f, min_val, to_update@);
            assert forall|k: u64|
                f.rows.contains_key(k) && f.rows[k] != min_val implies f.keeps_up(k, min_val) by {
                lemma_unmoved_row_keeps_up(f, min_val, k);
            }
            assert(self.data@ =~= f.advance_low(min_val).rows);
        }
        self.last_min = Some(min_val);
        Some(min_val)
    }

    /// Gives out the largest product that has not been given out at either
    /// end, or `None` when none is left. Every row that stood at that
    /// product moves one step down, so a product that several rows reach
    /// comes once.
    pub fn next_back(&mut self) -> (r: Option<u64>)
        requires
            old(self).wf(),
        ensures
            final(self).wf(),
            match r {
                Some(m) => {
                    &&& old(self)@.is_highest_row(m)
                    &&& old(self)@.remaining().contains(m as int)
                    &&& forall|p: int| old(self)@.remaining().contains(p) ==> p <= m
                    &&& final(self)@ == old(self)@.advance_high(m)
                    &&& final(self)@.remaining() == old(self)@.remaining().remove(m as int)
                },
                None => {
                    &&& old(self)@.remaining() == Set::<int>::empty()
                    &&& final(self)@ == old(self)@
                },
            },
    {
        broadcast use vstd::std_specs::hash::group_hash_axioms;
        if self.data.is_empty() {
            proof {
                lemma_no_rows_nothing_remains(self@);
            }
            return None;
        }
        let max_val: u64 = self.highest();
        let to_update = self.find_keys(max_val);
        let ghost f = self@;
        proof {
            lemma_highest_row_is_greatest(f, max_val);
            lemma_advance_high(f, max_val);
        }
        let mut i: usize = 0;
        while i < to_update.len()
            invariant
                i <= to_update.len(),
                f.wf(),
                f.is_highest_row(max_val),
                names_rows_at(f, max_val, to_update@),
                self.min == f.min,
                self.max == f.max,
                self.last_min == f.low,
                self.last_max == f.high,
                self.data@ =~= rows_moving_down(f, max_val, to_update@, i as int),
            decreases to_update.len() - i,
        {
            let k: u64 = to_update[i];
            proof {
                lemma_among_next(to_update@, i as int);
                assert(to_update@.contains(k));
                assert(f.row_ok(k));
                lemma_mul_monotone(k as int, f.max as int, f.min as int, f.max as int);
            }
            let keep = k != 0 && max_val >= k && max_val - k >= k * self.min
                && match self.last_min {
                Some(l) => max_val - k > l,
                None => true,
            };
            assert(keep == f.keeps_down(k, max_val));
            if keep {
                self.data.insert(k, max_val - k);
            } else {
                self.data.remove(&k);
            }
            i += 1;
        }
        proof {
            lemma_among_all(f, max_val, to_update@);
            assert forall|k: u64|
                f.rows.contains_key(k) && f.rows[k] != max_val implies f.keeps_down(k, max_val) by {
                lemma_unmoved_row_keeps_down(f, max_val, k);
            }
            assert(self.data@ =~= f.advance_high(max_val).rows);
        }
        self.last_max = Some(max_val);
        Some(max_val)
    }

    /// Gives out everything that is left, smallest first.
    pub fn drain(&mut self) -> (out: Vec<u64>)
        requires
            old(self).wf(),
        ensures
            final(self).wf(),
            final(self)@.remaining() == Set::<int>::empty(),
            final(self)@.min == old(self)@.min,
            final(self)@.max == old(self)@.max,
            final(self)@.high == old(self)@.high,
            final(self)@.low == if out@.len() > 0 {
                Some(out@.last())
            } else {
                old(self)@.low
            },
            ascending(out@),
            holds_exactly(out@, old(self)@.remaining()),
    {
        let mut out: Vec<u64> = Vec::new();
        let ghost start = self@;
        loop
            invariant
                self.wf(),
                self@.min == start.min,
                self@.max == start.max,
                self@.high == start.high,
                self@.low == if out@.len() > 0 {
                    Some(out@.last())
                } else {
                    start.low
                },
                ascending(out@),
                forall|i: int| 0 <= i < out@.len() ==> !self@.above_low(#[trigger] out@[i] as int),
                forall|p: int|
                    start.remaining().contains(p) <==> self@.remaining().contains(p) || occurs(
                        out@,
                        p,
                    ),
            ensures
                self.wf(),
                self@.remaining() == Set::<int>::empty(),
                self@.min == start.min,
                self@.max == start.max,
                self@.high == start.high,
                self@.low == if out@.len() > 0 {
                    Some(out@.last())
                } else {
                    start.low
                },
                ascending(out@),
                holds_exactly(out@, start.remaining()),
            decreases self@.room_above(),
        {
            let ghost before = self@;
            let ghost given = out@;
            match self.next() {
                None => {
                    break ;
                },
                Some(m) => {
                    out.push(m);
                    proof {
                        lemma_product_bounds(m as int, before.min as int, before.max as int);
                        lemma_occurs_after_push(given, m);
                        assert forall|p: int|
                            start.remaining().contains(p) <==> self@.remaining().contains(p)
                                || occurs(out@, p) by {
                            assert(start.remaining().contains(p) <==> before.remaining().contains(p)
                                || occurs(given, p));
                            assert(occurs(out@, p) <==> occurs(given, p) || p == m);
                            assert(self@.remaining().contains(p) <==> before.remaining().contains(p)
                                && p != m);
                        }
                    }
                },
            }
        }
        out
    }

    /// Gives out everything that is left, largest first.
    pub fn drain_back(&mut self) -> (out: Vec<u64>)
        requires
            old(self).wf(),
        ensures
            final(self).wf(),
            final(self)@.remaining() == Set::<int>::empty(),
            final(self)@.min == old(self)@.min,
            final(self)@.max == old(self)@.max,
            final(self)@.low == old(self)@.low,
            final(self)@.high == if out@.len() > 0 {
                Some(out@.last())
            } else {
                old(self)@.high
            },
            descending(out@),
            holds_exactly(out@, old(self)@.remaining()),
    {
        let mut out: Vec<u64> = Vec::new();
        let ghost start = self@;
        loop
            invariant
                self.wf(),
                self@.min == start.min,
                self@.max == start.max,
                self@.low == start.low,
                self@.high == if out@.len() > 0 {
                    Some(out@.last())
                } else {
                    start.high
                },
                descending(out@),
                forall|i: int| 0 <= i < out@.len() ==> !self@.below_high(#[trigger] out@[i] as int),
                forall|p: int|
                    start.remaining().contains(p) <==> self@.remaining().contains(p) || occurs(
                        out@,
                        p,
                    ),
            ensures
                self.wf(),
                self@.remaining() == Set::<int>::empty(),
                self@.min == start.min,
                self@.max == start.max,
                self@.low == start.low,
                self@.high == if out@.len() > 0 {
                    Some(out@.last())
                } else {
                    start.high
                },
                descending(out@),
                holds_exactly(out@, start.remaining()),
            decreases self@.room_below(),
        {
            let ghost before = self@;
            let ghost given = out@;
            match self.next_back() {
                None => {
                    break ;
                },
                Some(m) => {
                    out.push(m);
                    proof {
                        lemma_product_bounds(m as int, before.min as int, before.max as int);
                        lemma_occurs_after_push(given, m);
                        assert forall|p: int|
                            start.remaining().contains(p) <==> self@.remaining().contains(p)
                                || occurs(out@, p) by {
                            assert(start.remaining().contains(p) <==> before.remaining().contains(p)
                                || occurs(given, p));
                            assert(occurs(out@, p) <==> occurs(given, p) || p == m);
                            assert(self@.remaining().contains(p) <==> before.remaining().contains(p)
                                && p != m);
                        }
                    }
                },
            }
        }
        out
    }
}

} // verus!
