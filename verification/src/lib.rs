//! Smallest and largest palindromic products of two factors drawn from a
//! closed range.
//!
//! [`ProductRange`] gives out the products of a range in order, from the low
//! end and from the high end, one row of the multiplication table per factor
//! and never the whole table. [`palindrome_products`] runs one such
//! enumerator from each end up to the first [`Palindrome`].
//!
//! Products are held in 64 bits, so the square of the largest factor has to
//! fit there.

use vstd::prelude::*;

pub mod arith;
pub mod digits;
pub mod frontier;
pub mod order;
pub mod palindrome;
pub mod product_range;

pub use crate::palindrome::Palindrome;
pub use crate::product_range::ProductRange;

use crate::digits::is_palindrome;
use crate::frontier::{is_product, lemma_product_bounds};

verus! {

/// `p` is a palindrome in base ten and the product of two factors of
/// `[min, max]`.
pub open spec fn is_palindromic_product(p: int, min: int, max: int) -> bool {
    is_product(p, min, max) && 0 <= p && is_palindrome(p as nat)
}

/// The smallest palindromic product of `[min, max]`: the first palindrome
/// that the products of the range hold, taken in ascending order.
fn smallest_palindrome(min: u64, max: u64) -> (r: Option<Palindrome>)
    requires
        min <= max ==> max * max <= u64::MAX,
    ensures
        match r {
            Some(s) => {
                &&& is_palindromic_product(s@ as int, min as int, max as int)
                &&& forall|q: int| is_palindromic_product(q, min as int, max as int) ==> s@ <= q
            },
            None => forall|q: int| !is_palindromic_product(q, min as int, max as int),
        },
{
    let mut range = ProductRange::new(min, max);
    loop
        invariant
            range.wf(),
            range@.min == min,
            range@.max == max,
            range@.high is None,
            forall|q: int|
                is_palindromic_product(q, min as int, max as int) ==> range@.remaining().contains(
                    q,
                ),
        decreases range@.room_above(),
    {
        match range.next() {
            None => {
                return None;
            },
            Some(v) => {
                proof {
                    lemma_product_bounds(v as int, min as int, max as int);
                }
                match Palindrome::new(v) {
                    Some(p) => {
                        return Some(p);
                    },
                    None => {},
                }
            },
        }
    }
}

/// The largest palindromic product of `[min, max]`: the first palindrome
/// that the products of the range hold, taken in descending order.
fn largest_palindrome(min: u64, max: u64) -> (r: Option<Palindrome>)
    requires
        min <= max ==> max * max <= u64::MAX,
    ensures
        match r {
            Some(l) => {
                &&& is_palindromic_product(l@ as int, min as int, max as int)
                &&& forall|q: int| is_palindromic_product(q, min as int, max as int) ==> q <= l@
            },
            None => forall|q: int| !is_palindromic_product(q, min as int, max as int),
        },
{
    let mut range = ProductRange::new(min, max);
    loop
        invariant
            range.wf(),
            range@.min == min,
            range@.max == max,
            range@.low is None,
            forall|q: int|
                is_palindromic_product(q, min as int, max as int) ==> range@.remaining().contains(
                    q,
                ),
        decreases range@.room_below(),
    {
        match range.next_back() {
            None => {
                return None;
            },
            Some(v) => {
                proof {
                    lemma_product_bounds(v as int, min as int, max as int);
                }
                match Palindrome::new(v) {
                    Some(p) => {
                        return Some(p);
                    },
                    None => {},
                }
            },
        }
    }
}

/// The smallest and the largest palindrome among the products of two
/// factors of `[min, max]`, or `None` where no product of the range is a
/// palindrome. A range with `min > max` has no product. The square of `max`
/// has to fit in 64 bits.
pub fn palindrome_products(min: u64, max: u64) -> (r: Option<(Palindrome, Palindrome)>)
    requires
        min <= max ==> max * max <= u64::MAX,
    ensures
        match r {
            Some((s, l)) => {
                &&& is_palindromic_product(s@ as int, min as int, max as int)
                &&& is_palindromic_product(l@ as int, min as int, max as int)
                &&& forall|q: int|
                    is_palindromic_product(q, min as int, max as int) ==> s@ <= q <= l@
            },
            None => forall|q: int| !is_palindromic_product(q, min as int, max as int),
        },
        min > max ==> r is None,
{
    let min_pal = smallest_palindrome(min, max);
    let max_pal = largest_palindrome(min, max);
    match (min_pal, max_pal) {
        (Some(s), Some(l)) => Some((s, l)),
        _ => None,
    }
}

} // verus!
