//! Decimal digits of a natural number and the palindrome predicate over them.

use vstd::prelude::*;

verus! {

/// The decimal digits of `n`, most significant first. Zero has the single
/// digit `0`; no other number has a leading zero.
pub open spec fn digits(n: nat) -> Seq<u8>
    decreases n,
{
    if n < 10 {
        seq![n as u8]
    } else {
        digits(n / 10).push((n % 10) as u8)
    }
}

/// `n` reads the same forwards and backwards in base ten.
pub open spec fn is_palindrome(n: nat) -> bool {
    digits(n) =~= digits(n).reverse()
}

/// A sequence equals its own reverse.
pub open spec fn reads_same_both_ways(s: Seq<u8>) -> bool {
    forall|i: int| 0 <= i < s.len() ==> #[trigger] s[i] == s[s.len() - 1 - i]
}

/// Every number below ten is a palindrome.
pub proof fn lemma_single_digit_is_palindrome(n: nat)
    requires
        n < 10,
    ensures
        is_palindrome(n),
{
    assert(digits(n) =~= seq![n as u8]);
    assert(digits(n).reverse() =~= digits(n));
}

proof fn lemma_symmetric_iff_reverse(s: Seq<u8>)
    ensures
        reads_same_both_ways(s) <==> s =~= s.reverse(),
{
    if reads_same_both_ways(s) {
        assert(s =~= s.reverse());
    }
    if s =~= s.reverse() {
        assert forall|i: int| 0 <= i < s.len() implies #[trigger] s[i] == s[s.len() - 1 - i] by {
            assert(s.reverse()[i] == s[s.len() - 1 - i]);
        }
    }
}

proof fn lemma_reverse_symmetric(s: Seq<u8>)
    ensures
        reads_same_both_ways(s.reverse()) <==> reads_same_both_ways(s),
{
    let r = s.reverse();
    if reads_same_both_ways(s) {
        assert forall|i: int| 0 <= i < r.len() implies #[trigger] r[i] == r[r.len() - 1 - i] by {
            assert(s[s.len() - 1 - i] == s[s.len() - 1 - (s.len() - 1 - i)]);
        }
    }
    if reads_same_both_ways(r) {
        assert forall|i: int| 0 <= i < s.len() implies #[trigger] s[i] == s[s.len() - 1 - i] by {
            assert(r[r.len() - 1 - i] == r[r.len() - 1 - (r.len() - 1 - i)]);
        }
    }
}

/// The decimal digits of `value`, least significant first.
pub fn reversed_digits(value: u64) -> (r: Vec<u8>)
    ensures
        r@.reverse() =~= digits(value as nat),
{
    let mut r: Vec<u8> = Vec::new();
    let mut rest: u64 = value;
    while rest >= 10
        invariant
            digits(value as nat) =~= digits(rest as nat) + r@.reverse(),
        decreases rest,
    {
        let d: u8 = (rest % 10) as u8;
        proof {
            let before = r@;
            let after = before.push(d);
            assert(after.reverse() =~= seq![d] + before.reverse());
            assert(digits(rest as nat) =~= digits((rest / 10) as nat).push(d));
            assert(digits((rest / 10) as nat).push(d) + before.reverse() =~= digits(
                (rest / 10) as nat,
            ) + after.reverse());
        }
        r.push(d);
        rest = rest / 10;
    }
    proof {
        let before = r@;
        let after = before.push(rest as u8);
        assert(after.reverse() =~= seq![rest as u8] + before.reverse());
        assert(digits(rest as nat) =~= seq![rest as u8]);
    }
    r.push(rest as u8);
    r
}

/// Decides whether `value` is a palindrome in base ten.
pub fn is_palindromic(value: u64) -> (r: bool)
    ensures
        r == is_palindrome(value as nat),
{
    let ds = reversed_digits(value);
    let n: usize = ds.len();
    let mut i: usize = 0;
    proof {
        lemma_symmetric_iff_reverse(digits(value as nat));
        lemma_reverse_symmetric(ds@);
    }
    while i < n / 2
        invariant
            n == ds@.len(),
            is_palindrome(value as nat) <==> reads_same_both_ways(ds@),
            i <= n / 2,
            forall|j: int| 0 <= j < i ==> #[trigger] ds@[j] == ds@[n - 1 - j],
        decreases n - i,
    {
        if ds[i] != ds[n - 1 - i] {
            assert(!reads_same_both_ways(ds@));
            return false;
        }
        i += 1;
    }
    assert forall|j: int| 0 <= j < n implies #[trigger] ds@[j] == ds@[n - 1 - j] by {
        if j >= i {
            let m = n - 1 - j;
            if m < i {
                assert(ds@[m] == ds@[n - 1 - m]);
            }
        }
    }
    true
}

} // verus!
