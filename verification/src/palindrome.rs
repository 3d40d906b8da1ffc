//! A number known to be a palindrome in base ten.

use vstd::prelude::*;
use crate::digits::{is_palindrome, is_palindromic};

verus! {

/// A value of this type exists only for a number whose decimal digits read
/// the same forwards and backwards.
#[derive(Debug, Clone, Copy, PartialEq, Eq, PartialOrd, Ord)]
pub struct Palindrome(u64);

impl View for Palindrome {
    type V = nat;

    closed spec fn view(&self) -> nat {
        self.0 as nat
    }
}

impl Palindrome {
    #[verifier::type_invariant]
    spec fn holds_palindrome(self) -> bool {
        is_palindrome(self.0 as nat)
    }

    /// Wraps `value` when it is a palindrome in base ten, and refuses it
    /// otherwise.
    pub fn new(value: u64) -> (r: Option<Palindrome>)
        ensures
            r is Some <==> is_palindrome(value as nat),
            r matches Some(p) ==> p@ == value,
    {
        if is_palindromic(value) {
            Some(Palindrome(value))
        } else {
            None
        }
    }

    /// The number itself.
    pub fn into_inner(self) -> (r: u64)
        ensures
            r == self@,
            is_palindrome(r as nat),
    {
        proof {
            use_type_invariant(&self);
        }
        self.0
    }
}

} // verus!
