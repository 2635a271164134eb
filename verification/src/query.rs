//! Tests that the caller evaluates on numbered items.
//!
//! A routine that takes such a test as a function value asks it about the
//! items it needs and about no others.  Its contract holds for every
//! predicate that describes the function's answers.

use vstd::prelude::*;

verus! {

/// A test on numbered items.
pub type Test = spec_fn(usize) -> bool;

/// A test on pairs of numbered items.
pub type PairTest = spec_fn(usize, usize) -> bool;

/// `f` can be asked about every item below `n`.
pub open spec fn accepts<F: Fn(usize) -> bool>(f: F, n: nat) -> bool {
    forall|k: usize| k < n ==> #[trigger] call_requires(f, (k,))
}

/// `p` tells what `f` answers on every item below `n`.
pub open spec fn describes<F: Fn(usize) -> bool>(p: Test, f: F, n: nat) -> bool {
    forall|k: usize, r: bool| k < n && #[trigger] call_ensures(f, (k,), r) ==> r == p(k)
}

/// `f` can be asked about every pair of a first item below `m` and a
/// second item below `n`.
pub open spec fn accepts_pairs<F: Fn(usize, usize) -> bool>(f: F, m: nat, n: nat) -> bool {
    forall|a: usize, b: usize| a < m && b < n ==> #[trigger] call_requires(f, (a, b))
}

/// `p` tells what `f` answers on every pair of a first item below `m` and
/// a second item below `n`.
pub open spec fn describes_pairs<F: Fn(usize, usize) -> bool>(p: PairTest, f: F, m: nat, n: nat) -> bool {
    forall|a: usize, b: usize, r: bool| a < m && b < n && #[trigger] call_ensures(f, (a, b), r) ==> r == p(a, b)
}

} // verus!
