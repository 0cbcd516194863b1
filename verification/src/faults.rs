//! The first of a row of checks that fails.

use vstd::prelude::*;

verus! {

/// The fault of the first of the checks `0..n` that has one.
pub open spec fn first_fault<E>(n: nat, check: spec_fn(int) -> Option<E>) -> Option<E>
    decreases n,
{
    if n == 0 {
        None
    } else {
        match first_fault((n - 1) as nat, check) {
            Some(e) => Some(e),
            None => check(n - 1),
        }
    }
}

/// A fault among the first checks is the fault of the whole row.
pub proof fn lemma_first_fault_stays<E>(i: nat, n: nat, check: spec_fn(int) -> Option<E>)
    requires
        i <= n,
        first_fault(i, check) is Some,
    ensures
        first_fault(n, check) == first_fault(i, check),
    decreases n,
{
    if i < n {
        lemma_first_fault_stays(i, (n - 1) as nat, check);
    }
}

/// A row without a fault passes each of its checks.
pub proof fn lemma_no_fault<E>(n: nat, check: spec_fn(int) -> Option<E>)
    ensures
        first_fault(n, check) is None <==> forall|i: int|
            0 <= i < n ==> (#[trigger] check(i)) is None,
    decreases n,
{
    if n > 0 {
        lemma_no_fault((n - 1) as nat, check);
        if forall|i: int| 0 <= i < n ==> (#[trigger] check(i)) is None {
            assert(check(n - 1) is None);
        }
    }
}

} // verus!
