//! Checks that are made one after the other.

use vstd::prelude::*;

use crate::error::Result;

verus! {

/// The first error of the first `n` checks.
pub open spec fn first_error(checks: Seq<Result<()>>, n: int) -> Result<()>
    decreases n,
{
    if n <= 0 {
        Ok(())
    } else if first_error(checks, n - 1) is Err {
        first_error(checks, n - 1)
    } else {
        checks[n - 1]
    }
}

/// The first error of all checks.
pub open spec fn checked(checks: Seq<Result<()>>) -> Result<()> {
    first_error(checks, checks.len() as int)
}

pub proof fn lemma_first_error(checks: Seq<Result<()>>, k: int, n: int)
    requires
        0 <= k < n <= checks.len(),
        forall|i: int| 0 <= i < k ==> #[trigger] checks[i] is Ok,
        checks[k] is Err,
    ensures
        first_error(checks, n) == checks[k],
    decreases n,
{
    if k == n - 1 {
        lemma_no_error(checks, k);
    } else {
        lemma_first_error(checks, k, n - 1);
    }
}

pub proof fn lemma_no_error(checks: Seq<Result<()>>, n: int)
    requires
        0 <= n <= checks.len(),
        forall|i: int| 0 <= i < n ==> #[trigger] checks[i] is Ok,
    ensures
        first_error(checks, n) is Ok,
    decreases n,
{
    if n > 0 {
        lemma_no_error(checks, n - 1);
    }
}

/// The checks pass just when each of them does.
pub proof fn law_checked(checks: Seq<Result<()>>)
    ensures
        checked(checks) is Ok <==> forall|i: int|
            0 <= i < checks.len() ==> #[trigger] checks[i] is Ok,
{
    lemma_all_pass(checks, checks.len() as int);
}

proof fn lemma_all_pass(checks: Seq<Result<()>>, n: int)
    requires
        0 <= n <= checks.len(),
    ensures
        first_error(checks, n) is Ok <==> forall|i: int|
            0 <= i < n ==> #[trigger] checks[i] is Ok,
    decreases n,
{
    if n > 0 {
        lemma_all_pass(checks, n - 1);
    }
}

} // verus!
