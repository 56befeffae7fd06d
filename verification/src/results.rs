//! Collecting results that may fail one by one.
use vstd::prelude::*;

use crate::error::Error;

verus! {

/// The values of `f` on `0 .. n`, or the first error among them.
pub open spec fn collect<T>(f: spec_fn(int) -> Result<T, Error>, n: nat) -> Result<Seq<T>, Error>
    decreases n,
{
    if n == 0 {
        Ok(Seq::empty())
    } else {
        match collect(f, (n - 1) as nat) {
            Err(e) => Err(e),
            Ok(s) => match f(n - 1) {
                Err(e) => Err(e),
                Ok(v) => Ok(s.push(v)),
            },
        }
    }
}

/// An error at `i` is the outcome, whatever comes behind it.
pub proof fn lemma_collect_error<T>(f: spec_fn(int) -> Result<T, Error>, i: nat, n: nat)
    requires
        i < n,
        collect(f, i) is Ok,
        f(i as int) is Err,
    ensures
        collect(f, n) == Err::<Seq<T>, Error>(f(i as int)->Err_0),
    decreases n,
{
    if n > i + 1 {
        lemma_collect_error(f, i, (n - 1) as nat);
    }
}

/// A successful collection holds the value of each call.
pub proof fn lemma_collect_ok<T>(f: spec_fn(int) -> Result<T, Error>, n: nat)
    requires
        collect(f, n) is Ok,
    ensures
        collect(f, n)->Ok_0.len() == n,
        forall|i: int| 0 <= i < n ==> f(i) == Ok::<T, Error>(#[trigger] collect(f, n)->Ok_0[i]),
    decreases n,
{
    if n > 0 {
        lemma_collect_ok(f, (n - 1) as nat);
    }
}

/// `n` items read one after another: `f` reads an item from a state and gives
/// the state behind it. The first error ends the reading.
pub open spec fn repeat<S, T>(
    f: spec_fn(S) -> Result<(T, S), Error>,
    s: S,
    n: nat,
    items: Seq<T>,
) -> Result<(Seq<T>, S), Error>
    decreases n,
{
    if n == 0 {
        Ok((items, s))
    } else {
        match f(s) {
            Err(e) => Err(e),
            Ok((item, next)) => repeat(f, next, (n - 1) as nat, items.push(item)),
        }
    }
}

/// A state threaded through steps `i .. n`. The first error ends the run.
pub open spec fn run<S>(
    step: spec_fn(S, int) -> Result<S, Error>,
    s: S,
    i: int,
    n: int,
) -> Result<S, Error>
    decreases n - i,
{
    if i >= n {
        Ok(s)
    } else {
        match step(s, i) {
            Err(e) => Err(e),
            Ok(next) => run(step, next, i + 1, n),
        }
    }
}

} // verus!
