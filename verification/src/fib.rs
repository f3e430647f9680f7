//! A generator for the terms of the Fibonacci sequence, starting at 0, that
//! stops once a term no longer fits in 64 bits.

use vstd::prelude::*;

verus! {

/// The `n`th Fibonacci number.
pub open spec fn fib(n: nat) -> nat
    decreases n,
{
    if n == 0 {
        0
    } else if n == 1 {
        1
    } else {
        fib((n - 1) as nat) + fib((n - 2) as nat)
    }
}

/// The `n`th Fibonacci number as a 64-bit value, or nothing once it no longer
/// fits.
pub open spec fn fib_fitting(n: nat) -> Option<u64> {
    if fib(n) <= u64::MAX {
        Some(fib(n) as u64)
    } else {
        None
    }
}

/// Produces the terms of the Fibonacci sequence in order, starting at 0, and
/// stops (yielding nothing, forever) once a term overflows 64 bits.
pub struct FibonacciIterator {
    // The next term to be produced, if it fits.
    f0: Option<u64>,
    // The term after that, if it fits.
    f1: Option<u64>,
    // How many terms have been produced so far.
    idx: Ghost<nat>,
}

impl FibonacciIterator {
    /// The stored pair holds the next two terms of the sequence.
    pub closed spec fn wf(&self) -> bool {
        &&& self.f0 == fib_fitting(self.idx@)
        &&& self.f1 == fib_fitting(self.idx@ + 1)
    }

    /// How many terms have been produced so far.
    pub closed spec fn position(&self) -> nat {
        self.idx@
    }

    pub fn new() -> (r: Self)
        ensures
            r.wf(),
            r.position() == 0,
    {
        Self { f0: Some(0), f1: Some(1), idx: Ghost(0) }
    }

    /// Produces the next term of the sequence, or nothing once the next term
    /// no longer fits in 64 bits; after that every call yields nothing.
    pub fn next(&mut self) -> (r: Option<u64>)
        requires
            old(self).wf(),
        ensures
            final(self).wf(),
            r == fib_fitting(old(self).position()),
            r is Some ==> final(self).position() == old(self).position() + 1,
            r is None ==> *final(self) == *old(self),
    {
        let result = match self.f0 {
            Some(v) => v,
            None => {
                return None;
            },
        };
        let next = match (self.f0, self.f1) {
            (Some(f0_val), Some(f1_val)) => f0_val.checked_add(f1_val),
            _ => None,
        };
        proof {
            let n = self.idx@;
            assert(fib(n + 2) == fib(n + 1) + fib(n));
        }
        self.f0 = self.f1;
        self.f1 = next;
        proof {
            self.idx@ = self.idx@ + 1;
        }
        Some(result)
    }
}

} // verus!
