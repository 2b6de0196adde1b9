//! Supply counters.
//!
//! Two counters of whole symbols not yet delivered. [`SupplyCounter`] is
//! exclusively owned by one session and has exact contracts.
//! [`SharedCounter`] is read by any number of concurrent sessions; its only
//! mutation is an atomic bounded reservation, so the count never goes below
//! zero and the total ever granted never exceeds the initial supply. The
//! spec functions `take_granted` and `run_taken` model the reservations in
//! the order in which the atomic cell serialized them, and
//! [`lemma_takes_never_exceed_supply`] states the conservation law over
//! that order.

use crate::model::min_nat;
use core::sync::atomic::AtomicUsize;
use core::sync::atomic::Ordering;
use vstd::prelude::*;

verus! {

/// How often a shared reservation retries a lost compare-exchange before
/// giving up and granting nothing.
pub const RESERVE_ATTEMPTS: usize = 64;

/// A private counter of whole symbols not yet delivered.
pub struct SupplyCounter {
    count: usize,
}

impl SupplyCounter {
    /// How many whole symbols remain.
    pub closed spec fn remaining(&self) -> nat {
        self.count as nat
    }

    /// Creates a counter holding `initial` whole symbols.
    pub fn new(initial: usize) -> (r: SupplyCounter)
        ensures
            r.remaining() == initial,
    {
        SupplyCounter { count: initial }
    }

    /// Reads the remaining count.
    pub fn load(&self) -> (n: usize)
        ensures
            n == self.remaining(),
    {
        self.count
    }

    /// Consumes `n` symbols from the supply. The caller must already have
    /// confirmed that it can emit them: decrementing below zero is a bug,
    /// not a saturation.
    pub fn decrement_by(&mut self, n: usize)
        requires
            n <= old(self).remaining(),
        ensures
            final(self).remaining() == old(self).remaining() - n,
    {
        self.count = self.count - n;
    }
}

/// A supply counter shared by all concurrently open sessions. It is
/// consumption-only after initialization, and it is mutated solely through
/// [`SharedCounter::take`], an atomic reservation that never takes more
/// than what remains. Nothing can be assumed about the value between two
/// operations — other sessions consume concurrently — so the contracts
/// here state only what holds of every interleaving; the serialized
/// history of reservations is modeled by `run_taken` below.
pub struct SharedCounter {
    cell: AtomicUsize,
}

impl SharedCounter {
    /// Creates a shared counter holding `initial` whole symbols.
    pub fn new(initial: usize) -> SharedCounter {
        SharedCounter { cell: AtomicUsize::new(initial) }
    }

    /// Reads the remaining count. The value is a hint only: another
    /// session may consume between this load and any later use.
    pub fn available_hint(&self) -> usize {
        self.cell.load(Ordering::Acquire)
    }

    /// Atomically reserves up to `want` symbols and returns how many were
    /// actually reserved: the smaller of `want` and the count at the
    /// instant the reservation took effect. The counter decreases by
    /// exactly the granted amount, so it never goes below zero, and a
    /// caller that emits no more than what was granted can never
    /// over-deliver. A reservation that keeps losing its compare-exchange
    /// to other sessions gives up after a bounded number of attempts and
    /// grants nothing: under-delivery is acceptable, a later read simply
    /// continues.
    pub fn take(&self, want: usize) -> (granted: usize)
        ensures
            granted <= want,
    {
        let mut seen = self.cell.load(Ordering::Acquire);
        let mut attempts: usize = RESERVE_ATTEMPTS;
        while attempts > 0
            invariant
                true,
            decreases attempts,
        {
            let grant: usize = if want < seen {
                want
            } else {
                seen
            };
            let next = seen - grant;
            let res = self.cell.compare_exchange(
                seen,
                next,
                Ordering::AcqRel,
                Ordering::Acquire,
            );
            match res {
                Result::Ok(_) => {
                    return grant;
                },
                Result::Err(actual) => {
                    seen = actual;
                    attempts = attempts - 1;
                },
            }
        }
        0
    }
}

/// How many symbols a reservation of `want` grants when `avail` remain.
pub open spec fn take_granted(avail: nat, want: nat) -> nat {
    min_nat(want, avail)
}

/// How many symbols remain after that reservation.
pub open spec fn take_left(avail: nat, want: nat) -> nat {
    (avail - take_granted(avail, want)) as nat
}

/// Symbols remaining after a serialized run of reservations `wants`
/// against an initial supply of `initial`.
pub open spec fn run_left(initial: nat, wants: Seq<nat>) -> nat
    decreases wants.len(),
{
    if wants.len() == 0 {
        initial
    } else {
        take_left(run_left(initial, wants.drop_last()), wants.last())
    }
}

/// Total symbols granted over that same run.
pub open spec fn run_taken(initial: nat, wants: Seq<nat>) -> nat
    decreases wants.len(),
{
    if wants.len() == 0 {
        0
    } else {
        run_taken(initial, wants.drop_last()) + take_granted(
            run_left(initial, wants.drop_last()),
            wants.last(),
        )
    }
}

/// Conservation of the shared supply: every reservation is granted out of
/// what remains, so over any serialized run the grants and the leftover
/// account exactly for the initial supply. The atomic cell serializes the
/// concurrent `take` calls into some such run, so however many sessions
/// race, the total they are ever granted cannot exceed the initial supply.
pub proof fn lemma_takes_never_exceed_supply(initial: nat, wants: Seq<nat>)
    ensures
        run_taken(initial, wants) + run_left(initial, wants) == initial,
        run_taken(initial, wants) <= initial,
    decreases wants.len(),
{
    if wants.len() > 0 {
        lemma_takes_never_exceed_supply(initial, wants.drop_last());
    }
}

/// Never over-deliver under concurrency: if each racing session emits at
/// most `w` bytes per granted symbol, the bytes emitted across all of them
/// stay within `initial * w`.
pub proof fn lemma_shared_bytes_bounded(initial: nat, wants: Seq<nat>, w: nat)
    ensures
        run_taken(initial, wants) * w <= initial * w,
{
    lemma_takes_never_exceed_supply(initial, wants);
    vstd::arithmetic::mul::lemma_mul_inequality(
        run_taken(initial, wants) as int,
        initial as int,
        w as int,
    );
}

} // verus!
