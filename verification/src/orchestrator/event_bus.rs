//! Betting streets of a Texas Hold'em hand.
use vstd::prelude::*;

verus! {

/// Betting street in Texas Hold'em.
#[derive(Debug, Copy, Clone, PartialEq, Eq, Hash, Structural)]
pub enum Street {
    Preflop,
    Flop,
    Turn,
    River,
    Showdown,
    HandEnded,
}

/// Position of a street in the order of a hand (Preflop = 0, ..., HandEnded = 5).
pub open spec fn street_order(s: Street) -> int {
    match s {
        Street::Preflop => 0,
        Street::Flop => 1,
        Street::Turn => 2,
        Street::River => 3,
        Street::Showdown => 4,
        Street::HandEnded => 5,
    }
}

/// The street that follows `s`; the hand stays ended once ended.
pub open spec fn next_street(s: Street) -> Street {
    match s {
        Street::Preflop => Street::Flop,
        Street::Flop => Street::Turn,
        Street::Turn => Street::River,
        Street::River => Street::Showdown,
        Street::Showdown | Street::HandEnded => Street::HandEnded,
    }
}

/// `s` advanced `n` times.
pub open spec fn advance_n(s: Street, n: nat) -> Street
    decreases n,
{
    if n == 0 {
        s
    } else {
        advance_n(next_street(s), (n - 1) as nat)
    }
}

impl Street {
    /// The street that follows this one.
    pub fn next(self) -> (n: Self)
        ensures
            n == next_street(self),
            self != Street::HandEnded ==> street_order(n) == street_order(self) + 1,
    {
        match self {
            Street::Preflop => Street::Flop,
            Street::Flop => Street::Turn,
            Street::Turn => Street::River,
            Street::River => Street::Showdown,
            Street::Showdown | Street::HandEnded => Street::HandEnded,
        }
    }
}

/// Every hand reaches `HandEnded` after at most five street advances, and stays there.
pub proof fn lemma_streets_terminate(s: Street, n: nat)
    requires
        n >= 5 - street_order(s),
    ensures
        advance_n(s, n) == Street::HandEnded,
    decreases n,
{
    if n > 0 {
        lemma_streets_terminate(next_street(s), (n - 1) as nat);
    }
}

} // verus!
