//! Classification of decision leaks.
use vstd::prelude::*;

verus! {

/// Classification of a decision leak severity based on Big Blind EV lost.
#[derive(Debug, Clone, Copy, PartialEq, Eq, PartialOrd, Ord, Hash, Structural)]
pub enum LeakSeverity {
    /// Decision within 0.25 BB of optimal.
    Optimal,
    /// Minor imperfection losing between 0.25 and 1.0 BB.
    Inaccuracy,
    /// Noticeable mistake losing between 1.0 and 3.0 BB.
    Mistake,
    /// Severe leak / blunder losing 3.0+ BB.
    Blunder,
}

impl LeakSeverity {
    /// The upper-case label of this severity.
    pub fn label(&self) -> (s: &'static str)
        ensures
            *self == LeakSeverity::Optimal ==> s@ == "OPTIMAL"@,
            *self == LeakSeverity::Inaccuracy ==> s@ == "INACCURACY"@,
            *self == LeakSeverity::Mistake ==> s@ == "MISTAKE"@,
            *self == LeakSeverity::Blunder ==> s@ == "BLUNDER"@,
    {
        match self {
            LeakSeverity::Optimal => "OPTIMAL",
            LeakSeverity::Inaccuracy => "INACCURACY",
            LeakSeverity::Mistake => "MISTAKE",
            LeakSeverity::Blunder => "BLUNDER",
        }
    }
}

} // verus!
