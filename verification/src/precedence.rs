use vstd::prelude::*;

verus! {

/// Binding power of the operators of the language, from loosest to tightest.
#[derive(Clone, Copy, Debug, PartialEq, Eq, Structural)]
pub enum Precedence {
    PrecNone,
    PrecAssign,
    PrecOr,
    PrecAnd,
    PrecEquality,
    PrecComparison,
    PrecTerm,
    PrecFactor,
    PrecUnary,
    PrecCall,
    PrecPrimary,
}

impl Precedence {
    /// The position of a precedence in the order, `PrecNone` being 0.
    pub open spec fn spec_level(self) -> nat {
        match self {
            Precedence::PrecNone => 0,
            Precedence::PrecAssign => 1,
            Precedence::PrecOr => 2,
            Precedence::PrecAnd => 3,
            Precedence::PrecEquality => 4,
            Precedence::PrecComparison => 5,
            Precedence::PrecTerm => 6,
            Precedence::PrecFactor => 7,
            Precedence::PrecUnary => 8,
            Precedence::PrecCall => 9,
            Precedence::PrecPrimary => 10,
        }
    }

    /// The position of this precedence in the order.
    pub fn level(&self) -> (l: u8)
        ensures
            l == self.spec_level(),
    {
        match self {
            Precedence::PrecNone => 0,
            Precedence::PrecAssign => 1,
            Precedence::PrecOr => 2,
            Precedence::PrecAnd => 3,
            Precedence::PrecEquality => 4,
            Precedence::PrecComparison => 5,
            Precedence::PrecTerm => 6,
            Precedence::PrecFactor => 7,
            Precedence::PrecUnary => 8,
            Precedence::PrecCall => 9,
            Precedence::PrecPrimary => 10,
        }
    }

    /// `self <= other` in the precedence order.
    pub fn le(&self, other: &Precedence) -> (b: bool)
        ensures
            b == (self.spec_level() <= other.spec_level()),
    {
        self.level() <= other.level()
    }

    /// The next tighter precedence; `PrecPrimary` is the tightest and is its own successor.
    pub open spec fn spec_next(self) -> Precedence {
        match self {
            Precedence::PrecNone => Precedence::PrecAssign,
            Precedence::PrecAssign => Precedence::PrecOr,
            Precedence::PrecOr => Precedence::PrecAnd,
            Precedence::PrecAnd => Precedence::PrecEquality,
            Precedence::PrecEquality => Precedence::PrecComparison,
            Precedence::PrecComparison => Precedence::PrecTerm,
            Precedence::PrecTerm => Precedence::PrecFactor,
            Precedence::PrecFactor => Precedence::PrecUnary,
            Precedence::PrecUnary => Precedence::PrecCall,
            Precedence::PrecCall => Precedence::PrecPrimary,
            Precedence::PrecPrimary => Precedence::PrecPrimary,
        }
    }

    /// The precedence one step tighter than this one.
    pub fn get_next(&self) -> (p: Precedence)
        ensures
            p == self.spec_next(),
            self.spec_level() < 10 ==> p.spec_level() == self.spec_level() + 1,
    {
        match self {
            Precedence::PrecNone => Precedence::PrecAssign,
            Precedence::PrecAssign => Precedence::PrecOr,
            Precedence::PrecOr => Precedence::PrecAnd,
            Precedence::PrecAnd => Precedence::PrecEquality,
            Precedence::PrecEquality => Precedence::PrecComparison,
            Precedence::PrecComparison => Precedence::PrecTerm,
            Precedence::PrecTerm => Precedence::PrecFactor,
            Precedence::PrecFactor => Precedence::PrecUnary,
            Precedence::PrecUnary => Precedence::PrecCall,
            Precedence::PrecCall => Precedence::PrecPrimary,
            Precedence::PrecPrimary => Precedence::PrecPrimary,
        }
    }

    /// The name of this precedence, as it appears in diagnostics.
    pub fn name(&self) -> (s: &'static str)
        ensures
            s@ == self.spec_name(),
    {
        match self {
            Precedence::PrecNone => "PrecNone",
            Precedence::PrecAssign => "PrecAssign",
            Precedence::PrecOr => "PrecOr",
            Precedence::PrecAnd => "PrecAnd",
            Precedence::PrecEquality => "PrecEquality",
            Precedence::PrecComparison => "PrecComparison",
            Precedence::PrecTerm => "PrecTerm",
            Precedence::PrecFactor => "PrecFactor",
            Precedence::PrecUnary => "PrecUnary",
            Precedence::PrecCall => "PrecCall",
            Precedence::PrecPrimary => "PrecPrimary",
        }
    }

    /// The name of a precedence as a sequence of characters.
    pub open spec fn spec_name(self) -> Seq<char> {
        match self {
            Precedence::PrecNone => "PrecNone"@,
            Precedence::PrecAssign => "PrecAssign"@,
            Precedence::PrecOr => "PrecOr"@,
            Precedence::PrecAnd => "PrecAnd"@,
            Precedence::PrecEquality => "PrecEquality"@,
            Precedence::PrecComparison => "PrecComparison"@,
            Precedence::PrecTerm => "PrecTerm"@,
            Precedence::PrecFactor => "PrecFactor"@,
            Precedence::PrecUnary => "PrecUnary"@,
            Precedence::PrecCall => "PrecCall"@,
            Precedence::PrecPrimary => "PrecPrimary"@,
        }
    }
}

} // verus!
