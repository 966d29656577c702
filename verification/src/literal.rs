//! Literals: a variable with a polarity.

use vstd::prelude::*;
use vstd::std_specs::convert::FromSpecImpl;

verus! {

/// The integer type that names a variable. Variable ids start at 1.
pub type LiteralSize = usize;

/// The largest variable id a formula may use, so that every literal can be
/// written as a signed 32-bit integer.
pub const MAX_VARIABLE: usize = 0x7fff_ffff;

/// A propositional literal: `var` when `sign` is true, its negation otherwise.
#[derive(Clone, Copy, Debug, PartialEq, Eq, Structural, Hash)]
pub struct Literal {
    pub var: LiteralSize,
    pub sign: bool,
}

impl Literal {
    /// The literal that the signed integer `i` denotes: variable `|i|`,
    /// positive polarity exactly when `i > 0`.
    pub open spec fn of_int(i: int) -> Literal {
        Literal { var: (if i < 0 { -i } else { i }) as usize, sign: i > 0 }
    }

    /// The signed integer that denotes this literal.
    pub open spec fn to_int(self) -> int {
        if self.sign { self.var as int } else { -(self.var as int) }
    }

    /// The negation of this literal, as a specification.
    pub open spec fn negated(self) -> Literal {
        Literal { var: self.var, sign: !self.sign }
    }

    /// A dense code for the literal, distinct for distinct literals.
    pub open spec fn code(self) -> int {
        2 * (self.var as int) + (if self.sign { 1int } else { 0int })
    }

    /// The dense code of the literal.
    pub fn dense_code(&self) -> (r: usize)
        requires
            self.var <= MAX_VARIABLE,
        ensures
            r == self.code(),
    {
        if self.sign {
            2 * self.var + 1
        } else {
            2 * self.var
        }
    }

    /// Whether the literal has negative polarity.
    pub fn is_negative(&self) -> (r: bool)
        ensures
            r == !self.sign,
    {
        !self.sign
    }

    /// The literal over the same variable with the opposite polarity.
    pub fn invert(&self) -> (r: Literal)
        ensures
            r == self.negated(),
    {
        Literal { var: self.var, sign: !self.sign }
    }
}

impl From<i32> for Literal {
    fn from(i: i32) -> (r: Literal) {
        let var: usize = if i >= 0 {
            i as usize
        } else if i == i32::MIN {
            0x8000_0000
        } else {
            (-i) as usize
        };
        Literal { var, sign: i > 0 }
    }
}

impl FromSpecImpl<i32> for Literal {
    open spec fn obeys_from_spec() -> bool {
        true
    }

    open spec fn from_spec(i: i32) -> Literal {
        Literal::of_int(i as int)
    }
}

/// Negating twice gives the literal back, and a literal differs from its
/// negation while sharing its variable.
pub proof fn lemma_invert_involution(l: Literal)
    ensures
        l.negated().negated() == l,
        l.negated() != l,
        l.negated().var == l.var,
{
}

} // verus!
