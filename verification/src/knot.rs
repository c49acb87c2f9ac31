use vstd::prelude::*;

verus! {

/// Types of knots used in quipu encoding.
#[derive(Debug, Clone, Copy, PartialEq)]
pub enum KnotType {
    /// A single knot: digit 1 in a position other than the units.
    Single,
    /// A figure-eight knot: digit 1 in the units position.
    FigureEight,
    /// A long knot with several turns: digits 2 to 9.
    Long,
}

/// A single knot on a cord.
#[derive(Debug, Clone, Copy, PartialEq)]
pub struct Knot {
    /// The type of knot.
    pub knot_type: KnotType,
    /// Number of turns (read only for long knots).
    pub value: u8,
    /// Decimal position (0 = units, 1 = tens, 2 = hundreds, ...).
    pub position: u32,
}

/// `10` raised to the power `e`.
pub open spec fn pow10(e: nat) -> nat
    decreases e,
{
    if e == 0 {
        1
    } else {
        10 * pow10((e - 1) as nat)
    }
}

impl Knot {
    /// The decimal digit a knot stands for: one for single and
    /// figure-eight knots, the number of turns for a long knot.
    pub open spec fn digit(self) -> nat {
        match self.knot_type {
            KnotType::FigureEight => 1,
            KnotType::Single => 1,
            KnotType::Long => self.value as nat,
        }
    }

    /// Create a new knot.
    pub fn new(knot_type: KnotType, value: u8, position: u32) -> (k: Knot)
        ensures
            k == (Knot { knot_type, value, position }),
    {
        Knot { knot_type, value, position }
    }

    /// The decimal digit this knot represents.
    pub fn digit_value(&self) -> (d: u32)
        ensures
            d == self.digit(),
    {
        match self.knot_type {
            KnotType::FigureEight => 1,
            KnotType::Single => 1,
            KnotType::Long => self.value as u32,
        }
    }
}

/// A long knot stands for its number of turns; a single or figure-eight
/// knot stands for one, whatever its turns.
pub proof fn lemma_knot_digit(k: Knot)
    ensures
        k.knot_type == KnotType::Long ==> k.digit() == k.value,
        k.knot_type != KnotType::Long ==> k.digit() == 1,
{
}

} // verus!
