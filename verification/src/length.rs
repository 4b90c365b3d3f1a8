use vstd::prelude::*;

verus! {

/// The comparison that a length requirement makes between the number of
/// words of a message and its value.
#[derive(Debug, Clone, Copy, PartialEq, Eq, Structural)]
pub enum ComparisonOperator {
    LessThan,
    LessThanOrEqualTo,
    EqualTo,
    GreaterThan,
    GreaterThanOrEqualTo,
}

/// A requirement on the number of words of a generated message.
#[derive(Debug, Clone, Copy, PartialEq, Eq, Structural)]
pub struct LengthRequirement {
    pub value: i32,
    pub comparison_operator: ComparisonOperator,
}

impl LengthRequirement {
    /// Whether the requirement makes sense: its value leaves room for a
    /// message.
    pub open spec fn valid(self) -> bool {
        match self.comparison_operator {
            ComparisonOperator::LessThan => self.value > 1,
            ComparisonOperator::LessThanOrEqualTo => self.value > 0,
            ComparisonOperator::EqualTo => self.value > 0,
            ComparisonOperator::GreaterThan => self.value > 0,
            ComparisonOperator::GreaterThanOrEqualTo => self.value > 1,
        }
    }

    /// Whether a message of `n` words meets the requirement.
    pub open spec fn admits(self, n: int) -> bool {
        match self.comparison_operator {
            ComparisonOperator::LessThan => n < self.value,
            ComparisonOperator::LessThanOrEqualTo => n <= self.value,
            ComparisonOperator::EqualTo => n == self.value,
            ComparisonOperator::GreaterThan => n > self.value,
            ComparisonOperator::GreaterThanOrEqualTo => n >= self.value,
        }
    }

    /// How far `n` words are from the requirement's value: positive where
    /// more words are needed, negative where fewer are.
    pub open spec fn gap(self, n: int) -> int {
        match self.comparison_operator {
            ComparisonOperator::LessThan => self.value - n - 1,
            ComparisonOperator::LessThanOrEqualTo => self.value - n,
            ComparisonOperator::EqualTo => self.value - n,
            ComparisonOperator::GreaterThan => self.value - n + 1,
            ComparisonOperator::GreaterThanOrEqualTo => self.value - n,
        }
    }

    /// Returns whether or not the requirement makes sense.
    pub fn is_valid(&self) -> (ok: bool)
        ensures
            ok == self.valid(),
    {
        match self.comparison_operator {
            ComparisonOperator::LessThan => self.value > 1,
            ComparisonOperator::LessThanOrEqualTo => self.value > 0,
            ComparisonOperator::EqualTo => self.value > 0,
            ComparisonOperator::GreaterThan => self.value > 0,
            ComparisonOperator::GreaterThanOrEqualTo => self.value > 1,
        }
    }

    /// Returns the difference between the value and `n`, the sign
    /// indicating whether more or fewer words are needed.
    pub fn difference(&self, n: i32) -> (d: i32)
        requires
            i32::MIN <= self.gap(n as int) <= i32::MAX,
            i32::MIN <= self.value - n <= i32::MAX,
        ensures
            d == self.gap(n as int),
    {
        match self.comparison_operator {
            ComparisonOperator::LessThan => self.value - n - 1,
            ComparisonOperator::LessThanOrEqualTo => self.value - n,
            ComparisonOperator::EqualTo => self.value - n,
            ComparisonOperator::GreaterThan => self.value - n + 1,
            ComparisonOperator::GreaterThanOrEqualTo => self.value - n,
        }
    }

    /// Checks if `n` words meet the requirement.
    pub fn is_satisfied_by(&self, n: i32) -> (ok: bool)
        ensures
            ok == self.admits(n as int),
    {
        match self.comparison_operator {
            ComparisonOperator::LessThan => n < self.value,
            ComparisonOperator::LessThanOrEqualTo => n <= self.value,
            ComparisonOperator::EqualTo => n == self.value,
            ComparisonOperator::GreaterThan => n > self.value,
            ComparisonOperator::GreaterThanOrEqualTo => n >= self.value,
        }
    }

    /// Whether `n` words miss the requirement by being too many. Unlike
    /// `difference` this is defined for every `n`.
    pub fn needs_fewer(&self, n: i32) -> (r: bool)
        ensures
            r == (!self.admits(n as int) && self.gap(n as int) < 0),
    {
        match self.comparison_operator {
            ComparisonOperator::LessThan => n >= self.value,
            ComparisonOperator::LessThanOrEqualTo => n > self.value,
            ComparisonOperator::EqualTo => n > self.value,
            ComparisonOperator::GreaterThan => false,
            ComparisonOperator::GreaterThanOrEqualTo => false,
        }
    }

    /// Whether `n` words miss the requirement by being too few. Unlike
    /// `difference` this is defined for every `n`.
    pub fn needs_more(&self, n: i32) -> (r: bool)
        ensures
            r == (!self.admits(n as int) && self.gap(n as int) > 0),
    {
        match self.comparison_operator {
            ComparisonOperator::LessThan => false,
            ComparisonOperator::LessThanOrEqualTo => false,
            ComparisonOperator::EqualTo => n < self.value,
            ComparisonOperator::GreaterThan => n <= self.value,
            ComparisonOperator::GreaterThanOrEqualTo => n < self.value,
        }
    }

    /// A number of words that misses the requirement misses it on one
    /// side: the gap is not zero. Where it has too many words, every greater
    /// number has too many words as well.
    pub proof fn lemma_gap(self, n: int, m: int)
        ensures
            !self.admits(n) ==> self.gap(n) != 0,
            !self.admits(n) && self.gap(n) < 0 && n <= m ==> !self.admits(m),
    {
    }
}

} // verus!
