//! Named rules: a rule holds two inclusive integer ranges, and a value
//! satisfies the rule when it falls inside either range.

use vstd::prelude::*;

verus! {

/// A named pair of inclusive integer ranges.
pub struct Rule {
    pub name: String,
    pub range1_low: i64,
    pub range1_high: i64,
    pub range2_low: i64,
    pub range2_high: i64,
}

impl Rule {
    /// What it means for a value to satisfy this rule: it lies in the first
    /// range or in the second.
    pub open spec fn spec_valid(self, field: i64) -> bool {
        (self.range1_low <= field && field <= self.range1_high) || (self.range2_low <= field
            && field <= self.range2_high)
    }

    pub fn new(name: String, range1_low: i64, range1_high: i64, range2_low: i64, range2_high: i64) -> (r:
        Rule)
        ensures
            r.name == name,
            r.range1_low == range1_low,
            r.range1_high == range1_high,
            r.range2_low == range2_low,
            r.range2_high == range2_high,
    {
        Rule { name, range1_low, range1_high, range2_low, range2_high }
    }

    /// A value satisfies the rule exactly when it falls in either of the two
    /// inclusive ranges.
    pub fn valid(&self, field: &i64) -> (r: bool)
        ensures
            r == self.spec_valid(*field),
    {
        (self.range1_low <= *field && *field <= self.range1_high) || (self.range2_low <= *field
            && *field <= self.range2_high)
    }
}

} // verus!
