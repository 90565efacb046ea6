//! Exact rational values. Every metric this library computes is a ratio of
//! two integer counts, so the metrics are carried as `Ratio` values with a
//! positive denominator rather than as inexact machine reals.

use vstd::prelude::*;

verus! {

/// The product of two `u64` values fits in a `u128`.
pub(crate) proof fn lemma_u64_products_fit(a: u64, b: u64, c: u64, d: u64)
    ensures
        a * b <= u64::MAX * u64::MAX,
        c * d <= u64::MAX * u64::MAX,
        u64::MAX * u64::MAX < u128::MAX,
{
    vstd::arithmetic::mul::lemma_mul_upper_bound(a as int, u64::MAX as int, b as int, u64::MAX as int);
    vstd::arithmetic::mul::lemma_mul_upper_bound(c as int, u64::MAX as int, d as int, u64::MAX as int);
}

/// An exact non-negative rational `num / den` with `den > 0`.
#[derive(Clone, Copy, Debug, PartialEq, Eq, Structural)]
pub struct Ratio {
    pub num: u64,
    pub den: u64,
}

impl Ratio {
    /// A valid ratio has a positive denominator.
    pub open spec fn wf(self) -> bool {
        self.den > 0
    }

    /// The value is at most one, i.e. `num / den <= 1`.
    pub open spec fn at_most_one(self) -> bool {
        self.num <= self.den
    }

    /// Mathematical `self <= other` on the rational values, by cross
    /// multiplication.
    pub open spec fn spec_le(self, other: Ratio) -> bool {
        self.num * other.den <= other.num * self.den
    }

    /// Mathematical equality of the two rational values.
    pub open spec fn spec_eq_value(self, other: Ratio) -> bool {
        self.num * other.den == other.num * self.den
    }

    pub fn new(num: u64, den: u64) -> (r: Ratio)
        requires
            den > 0,
        ensures
            r.num == num,
            r.den == den,
            r.wf(),
    {
        Ratio { num, den }
    }

    /// Decides `self <= other` on the exact rational values.
    pub fn le(&self, other: &Ratio) -> (r: bool)
        ensures
            r == self.spec_le(*other),
    {
        proof {
            lemma_u64_products_fit(self.num, other.den, other.num, self.den);
        }
        (self.num as u128) * (other.den as u128) <= (other.num as u128) * (self.den as u128)
    }

    /// Decides whether the two rationals denote the same value.
    pub fn same_value(&self, other: &Ratio) -> (r: bool)
        ensures
            r == self.spec_eq_value(*other),
    {
        proof {
            lemma_u64_products_fit(self.num, other.den, other.num, self.den);
        }
        (self.num as u128) * (other.den as u128) == (other.num as u128) * (self.den as u128)
    }
}

/// One observation of the three metrics of a coverage model.
#[derive(Clone, Copy, Debug, PartialEq, Eq, Structural)]
pub struct MetricTriple {
    pub efficiency: Ratio,
    pub defect_detection: Ratio,
    pub defect_localization: Ratio,
}

impl MetricTriple {
    pub open spec fn wf(self) -> bool {
        &&& self.efficiency.wf() && self.efficiency.at_most_one()
        &&& self.defect_detection.wf() && self.defect_detection.at_most_one()
        &&& self.defect_localization.wf() && self.defect_localization.at_most_one()
    }
}

/// Cumulative elementwise bounds on the triples observed so far. The lower
/// bound starts above every possible metric value (all metrics are at most
/// one) and the upper bound starts at zero, so the first observation always
/// moves both sides.
#[derive(Clone, Copy, Debug, PartialEq, Eq, Structural)]
pub struct SimulationBounds {
    pub lower: MetricTriple,
    pub upper: MetricTriple,
}

impl SimulationBounds {
    pub open spec fn wf(self) -> bool {
        &&& self.lower.efficiency.wf()
        &&& self.lower.defect_detection.wf()
        &&& self.lower.defect_localization.wf()
        &&& self.upper.efficiency.wf()
        &&& self.upper.defect_detection.wf()
        &&& self.upper.defect_localization.wf()
    }

    /// The starting bounds: every component of the lower bound is `2/1`,
    /// strictly above any metric value, and every component of the upper
    /// bound is `0/1`.
    pub open spec fn spec_initial() -> SimulationBounds {
        SimulationBounds {
            lower: MetricTriple {
                efficiency: Ratio { num: 2, den: 1 },
                defect_detection: Ratio { num: 2, den: 1 },
                defect_localization: Ratio { num: 2, den: 1 },
            },
            upper: MetricTriple {
                efficiency: Ratio { num: 0, den: 1 },
                defect_detection: Ratio { num: 0, den: 1 },
                defect_localization: Ratio { num: 0, den: 1 },
            },
        }
    }

    pub fn initial() -> (r: SimulationBounds)
        ensures
            r == SimulationBounds::spec_initial(),
    {
        SimulationBounds {
            lower: MetricTriple {
                efficiency: Ratio { num: 2, den: 1 },
                defect_detection: Ratio { num: 2, den: 1 },
                defect_localization: Ratio { num: 2, den: 1 },
            },
            upper: MetricTriple {
                efficiency: Ratio { num: 0, den: 1 },
                defect_detection: Ratio { num: 0, den: 1 },
                defect_localization: Ratio { num: 0, den: 1 },
            },
        }
    }

    /// Whether `t` lies within these bounds, inclusive, in every component.
    pub open spec fn spec_contains(self, t: MetricTriple) -> bool {
        &&& self.lower.efficiency.spec_le(t.efficiency)
        &&& t.efficiency.spec_le(self.upper.efficiency)
        &&& self.lower.defect_detection.spec_le(t.defect_detection)
        &&& t.defect_detection.spec_le(self.upper.defect_detection)
        &&& self.lower.defect_localization.spec_le(t.defect_localization)
        &&& t.defect_localization.spec_le(self.upper.defect_localization)
    }

    pub fn contains(&self, t: &MetricTriple) -> (r: bool)
        ensures
            r == self.spec_contains(*t),
    {
        self.lower.efficiency.le(&t.efficiency) && t.efficiency.le(&self.upper.efficiency)
            && self.lower.defect_detection.le(&t.defect_detection)
            && t.defect_detection.le(&self.upper.defect_detection)
            && self.lower.defect_localization.le(&t.defect_localization)
            && t.defect_localization.le(&self.upper.defect_localization)
    }

    /// The bounds after widening by one more observation: the elementwise
    /// minimum on the lower side and maximum on the upper side.
    pub open spec fn spec_widened(self, t: MetricTriple) -> SimulationBounds {
        SimulationBounds {
            lower: MetricTriple {
                efficiency: ratio_min(self.lower.efficiency, t.efficiency),
                defect_detection: ratio_min(self.lower.defect_detection, t.defect_detection),
                defect_localization: ratio_min(
                    self.lower.defect_localization,
                    t.defect_localization,
                ),
            },
            upper: MetricTriple {
                efficiency: ratio_max(self.upper.efficiency, t.efficiency),
                defect_detection: ratio_max(self.upper.defect_detection, t.defect_detection),
                defect_localization: ratio_max(
                    self.upper.defect_localization,
                    t.defect_localization,
                ),
            },
        }
    }

    pub fn widened(&self, t: &MetricTriple) -> (r: SimulationBounds)
        ensures
            r == self.spec_widened(*t),
    {
        SimulationBounds {
            lower: MetricTriple {
                efficiency: ratio_min_exec(&self.lower.efficiency, &t.efficiency),
                defect_detection: ratio_min_exec(&self.lower.defect_detection, &t.defect_detection),
                defect_localization: ratio_min_exec(
                    &self.lower.defect_localization,
                    &t.defect_localization,
                ),
            },
            upper: MetricTriple {
                efficiency: ratio_max_exec(&self.upper.efficiency, &t.efficiency),
                defect_detection: ratio_max_exec(&self.upper.defect_detection, &t.defect_detection),
                defect_localization: ratio_max_exec(
                    &self.upper.defect_localization,
                    &t.defect_localization,
                ),
            },
        }
    }
}

/// The smaller of the two rational values; `a` is kept on a tie.
pub open spec fn ratio_min(a: Ratio, b: Ratio) -> Ratio {
    if a.spec_le(b) {
        a
    } else {
        b
    }
}

/// The larger of the two rational values; `a` is kept on a tie.
pub open spec fn ratio_max(a: Ratio, b: Ratio) -> Ratio {
    if b.spec_le(a) {
        a
    } else {
        b
    }
}

fn ratio_min_exec(a: &Ratio, b: &Ratio) -> (r: Ratio)
    ensures
        r == ratio_min(*a, *b),
{
    if a.le(b) {
        *a
    } else {
        *b
    }
}

fn ratio_max_exec(a: &Ratio, b: &Ratio) -> (r: Ratio)
    ensures
        r == ratio_max(*a, *b),
{
    if b.le(a) {
        *a
    } else {
        *b
    }
}

} // verus!
