//! The distance value domain: a finite non-negative weight or the
//! "unreachable" sentinel `Inf`, with a total order, a minimum, and an
//! addition in which `Inf` absorbs.
//!
//! Addition of two finite weights saturates at `u32::MAX` instead of wrapping:
//! unchecked wrapping would silently report a short path where the true cost
//! overflowed, while saturation keeps every algebraic law the algorithm needs
//! (commutativity, associativity, monotonicity, `Finite(0)` as identity).

use vstd::prelude::*;

verus! {

use core::cmp::Ordering;

/// A distance in a directed graph: a finite non-negative weight, or `Inf`
/// when no edge or path is known.
#[derive(Clone, Copy, Debug, PartialEq, Eq, Structural, Ord)]
pub enum Distance {
    Finite(u32),
    Inf,
}

/// The total order on distances: finite values compare by weight and every
/// finite value is below `Inf`.
pub open spec fn dist_le(a: Distance, b: Distance) -> bool {
    match (a, b) {
        (Distance::Finite(x), Distance::Finite(y)) => x <= y,
        (Distance::Finite(_), Distance::Inf) => true,
        (Distance::Inf, Distance::Finite(_)) => false,
        (Distance::Inf, Distance::Inf) => true,
    }
}

/// Strict version of [`dist_le`].
pub open spec fn dist_lt(a: Distance, b: Distance) -> bool {
    dist_le(a, b) && a != b
}

/// Sum of two path weights: finite weights add (saturating at `u32::MAX`),
/// and `Inf` absorbs, since a route through an unreachable hop is unreachable.
pub open spec fn dist_add(a: Distance, b: Distance) -> Distance {
    match (a, b) {
        (Distance::Finite(x), Distance::Finite(y)) => if x + y <= u32::MAX {
            Distance::Finite((x + y) as u32)
        } else {
            Distance::Finite(u32::MAX)
        },
        _ => Distance::Inf,
    }
}

/// The lesser of two distances under [`dist_le`].
pub open spec fn dist_min(a: Distance, b: Distance) -> Distance {
    if dist_le(a, b) {
        a
    } else {
        b
    }
}

impl Distance {
    /// Returns the lesser of `self` and `other`: the better of two known
    /// path weights.
    pub fn min(self, other: Self) -> (r: Self)
        ensures
            r == dist_min(self, other),
    {
        match (self, other) {
            (Distance::Finite(a), Distance::Finite(b)) => if a <= b {
                self
            } else {
                other
            },
            (Distance::Finite(_), Distance::Inf) => self,
            (Distance::Inf, _) => other,
        }
    }

    /// Combines two leg weights into the weight of the joined route.
    /// Finite weights add with saturation at `u32::MAX`; `Inf` absorbs.
    pub fn add(self, other: Self) -> (r: Self)
        ensures
            r == dist_add(self, other),
    {
        match (self, other) {
            (Distance::Finite(a), Distance::Finite(b)) => Distance::Finite(a.saturating_add(b)),
            _ => Distance::Inf,
        }
    }
}

impl vstd::std_specs::cmp::PartialOrdSpecImpl for Distance {
    open spec fn obeys_partial_cmp_spec() -> bool {
        true
    }

    open spec fn partial_cmp_spec(&self, other: &Distance) -> Option<Ordering> {
        if *self == *other {
            Some(Ordering::Equal)
        } else if dist_le(*self, *other) {
            Some(Ordering::Less)
        } else {
            Some(Ordering::Greater)
        }
    }
}

impl PartialOrd for Distance {
    fn partial_cmp(&self, other: &Self) -> (r: Option<Ordering>) {
        match (self, other) {
            (Distance::Finite(a), Distance::Finite(b)) => if a < b {
                Some(Ordering::Less)
            } else if a == b {
                Some(Ordering::Equal)
            } else {
                Some(Ordering::Greater)
            },
            (Distance::Finite(_), Distance::Inf) => Some(Ordering::Less),
            (Distance::Inf, Distance::Finite(_)) => Some(Ordering::Greater),
            (Distance::Inf, Distance::Inf) => Some(Ordering::Equal),
        }
    }
}

/// The decimal digit characters of `v`, most significant first.
pub open spec fn decimal_digits(v: nat) -> Seq<char>
    decreases v,
{
    if v < 10 {
        seq![digit_char(v)]
    } else {
        decimal_digits(v / 10).push(digit_char(v % 10))
    }
}

/// The character of a single decimal digit.
pub open spec fn digit_char(d: nat) -> char {
    if d == 0 {
        '0'
    } else if d == 1 {
        '1'
    } else if d == 2 {
        '2'
    } else if d == 3 {
        '3'
    } else if d == 4 {
        '4'
    } else if d == 5 {
        '5'
    } else if d == 6 {
        '6'
    } else if d == 7 {
        '7'
    } else if d == 8 {
        '8'
    } else {
        '9'
    }
}

/// Relies on std's `Display` for `u32`: it writes exactly the decimal
/// digits of the value, most significant first, with no sign, padding or
/// leading zero.
#[verifier::external_body]
fn u32_decimal(v: u32) -> (r: String)
    ensures
        r@ == decimal_digits(v as nat),
{
    format!("{}", v)
}

impl Distance {
    /// Text form of a distance: the decimal weight of a finite value, and
    /// the token `"Inf"` for the unreachable sentinel.
    pub fn render(&self) -> (r: String)
        ensures
            (*self matches Distance::Finite(w) ==> r@ == decimal_digits(w as nat)),
            (*self is Inf ==> r@ == "Inf"@),
    {
        match self {
            Distance::Finite(w) => u32_decimal(*w),
            Distance::Inf => "Inf".to_owned(),
        }
    }
}

/// `dist_le` is a total order: reflexive, transitive, antisymmetric, and any
/// two distances are comparable.
pub proof fn lemma_le_total_order(a: Distance, b: Distance, c: Distance)
    ensures
        dist_le(a, a),
        dist_le(a, b) && dist_le(b, c) ==> dist_le(a, c),
        dist_le(a, b) && dist_le(b, a) ==> a == b,
        dist_le(a, b) || dist_le(b, a),
{
}

/// Every distance is at least `Finite(0)`: weights are non-negative.
pub proof fn lemma_nonneg(a: Distance)
    ensures
        dist_le(Distance::Finite(0), a),
{
}

/// Adding a leg never shortens a route: each summand is below the sum.
pub proof fn lemma_add_increases(a: Distance, b: Distance)
    ensures
        dist_le(a, dist_add(a, b)),
        dist_le(b, dist_add(a, b)),
{
}

/// `Finite(0)` is the identity of distance addition.
pub proof fn lemma_add_zero(a: Distance)
    ensures
        dist_add(a, Distance::Finite(0)) == a,
        dist_add(Distance::Finite(0), a) == a,
{
}

/// Distance addition is commutative and associative.
pub proof fn lemma_add_comm_assoc(a: Distance, b: Distance, c: Distance)
    ensures
        dist_add(a, b) == dist_add(b, a),
        dist_add(dist_add(a, b), c) == dist_add(a, dist_add(b, c)),
{
}

/// Distance addition is monotone in both arguments.
pub proof fn lemma_add_monotone(a1: Distance, a2: Distance, b1: Distance, b2: Distance)
    requires
        dist_le(a1, a2),
        dist_le(b1, b2),
    ensures
        dist_le(dist_add(a1, b1), dist_add(a2, b2)),
{
}

/// `dist_min` is a lower bound of its arguments, equals one of them, and is
/// the greatest lower bound.
pub proof fn lemma_min_properties(a: Distance, b: Distance, c: Distance)
    ensures
        dist_le(dist_min(a, b), a),
        dist_le(dist_min(a, b), b),
        dist_min(a, b) == a || dist_min(a, b) == b,
        dist_le(c, a) && dist_le(c, b) ==> dist_le(c, dist_min(a, b)),
{
}

/// The ordering law of the distance domain: for finite weights `a < b`,
/// `Finite(a) < Finite(b) < Inf`, and `Inf` absorbs under addition with any
/// finite weight.
pub proof fn lemma_distance_ordering()
    ensures
        forall|a: u32, b: u32|
            a < b ==> dist_lt(Distance::Finite(a), Distance::Finite(b)),
        forall|b: u32| dist_lt(Distance::Finite(b), Distance::Inf),
        forall|x: u32| #![all_triggers]
            dist_add(Distance::Inf, Distance::Finite(x)) == Distance::Inf
                && dist_add(Distance::Finite(x), Distance::Inf) == Distance::Inf,
{
}

} // verus!
