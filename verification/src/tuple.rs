//! The tuple type: construction, access, approximate equality and addition.
use crate::approximate_eq;
use crate::approximately_equal;
use crate::arith::{lemma_sum_commutes, plus, sum};
use crate::binary64::{is_finite, ONE, ZERO};
use crate::decimal::{formatted, to_text};
use crate::lemma_approximately_equal_reflexive;
use crate::lemma_approximately_equal_symmetric;
use vstd::prelude::*;
use vstd::std_specs::cmp::PartialEqSpec;
use vstd::std_specs::ops::AddSpec;
use vstd::string::StringExecFns;

verus! {

/// Four binary64 components, each held as its bit pattern. Any pattern is
/// allowed in any component; `w` is one for a point and zero for a vector by
/// convention only.
#[derive(Clone, Copy, Debug)]
pub struct Tuple {
    x: u64,
    y: u64,
    z: u64,
    w: u64,
}

impl View for Tuple {
    type V = (u64, u64, u64, u64);

    /// The components in the order `(x, y, z, w)`.
    closed spec fn view(&self) -> (u64, u64, u64, u64) {
        (self.x, self.y, self.z, self.w)
    }
}

impl Tuple {
    /// A tuple of the four given components, taken as they are.
    pub fn new(x: u64, y: u64, z: u64, w: u64) -> (t: Tuple)
        ensures
            t@ == (x, y, z, w),
    {
        Tuple { x, y, z, w }
    }

    /// A position: `w` is one.
    pub fn point(x: u64, y: u64, z: u64) -> (t: Tuple)
        ensures
            t@ == (x, y, z, ONE),
    {
        Tuple::new(x, y, z, ONE)
    }

    /// A displacement: `w` is zero.
    pub fn vector(x: u64, y: u64, z: u64) -> (t: Tuple)
        ensures
            t@ == (x, y, z, ZERO),
    {
        Tuple::new(x, y, z, ZERO)
    }

    /// The first component.
    pub fn x(&self) -> (r: u64)
        ensures
            r == self@.0,
    {
        self.x
    }

    /// The second component.
    pub fn y(&self) -> (r: u64)
        ensures
            r == self@.1,
    {
        self.y
    }

    /// The third component.
    pub fn z(&self) -> (r: u64)
        ensures
            r == self@.2,
    {
        self.z
    }

    /// The fourth component: one for a point, zero for a vector.
    pub fn w(&self) -> (r: u64)
        ensures
            r == self@.3,
    {
        self.w
    }

    /// The text of a view: the four components between braces, each with
    /// five digits after the point, separated by a comma and a space.
    pub open spec fn text(v: (u64, u64, u64, u64)) -> Seq<char> {
        seq!['{'] + formatted(v.0) + seq![',', ' '] + formatted(v.1) + seq![',', ' ']
            + formatted(v.2) + seq![',', ' '] + formatted(v.3) + seq!['}']
    }

    /// Writes the tuple, as in `{4.30000, -4.20000, 3.10000, 1.00000}`.
    pub fn to_string(&self) -> (text: String)
        ensures
            text@ == Tuple::text(self@),
    {
        proof {
            reveal_strlit("{");
            reveal_strlit(", ");
            reveal_strlit("}");
        }
        let mut text = String::from_str("{");
        text.append(to_text(self.x).as_str());
        text.append(", ");
        text.append(to_text(self.y).as_str());
        text.append(", ");
        text.append(to_text(self.z).as_str());
        text.append(", ");
        text.append(to_text(self.w).as_str());
        text.append("}");
        assert(text@ =~= Tuple::text(self@));
        text
    }

    /// The tuple whose view is `v`.
    pub closed spec fn of(v: (u64, u64, u64, u64)) -> Tuple {
        Tuple { x: v.0, y: v.1, z: v.2, w: v.3 }
    }

    /// [`Tuple::of`] and the view undo each other.
    pub proof fn lemma_of(v: (u64, u64, u64, u64), t: Tuple)
        ensures
            Tuple::of(v)@ == v,
            Tuple::of(t@) == t,
    {
    }

    /// The component-wise sum of two views.
    pub open spec fn sum(a: (u64, u64, u64, u64), b: (u64, u64, u64, u64)) -> (
        u64,
        u64,
        u64,
        u64,
    ) {
        (sum(a.0, b.0), sum(a.1, b.1), sum(a.2, b.2), sum(a.3, b.3))
    }

    /// Whether two views are approximately equal in every component.
    pub open spec fn close(a: (u64, u64, u64, u64), b: (u64, u64, u64, u64)) -> bool {
        &&& approximately_equal(a.0, b.0)
        &&& approximately_equal(a.1, b.1)
        &&& approximately_equal(a.2, b.2)
        &&& approximately_equal(a.3, b.3)
    }

    /// Whether all four components of a view are finite numbers.
    pub open spec fn finite(a: (u64, u64, u64, u64)) -> bool {
        is_finite(a.0) && is_finite(a.1) && is_finite(a.2) && is_finite(a.3)
    }

    /// A tuple of finite components equals itself.
    pub proof fn lemma_eq_reflexive(self)
        requires
            Tuple::finite(self@),
        ensures
            self.eq_spec(&self),
    {
        lemma_approximately_equal_reflexive(self@.0);
        lemma_approximately_equal_reflexive(self@.1);
        lemma_approximately_equal_reflexive(self@.2);
        lemma_approximately_equal_reflexive(self@.3);
    }

    /// Equality of tuples does not depend on the order of its operands.
    pub proof fn lemma_eq_symmetric(self, other: Tuple)
        ensures
            self.eq_spec(&other) == other.eq_spec(&self),
    {
        lemma_approximately_equal_symmetric(self@.0, other@.0);
        lemma_approximately_equal_symmetric(self@.1, other@.1);
        lemma_approximately_equal_symmetric(self@.2, other@.2);
        lemma_approximately_equal_symmetric(self@.3, other@.3);
    }

    /// Addition of tuples does not depend on the order of its operands.
    pub proof fn lemma_add_commutes(self, other: Tuple)
        ensures
            self.add_spec(other) == other.add_spec(self),
            Tuple::sum(self@, other@) == Tuple::sum(other@, self@),
    {
        lemma_sum_commutes(self@.0, other@.0);
        lemma_sum_commutes(self@.1, other@.1);
        lemma_sum_commutes(self@.2, other@.2);
        lemma_sum_commutes(self@.3, other@.3);
    }
}

impl Default for Tuple {
    /// All four components are zero.
    fn default() -> (t: Tuple)
        ensures
            t@ == (ZERO, ZERO, ZERO, ZERO),
    {
        Tuple::new(ZERO, ZERO, ZERO, ZERO)
    }
}

impl PartialEq for Tuple {
    /// Approximate equality, component by component.
    fn eq(&self, other: &Tuple) -> (r: bool) {
        approximate_eq(self.x, other.x) && approximate_eq(self.y, other.y) && approximate_eq(
            self.z,
            other.z,
        ) && approximate_eq(self.w, other.w)
    }
}

impl vstd::std_specs::cmp::PartialEqSpecImpl for Tuple {
    open spec fn obeys_eq_spec() -> bool {
        true
    }

    open spec fn eq_spec(&self, other: &Tuple) -> bool {
        Tuple::close(self@, other@)
    }
}

impl core::ops::Add for Tuple {
    type Output = Tuple;

    /// The component-wise sum.
    fn add(self, rhs: Tuple) -> (t: Tuple)
        ensures
            t@ == Tuple::sum(self@, rhs@),
    {
        Tuple {
            x: plus(self.x, rhs.x),
            y: plus(self.y, rhs.y),
            z: plus(self.z, rhs.z),
            w: plus(self.w, rhs.w),
        }
    }
}

impl vstd::std_specs::ops::AddSpecImpl for Tuple {
    open spec fn obeys_add_spec() -> bool {
        true
    }

    open spec fn add_req(self, rhs: Tuple) -> bool {
        true
    }

    open spec fn add_spec(self, rhs: Tuple) -> Tuple {
        Tuple::of(Tuple::sum(self@, rhs@))
    }
}

} // verus!
