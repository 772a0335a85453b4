//! What the mentions of a bundle demand of its location.
use crate::reg::{Operand, OperandPolicy, PReg, RegClass};
use vstd::prelude::*;

verus! {

/// A demand on the location of a bundle.
#[derive(Clone, Copy, Debug, PartialEq, Eq, Structural)]
pub enum Requirement {
    /// The given register.
    Fixed(PReg),
    /// Some register of the class.
    Register(RegClass),
    /// Some location of the class.
    Any(RegClass),
}

impl Requirement {
    /// The class of the location.
    #[verifier::allow_in_spec]
    pub fn class(self) -> RegClass
        returns
            (match self {
                Requirement::Fixed(preg) => preg.class,
                Requirement::Register(class) => class,
                Requirement::Any(class) => class,
            }),
    {
        match self {
            Requirement::Fixed(preg) => preg.class(),
            Requirement::Register(class) | Requirement::Any(class) => class,
        }
    }

    /// Does a location that meets this demand always meet `other`?
    pub open spec fn implies(self, other: Requirement) -> bool {
        &&& self.class() == other.class()
        &&& match other {
            Requirement::Any(_) => true,
            Requirement::Register(_) => self is Fixed || self is Register,
            Requirement::Fixed(_) => self == other,
        }
    }

    /// The weakest demand that implies both; none if no location meets both.
    pub open spec fn both(self, other: Requirement) -> Option<Requirement> {
        if self.implies(other) {
            Some(self)
        } else if other.implies(self) {
            Some(other)
        } else {
            None
        }
    }

    /// The demand that takes the place of the two, if they can be met together.
    pub fn merge(self, other: Requirement) -> (r: Option<Requirement>)
        ensures
            r == self.both(other),
    {
        if self.class() != other.class() {
            return None;
        }
        match (self, other) {
            (other, Requirement::Any(_)) | (Requirement::Any(_), other) => Some(other),
            (Requirement::Register(_), Requirement::Fixed(preg))
            | (Requirement::Fixed(preg), Requirement::Register(_)) => {
                Some(Requirement::Fixed(preg))
            },
            (Requirement::Register(_), Requirement::Register(_)) => Some(self),
            (Requirement::Fixed(a), Requirement::Fixed(b)) => if a == b {
                Some(self)
            } else {
                None
            },
        }
    }

    /// What an operand demands.
    #[verifier::allow_in_spec]
    pub fn from_operand(op: Operand) -> Requirement
        returns
            (match op.policy {
                OperandPolicy::FixedReg(preg) => Requirement::Fixed(preg),
                OperandPolicy::Reg => Requirement::Register(op.vreg.class),
                OperandPolicy::Reuse(_) => Requirement::Register(op.vreg.class),
                OperandPolicy::Any => Requirement::Any(op.vreg.class),
            }),
    {
        match op.policy() {
            OperandPolicy::FixedReg(preg) => Requirement::Fixed(preg),
            OperandPolicy::Reg | OperandPolicy::Reuse(_) => Requirement::Register(op.class()),
            _ => Requirement::Any(op.class()),
        }
    }
}

/// The order of two demands does not matter.
pub proof fn law_merge_commutes(a: Requirement, b: Requirement)
    ensures
        a.both(b) == b.both(a),
{
}

/// Merging a demand with itself changes nothing.
pub proof fn law_merge_idempotent(a: Requirement)
    ensures
        a.both(a) == Some(a),
{
}

/// The order in which three demands are merged does not matter.
pub proof fn law_merge_associative(a: Requirement, b: Requirement, c: Requirement)
    ensures
        (match a.both(b) {
            Some(ab) => ab.both(c),
            None => None,
        }) == (match b.both(c) {
            Some(bc) => a.both(bc),
            None => None,
        }),
{
}

/// What two demands are merged into implies both of them.
pub proof fn law_merge_implies(a: Requirement, b: Requirement)
    ensures
        a.both(b) matches Some(m) ==> m.implies(a) && m.implies(b),
{
}

} // verus!
