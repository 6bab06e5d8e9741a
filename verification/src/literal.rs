use vstd::prelude::*;

verus! {

/// A literal of a CNF formula: a variable index together with a polarity.
pub trait Literal {
    /// The index of the variable that the literal speaks of.
    spec fn spec_value(&self) -> usize;

    /// Whether the literal evaluates to true under the (partial) assignment.
    spec fn spec_satisfied_by(&self, variables: Seq<Option<bool>>) -> bool;

    fn value(&self) -> (r: usize)
        ensures
            r == self.spec_value(),
    ;

    fn is_satisfied(&self, variables: &Vec<Option<bool>>) -> (r: bool)
        requires
            self.spec_value() < variables@.len(),
        ensures
            r == self.spec_satisfied_by(variables@),
    ;
}

/// A literal: the variable itself or its negation. Variables are numbered from 0.
#[derive(Clone, Copy, Debug, Hash, PartialEq, Eq, Structural)]
pub enum SimpleLiteral {
    Positive(usize),
    Negative(usize),
}

impl SimpleLiteral {
    /// The variable of the literal.
    pub open spec fn var(self) -> usize {
        match self {
            SimpleLiteral::Positive(v) => v,
            SimpleLiteral::Negative(v) => v,
        }
    }

    /// The value that the variable must take for the literal to hold.
    pub open spec fn polarity(self) -> bool {
        self is Positive
    }

    /// The literal holds under `a`: its variable is assigned its polarity.
    pub open spec fn holds(self, a: Seq<Option<bool>>) -> bool {
        a[self.var() as int] == Some(self.polarity())
    }

    /// The literal's variable is unassigned under `a`.
    pub open spec fn is_free(self, a: Seq<Option<bool>>) -> bool {
        a[self.var() as int] is None
    }

    /// The literal fails under `a`: its variable is assigned the opposite value.
    pub open spec fn fails(self, a: Seq<Option<bool>>) -> bool {
        a[self.var() as int] == Some(!self.polarity())
    }
}

impl Literal for SimpleLiteral {
    open spec fn spec_value(&self) -> usize {
        self.var()
    }

    open spec fn spec_satisfied_by(&self, variables: Seq<Option<bool>>) -> bool {
        self.holds(variables)
    }

    fn value(&self) -> (r: usize) {
        match *self {
            SimpleLiteral::Positive(literal_index) => literal_index,
            SimpleLiteral::Negative(literal_index) => literal_index,
        }
    }

    fn is_satisfied(&self, variables: &Vec<Option<bool>>) -> (r: bool) {
        match *self {
            SimpleLiteral::Positive(literal_index) => match variables[literal_index] {
                Some(assigned_value) => assigned_value,
                None => false,
            },
            SimpleLiteral::Negative(literal_index) => match variables[literal_index] {
                Some(assigned_value) => !assigned_value,
                None => false,
            },
        }
    }
}

/// Under any assignment a literal holds, fails, or is free, and exactly one of these.
pub proof fn law_literal_trichotomy(l: SimpleLiteral, a: Seq<Option<bool>>)
    ensures
        l.holds(a) || l.fails(a) || l.is_free(a),
        !(l.holds(a) && l.fails(a)),
        !(l.holds(a) && l.is_free(a)),
        !(l.fails(a) && l.is_free(a)),
{
    match a[l.var() as int] {
        Some(b) => {
            if b == l.polarity() {
                assert(l.holds(a));
            } else {
                assert(l.fails(a));
            }
        },
        None => {},
    }
}

/// A literal and its negation never hold together.
pub proof fn law_complementary_literals(v: usize, a: Seq<Option<bool>>)
    ensures
        !(SimpleLiteral::Positive(v).holds(a) && SimpleLiteral::Negative(v).holds(a)),
{
}

} // verus!
