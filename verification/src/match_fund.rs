//! [`MatchFund`]: a fund's identity, defined by its normalised name.
//!
//! The same fund appears spelled in ways that differ by accents, case, punctuation or spacing. A
//! [`MatchFund`] keeps the name as written next to its deeply normalised form, which is the only
//! thing equality looks at. The normalised form is derived and kept private, so the two can never
//! drift apart.

use vstd::prelude::*;

use crate::normalization::{deep_normalize_string, deep_normalized};
use crate::text::{str_eq, string_of};

verus! {

/// A fund name, comparable up to accents, punctuation, case and spacing.
#[derive(Debug)]
pub struct MatchFund {
    name: String,
    n_name: String,
}

impl MatchFund {
    #[verifier::type_invariant]
    spec fn consistent(self) -> bool {
        self.n_name@ == deep_normalized(self.name@, false)
    }

    /// The name as written.
    pub closed spec fn written(self) -> Seq<char> {
        self.name@
    }

    /// The normalised form, on which identity is based.
    pub closed spec fn identity(self) -> Seq<char> {
        self.n_name@
    }

    pub fn new(name: &str) -> (r: Self)
        ensures
            r.written() == name@,
            r.identity() == deep_normalized(name@, false),
    {
        let n_name = deep_normalize_string(name);
        MatchFund { name: string_of(name), n_name }
    }

    /// The name as written in the document: this is what goes into the output.
    pub fn name(&self) -> (r: &str)
        ensures
            r@ == self.written(),
    {
        self.name.as_str()
    }

    /// The normalised form, on which identity is based.
    pub fn normalized(&self) -> (r: &str)
        ensures
            r@ == self.identity(),
            r@ == deep_normalized(self.written(), false),
    {
        proof {
            use_type_invariant(self);
        }
        self.n_name.as_str()
    }

    /// The normalised form, as a fund is displayed: it is what comparison acts on, and in a log it
    /// explains why two differently written names were treated as one fund.
    pub fn to_string(&self) -> (r: String)
        ensures
            r@ == self.identity(),
    {
        string_of(self.n_name.as_str())
    }

    /// Whether this name and the given one denote the same fund, without building a second
    /// [`MatchFund`] to compare against: exactly when `MatchFund::new(other)` would be equal to
    /// this one.
    pub fn matches(&self, other: &str) -> (r: bool)
        ensures
            r == (self.identity() == deep_normalized(other@, false)),
    {
        let other_normalized = deep_normalize_string(other);
        str_eq(self.n_name.as_str(), other_normalized.as_str())
    }

    /// A copy with the same name and the same identity.
    pub fn duplicate(&self) -> (r: Self)
        ensures
            r.written() == self.written(),
            r.identity() == self.identity(),
    {
        proof {
            use_type_invariant(self);
        }
        MatchFund { name: string_of(self.name.as_str()), n_name: string_of(self.n_name.as_str()) }
    }
}

impl Clone for MatchFund {
    fn clone(&self) -> (r: Self)
        ensures
            r.written() == self.written(),
            r.identity() == self.identity(),
    {
        self.duplicate()
    }
}

impl PartialEq for MatchFund {
    fn eq(&self, other: &Self) -> (r: bool) {
        str_eq(self.n_name.as_str(), other.n_name.as_str())
    }
}

impl vstd::std_specs::cmp::PartialEqSpecImpl for MatchFund {
    open spec fn obeys_eq_spec() -> bool {
        true
    }

    open spec fn eq_spec(&self, other: &Self) -> bool {
        self.identity() == other.identity()
    }
}

impl Eq for MatchFund {
}

impl std::hash::Hash for MatchFund {
    /// `String::hash` over the normalised form alone, so that two equal funds hash alike. Nothing
    /// is stated of the hasher's state.
    #[verifier::external_body]
    fn hash<H: std::hash::Hasher>(&self, state: &mut H) {
        self.n_name.hash(state)
    }
}

} // verus!
