//! The identity of a document and of its format, how a page is found by its number, and the
//! failure that concerns a page as a whole.
//!
//! A page failure travelling up through a pipe is non-fatal: the page is skipped and the run
//! carries on, since a malformed page should cost that page, not the report.

use vstd::prelude::*;

use crate::text::{str_eq, string_of};

verus! {

/// A document's identifier: a short name, a path, or a URL.
#[derive(Debug, PartialOrd, Ord, Hash)]
pub struct DocumentId(String);

impl View for DocumentId {
    type V = Seq<char>;

    closed spec fn view(&self) -> Seq<char> {
        self.0@
    }
}

impl DocumentId {
    pub fn new(id: &str) -> (r: Self)
        ensures
            r@ == id@,
    {
        DocumentId(string_of(id))
    }

    pub fn as_str(&self) -> (r: &str)
        ensures
            r@ == self@,
    {
        self.0.as_str()
    }

    /// The identifier, as it is displayed: its bare string.
    pub fn to_string(&self) -> (r: String)
        ensures
            r@ == self@,
    {
        string_of(self.0.as_str())
    }
}

impl Clone for DocumentId {
    fn clone(&self) -> (r: Self)
        ensures
            r@ == self@,
    {
        DocumentId(string_of(self.0.as_str()))
    }
}

impl PartialEq for DocumentId {
    fn eq(&self, other: &Self) -> (r: bool) {
        str_eq(self.0.as_str(), other.0.as_str())
    }
}

impl vstd::std_specs::cmp::PartialEqSpecImpl for DocumentId {
    open spec fn obeys_eq_spec() -> bool {
        true
    }

    open spec fn eq_spec(&self, other: &Self) -> bool {
        self@ == other@
    }
}

impl Eq for DocumentId {
}

/// The name of a format in a formats repository, for example `EURIZON-EN23`.
#[derive(Debug, PartialOrd, Ord, Hash)]
pub struct FormatName(String);

impl View for FormatName {
    type V = Seq<char>;

    closed spec fn view(&self) -> Seq<char> {
        self.0@
    }
}

impl FormatName {
    pub fn new(name: &str) -> (r: Self)
        ensures
            r@ == name@,
    {
        FormatName(string_of(name))
    }

    pub fn as_str(&self) -> (r: &str)
        ensures
            r@ == self@,
    {
        self.0.as_str()
    }

    /// The identifier, as it is displayed: its bare string.
    pub fn to_string(&self) -> (r: String)
        ensures
            r@ == self@,
    {
        string_of(self.0.as_str())
    }
}

impl Clone for FormatName {
    fn clone(&self) -> (r: Self)
        ensures
            r@ == self@,
    {
        FormatName(string_of(self.0.as_str()))
    }
}

impl PartialEq for FormatName {
    fn eq(&self, other: &Self) -> (r: bool) {
        str_eq(self.0.as_str(), other.0.as_str())
    }
}

impl vstd::std_specs::cmp::PartialEqSpecImpl for FormatName {
    open spec fn obeys_eq_spec() -> bool {
        true
    }

    open spec fn eq_spec(&self, other: &Self) -> bool {
        self@ == other@
    }
}

impl Eq for FormatName {
}

/// Failures that concern a page as a whole rather than a single pipe.
#[derive(Debug, PartialEq, Eq)]
pub enum PageError {
    ParseFail { message: String },
    LineParseFail { message: String },
}

impl PageError {
    /// The message carried by the error, which is all it displays.
    pub fn message(&self) -> (r: &str)
        ensures
            r@ == match self {
                PageError::ParseFail { message } => message@,
                PageError::LineParseFail { message } => message@,
            },
    {
        match self {
            PageError::ParseFail { message } => message.as_str(),
            PageError::LineParseFail { message } => message.as_str(),
        }
    }

    /// The human-readable message of the error.
    pub fn to_string(&self) -> (r: String)
        ensures
            r@ == match self {
                PageError::ParseFail { message } => message@,
                PageError::LineParseFail { message } => message@,
            },
    {
        string_of(self.message())
    }
}

/// The position, among a document's `(number, page)` pairs, of the page numbered `number`: looked
/// up by the page's own 1-based number rather than by position, since a document may hold a
/// non-contiguous subset of its pages. The first such page when several bear the number.
pub fn page_position<P>(pages: &Vec<(u32, P)>, number: u32) -> (r: Option<usize>)
    ensures
        r is None <==> forall|j: int| 0 <= j < pages.len() ==> (#[trigger] pages@[j]).0 != number,
        r matches Some(i) ==> i < pages.len() && pages@[i as int].0 == number && forall|j: int|
            0 <= j < i ==> (#[trigger] pages@[j]).0 != number,
{
    let mut i: usize = 0;
    while i < pages.len()
        invariant
            i <= pages.len(),
            forall|j: int| 0 <= j < i ==> (#[trigger] pages@[j]).0 != number,
        decreases pages.len() - i,
    {
        if pages[i].0 == number {
            return Some(i);
        }
        i = i + 1;
    }
    None
}

} // verus!
