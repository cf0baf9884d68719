//! A pipeline is three segments, `pdf_extract` -> `text_filter` -> `deserialize`, under a name.
//!
//! This module holds the pipeline's name and [`segment::Segment`], the ordered, deduplicated
//! collection each of the three segments is.

pub mod bundle;
pub mod data;
pub mod segment;

use vstd::prelude::*;

use crate::pipeline::segment::{union_of, Segment};
use crate::text::{join, join_strings, str_eq, string_of};

verus! {

/// The name of a pipeline within a format: the parenthesised part of
/// `<format>(<pipeline>)/<index>`.
///
/// The empty string is a legitimate name: in a formats repository it identifies the "no group"
/// pipeline.
#[derive(Debug, PartialOrd, Ord, Hash)]
pub struct PipelineName(String);

impl View for PipelineName {
    type V = Seq<char>;

    closed spec fn view(&self) -> Seq<char> {
        self.0@
    }
}

impl PipelineName {
    pub fn new(name: &str) -> (r: Self)
        ensures
            r@ == name@,
    {
        PipelineName(string_of(name))
    }

    pub fn as_str(&self) -> (r: &str)
        ensures
            r@ == self@,
    {
        self.0.as_str()
    }

    /// The name, as it is displayed.
    pub fn to_string(&self) -> (r: String)
        ensures
            r@ == self@,
    {
        string_of(self.0.as_str())
    }
}

impl Default for PipelineName {
    fn default() -> (r: Self)
        ensures
            r@ == Seq::<char>::empty(),
    {
        PipelineName(String::new())
    }
}

impl Clone for PipelineName {
    fn clone(&self) -> (r: Self)
        ensures
            r@ == self@,
    {
        PipelineName(string_of(self.0.as_str()))
    }
}

impl PartialEq for PipelineName {
    fn eq(&self, other: &Self) -> (r: bool) {
        str_eq(self.0.as_str(), other.0.as_str())
    }
}

impl vstd::std_specs::cmp::PartialEqSpecImpl for PipelineName {
    open spec fn obeys_eq_spec() -> bool {
        true
    }

    open spec fn eq_spec(&self, other: &Self) -> bool {
        self@ == other@
    }
}

impl Eq for PipelineName {
}

/// The names of the segments that are empty, in chain order.
pub open spec fn missing_names(extract_empty: bool, filter_empty: bool, deserialize_empty: bool) -> Seq<
    Seq<char>,
> {
    (if extract_empty {
        seq!["pdf_extract"@]
    } else {
        Seq::empty()
    }) + (if filter_empty {
        seq!["text_filter"@]
    } else {
        Seq::empty()
    }) + (if deserialize_empty {
        seq!["deserialize"@]
    } else {
        Seq::empty()
    })
}

/// The three segments, applied to a page in order, under the pipeline's name. `E`, `F` and `D`
/// are the pipes of the `pdf_extract`, `text_filter` and `deserialize` segments.
pub struct Pipeline<E: ?Sized, F: ?Sized, D: ?Sized> {
    pub name: PipelineName,
    pub pdf_extract: Segment<E>,
    pub text_filter: Segment<F>,
    pub deserialize: Segment<D>,
}

impl<E: ?Sized, F: ?Sized, D: ?Sized> Pipeline<E, F, D> {
    /// A pipeline with the given name and three empty segments.
    pub fn new(name: &str) -> (r: Self)
        ensures
            r.name@ == name@,
            r.pdf_extract.pipes().len() == 0,
            r.text_filter.pipes().len() == 0,
            r.deserialize.pipes().len() == 0,
    {
        Pipeline {
            name: PipelineName::new(name),
            pdf_extract: Segment::new(),
            text_filter: Segment::new(),
            deserialize: Segment::new(),
        }
    }

    /// Whether all three segments hold at least one pipe: only such a pipeline can produce
    /// anything.
    pub fn is_complete(&self) -> (r: bool)
        ensures
            r == (self.pdf_extract.pipes().len() > 0 && self.text_filter.pipes().len() > 0
                && self.deserialize.pipes().len() > 0),
    {
        !self.pdf_extract.is_empty() && !self.text_filter.is_empty() && !self.deserialize.is_empty()
    }

    /// The names of the empty segments, in chain order and comma-separated: what the error
    /// reporting an incomplete pipeline says is missing.
    pub fn missing_segments(&self) -> (r: String)
        ensures
            r@ == join(
                missing_names(
                    self.pdf_extract.pipes().len() == 0,
                    self.text_filter.pipes().len() == 0,
                    self.deserialize.pipes().len() == 0,
                ),
                ", "@,
            ),
    {
        let mut missing: Vec<String> = Vec::new();
        if self.pdf_extract.is_empty() {
            missing.push(string_of("pdf_extract"));
        }
        if self.text_filter.is_empty() {
            missing.push(string_of("text_filter"));
        }
        if self.deserialize.is_empty() {
            missing.push(string_of("deserialize"));
        }
        proof {
            reveal_strlit("pdf_extract");
            reveal_strlit("text_filter");
            reveal_strlit("deserialize");
            assert(missing@.map_values(|p: String| p@) =~= missing_names(
                self.pdf_extract.pipes().len() == 0,
                self.text_filter.pipes().len() == 0,
                self.deserialize.pipes().len() == 0,
            ));
        }
        join_strings(&missing, ", ")
    }

    /// Merges the three segments one by one, keeping the left operand's name: how a format's
    /// layers combine into one pipeline.
    pub fn add(self, rhs: Self) -> (r: Self)
        ensures
            r.name@ == self.name@,
            union_of(r.pdf_extract.pipes(), self.pdf_extract.pipes(), rhs.pdf_extract.pipes()),
            union_of(r.text_filter.pipes(), self.text_filter.pipes(), rhs.text_filter.pipes()),
            union_of(r.deserialize.pipes(), self.deserialize.pipes(), rhs.deserialize.pipes()),
    {
        Pipeline {
            name: self.name,
            pdf_extract: self.pdf_extract.union(&rhs.pdf_extract),
            text_filter: self.text_filter.union(&rhs.text_filter),
            deserialize: self.deserialize.union(&rhs.deserialize),
        }
    }

    /// A second pipeline with the same name and the same pipes.
    pub fn duplicate(&self) -> (r: Self)
        ensures
            r.name@ == self.name@,
            r.pdf_extract.pipes() == self.pdf_extract.pipes(),
            r.text_filter.pipes() == self.text_filter.pipes(),
            r.deserialize.pipes() == self.deserialize.pipes(),
    {
        Pipeline {
            name: self.name.clone(),
            pdf_extract: self.pdf_extract.duplicate(),
            text_filter: self.text_filter.duplicate(),
            deserialize: self.deserialize.duplicate(),
        }
    }
}

} // verus!
