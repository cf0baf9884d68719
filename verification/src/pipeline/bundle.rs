//! [`PipelinesBundle`]: the pipelines applied to one and the same page.
//!
//! A bundle is what a page class is worth: the pipelines that process the pages of that class.
//! Pipelines are deduplicated by name: they always come from a name-to-pipeline map, so "the same
//! pipeline" and "the same name" mean the same thing here.

use vstd::prelude::*;
use vstd::std_specs::iter::IteratorSpec;

use crate::pipeline::{Pipeline, PipelineName};

verus! {

/// The names of a sequence of pipelines.
pub open spec fn names_of<E: ?Sized, F: ?Sized, D: ?Sized>(v: Seq<Pipeline<E, F, D>>) -> Seq<Seq<char>> {
    v.map_values(|p: Pipeline<E, F, D>| p.name@)
}

/// Whether a pipeline has a pipe in each of its three segments.
pub open spec fn complete<E: ?Sized, F: ?Sized, D: ?Sized>(p: Pipeline<E, F, D>) -> bool {
    p.pdf_extract.pipes().len() > 0 && p.text_filter.pipes().len() > 0 && p.deserialize.pipes().len() > 0
}

/// An ordered, name-deduplicated set of pipelines run over the same page.
pub struct PipelinesBundle<E: ?Sized, F: ?Sized, D: ?Sized>(Vec<Pipeline<E, F, D>>);

impl<E: ?Sized, F: ?Sized, D: ?Sized> PipelinesBundle<E, F, D> {
    #[verifier::type_invariant]
    spec fn names_distinct(self) -> bool {
        names_of(self.0@).no_duplicates()
    }

    /// The pipelines, in order.
    pub closed spec fn pipelines(self) -> Seq<Pipeline<E, F, D>> {
        self.0@
    }

    pub fn new() -> (r: Self)
        ensures
            r.pipelines().len() == 0,
    {
        let r = PipelinesBundle(Vec::new());
        assert(names_of(r.0@) =~= Seq::<Seq<char>>::empty());
        r
    }

    /// The position of the pipeline named `name`, if the bundle holds it.
    fn position(&self, name: &PipelineName) -> (r: Option<usize>)
        ensures
            match r {
                Some(i) => i < self.pipelines().len() && self.pipelines()[i as int].name@ == name@,
                None => !names_of(self.pipelines()).contains(name@),
            },
    {
        let mut i: usize = 0;
        while i < self.0.len()
            invariant
                i <= self.0.len(),
                forall|k: int| 0 <= k < i ==> #[trigger] names_of(self.0@)[k] != name@,
            decreases self.0.len() - i,
        {
            assert(names_of(self.0@)[i as int] == self.0@[i as int].name@);
            if self.0[i].name.eq(name) {
                return Some(i);
            }
            i = i + 1;
        }
        None
    }

    /// Appends a pipeline unless one with the same name is already present. Returns whether it
    /// was actually added.
    pub fn push(&mut self, pipeline: Pipeline<E, F, D>) -> (added: bool)
        ensures
            added == !names_of(old(self).pipelines()).contains(pipeline.name@),
            final(self).pipelines() == (if added {
                old(self).pipelines().push(pipeline)
            } else {
                old(self).pipelines()
            }),
    {
        if self.position(&pipeline.name).is_some() {
            proof {
                let i = choose|i: int| 0 <= i < self.0@.len() && self.0@[i].name@ == pipeline.name@;
                assert(names_of(self.0@)[i] == pipeline.name@);
            }
            return false;
        }
        proof {
            use_type_invariant(&*self);
        }
        let ghost before = self.0@;
        let mut items: Vec<Pipeline<E, F, D>> = Vec::new();
        std::mem::swap(&mut items, &mut self.0);
        items.push(pipeline);
        assert(names_of(items@) =~= names_of(before).push(items@.last().name@));
        self.0 = items;
        true
    }

    /// The pipelines, in order.
    pub fn iter(&self) -> (r: std::slice::Iter<'_, Pipeline<E, F, D>>)
        ensures
            r.remaining().map_values(|p: &Pipeline<E, F, D>| *p) == self.pipelines(),
    {
        let items = self.0.as_slice();
        let r = items.iter();
        proof {
            vstd::std_specs::slice::axiom_spec_slice_iter(items);
            assert(r.remaining().map_values(|p: &Pipeline<E, F, D>| *p) =~= self.pipelines());
        }
        r
    }

    pub fn len(&self) -> (r: usize)
        ensures
            r == self.pipelines().len(),
    {
        self.0.len()
    }

    pub fn is_empty(&self) -> (r: bool)
        ensures
            r == (self.pipelines().len() == 0),
    {
        self.0.len() == 0
    }

    /// The pipeline with this name, if the bundle holds it.
    pub fn get(&self, name: &PipelineName) -> (r: Option<&Pipeline<E, F, D>>)
        ensures
            match r {
                Some(p) => names_of(self.pipelines()).contains(name@) && p.name@ == name@
                    && self.pipelines().contains(*p),
                None => !names_of(self.pipelines()).contains(name@),
            },
    {
        match self.position(name) {
            Some(i) => {
                proof {
                    assert(names_of(self.0@)[i as int] == name@);
                }
                Some(&self.0[i])
            },
            None => None,
        }
    }

    /// Whether every pipeline of the bundle is complete; an empty bundle vacuously is.
    pub fn is_complete(&self) -> (r: bool)
        ensures
            r == (forall|i: int| 0 <= i < self.pipelines().len() ==> complete(#[trigger] self.pipelines()[i])),
    {
        let mut i: usize = 0;
        while i < self.0.len()
            invariant
                i <= self.0.len(),
                forall|k: int| 0 <= k < i ==> complete(#[trigger] self.0@[k]),
            decreases self.0.len() - i,
        {
            if !self.0[i].is_complete() {
                assert(!complete(self.pipelines()[i as int]));
                return false;
            }
            i = i + 1;
        }
        true
    }

    /// The names of the incomplete pipelines, in order.
    pub fn incomplete(&self) -> (r: Vec<&PipelineName>)
        ensures
            r@.map_values(|n: &PipelineName| n@) == names_of(
                self.pipelines().filter(|p: Pipeline<E, F, D>| !complete(p)),
            ),
    {
        let mut out: Vec<&PipelineName> = Vec::new();
        let mut i: usize = 0;
        while i < self.0.len()
            invariant
                i <= self.0.len(),
                out@.map_values(|n: &PipelineName| n@) == names_of(
                    self.0@.take(i as int).filter(|p: Pipeline<E, F, D>| !complete(p)),
                ),
            decreases self.0.len() - i,
        {
            let ghost before = out@.map_values(|n: &PipelineName| n@);
            assert(self.0@.take(i + 1).drop_last() =~= self.0@.take(i as int));
            reveal(Seq::filter);
            if !self.0[i].is_complete() {
                out.push(&self.0[i].name);
                assert(out@.map_values(|n: &PipelineName| n@) =~= before.push(self.0@[i as int].name@));
            }
            assert(out@.map_values(|n: &PipelineName| n@) =~= names_of(
                self.0@.take(i + 1).filter(|p: Pipeline<E, F, D>| !complete(p)),
            ));
            i = i + 1;
        }
        assert(self.0@.take(self.0.len() as int) =~= self.0@);
        out
    }
}

impl<E: ?Sized, F: ?Sized, D: ?Sized> Default for PipelinesBundle<E, F, D> {
    fn default() -> (r: Self)
        ensures
            r.pipelines().len() == 0,
    {
        PipelinesBundle::new()
    }
}

} // verus!
