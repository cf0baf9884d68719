//! How many pages at a time.
//!
//! The engine does not decide by itself how much to parallelise: it receives a [`Parallelism`]
//! and follows it. One page at a time is the sequential path, with no thread pool touched at all.

use vstd::prelude::*;

verus! {

/// How much parallelism the engine may use.
#[derive(Debug, Clone, Copy, PartialEq, Eq, Structural)]
pub struct Parallelism {
    /// How many pages of the same step (or of the same classification) to process together.
    /// `1` means sequential, not "one thread".
    pub pages: usize,
}

impl Parallelism {
    /// The usual behaviour: no thread, no pool, nothing observably different.
    pub fn sequential() -> (r: Parallelism)
        ensures
            r.pages == 1,
    {
        Parallelism { pages: 1 }
    }

    /// As many pages as there are hardware threads, given how many the system reports; a system
    /// that cannot tell (`None`) gets one, not an invented number.
    pub fn auto(available_threads: Option<usize>) -> (r: Parallelism)
        ensures
            r.pages == match available_threads {
                Some(n) => if n >= 1 { n } else { 1 },
                None => 1,
            },
    {
        match available_threads {
            Some(n) => Parallelism::pages(n),
            None => Parallelism::sequential(),
        }
    }

    /// `pages` pages at a time, with `0` taken as `1`.
    pub fn pages(pages: usize) -> (r: Parallelism)
        ensures
            r.pages == if pages >= 1 { pages } else { 1 },
    {
        Parallelism { pages: if pages >= 1 { pages } else { 1 } }
    }

    /// Whether it is worth distributing `count` units of work: never a single one, never when
    /// sequential.
    pub fn is_worth_it(&self, count: usize) -> (r: bool)
        ensures
            r == (self.pages > 1 && count > 1),
    {
        self.pages > 1 && count > 1
    }
}

impl Default for Parallelism {
    fn default() -> (r: Self)
        ensures
            r.pages == 1,
    {
        Parallelism::sequential()
    }
}

} // verus!
