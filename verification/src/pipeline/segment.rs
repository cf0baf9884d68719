//! [`Segment<P>`]: the ordered, identity-deduplicated collection of the pipes of one segment.
//!
//! Pipes run in insertion order. They are deduplicated by identity (the same allocation behind
//! two `Arc`s), not by value: two pipes configured identically but built separately are two
//! distinct pipes and both run.

use std::sync::Arc;

use vstd::prelude::*;
use vstd::std_specs::iter::IteratorSpec;

use crate::classes::value::{BlockValue, BlockValueView};
use crate::text::push_char;

verus! {

/// `Arc::ptr_eq`: whether the two handles point to the same allocation. Two handles on one
/// allocation hold one value, so a `true` answer implies equal values; which handles share an
/// allocation is not visible to specifications and is left unsaid.
#[verifier::external_body]
fn same_allocation<P: ?Sized>(a: &Arc<P>, b: &Arc<P>) -> (r: bool)
    ensures
        r ==> *a == *b,
{
    Arc::ptr_eq(a, b)
}

/// `Arc::clone`: a second handle on the same allocation, hence on the same value.
#[verifier::external_body]
fn share<P: ?Sized>(a: &Arc<P>) -> (r: Arc<P>)
    ensures
        r == *a,
{
    Arc::clone(a)
}

/// `ix` picks the items of `part` out of `whole` at strictly increasing positions.
pub open spec fn picks<T>(part: Seq<T>, whole: Seq<T>, ix: Seq<int>) -> bool {
    &&& ix.len() == part.len()
    &&& forall|a: int, b: int| 0 <= a < b < ix.len() ==> ix[a] < ix[b]
    &&& forall|a: int|
        0 <= a < ix.len() ==> 0 <= #[trigger] ix[a] < whole.len() && part[a] == whole[ix[a]]
}

/// `part` is a subsequence of `whole`: its items occur in `whole`, in the same order.
pub open spec fn is_subsequence<T>(part: Seq<T>, whole: Seq<T>) -> bool {
    exists|ix: Seq<int>| #[trigger] picks(part, whole, ix)
}

/// `r` is a union of `a` and `b` preserving order: `a` first, then items of `b` in `b`'s order,
/// with every item of `b` somewhere in `r`.
pub open spec fn union_of<T>(r: Seq<T>, a: Seq<T>, b: Seq<T>) -> bool {
    &&& r.len() >= a.len()
    &&& r.take(a.len() as int) == a
    &&& forall|k: int| a.len() <= k < r.len() ==> b.contains(#[trigger] r[k])
    &&& forall|j: int| 0 <= j < b.len() ==> r.contains(#[trigger] b[j])
    &&& is_subsequence(r.skip(a.len() as int), b)
}

/// An ordered, identity-deduplicated collection of pipes of the same segment.
pub struct Segment<P: ?Sized>(Vec<Arc<P>>);

impl<P: ?Sized> Segment<P> {
    /// The pipes, in order.
    pub closed spec fn pipes(&self) -> Seq<Arc<P>> {
        self.0@
    }

    pub fn new() -> (r: Self)
        ensures
            r.pipes() == Seq::<Arc<P>>::empty(),
    {
        Segment(Vec::new())
    }

    /// Appends a pipe unless it is already present by identity. Returns whether it was actually
    /// added: when it was, it is now last; when it was not, the segment is unchanged and already
    /// held that pipe.
    pub fn push(&mut self, pipe: Arc<P>) -> (added: bool)
        ensures
            added ==> final(self).pipes() == old(self).pipes().push(pipe),
            !added ==> final(self).pipes() == old(self).pipes() && old(self).pipes().contains(pipe),
    {
        let mut i: usize = 0;
        while i < self.0.len()
            invariant
                i <= self.0.len(),
            decreases self.0.len() - i,
        {
            if same_allocation(&self.0[i], &pipe) {
                assert(self.0@[i as int] == pipe);
                return false;
            }
            i = i + 1;
        }
        self.0.push(pipe);
        true
    }

    /// The pipes, in order.
    pub fn iter(&self) -> (r: std::slice::Iter<'_, Arc<P>>)
        ensures
            r.remaining().map_values(|p: &Arc<P>| *p) == self.pipes(),
    {
        let items = self.0.as_slice();
        let r = items.iter();
        proof {
            vstd::std_specs::slice::axiom_spec_slice_iter(items);
            assert(r.remaining().map_values(|p: &Arc<P>| *p) =~= self.pipes());
        }
        r
    }

    pub fn len(&self) -> (r: usize)
        ensures
            r == self.pipes().len(),
    {
        self.0.len()
    }

    pub fn is_empty(&self) -> (r: bool)
        ensures
            r == (self.pipes().len() == 0),
    {
        self.0.len() == 0
    }

    /// A second segment holding the same pipes.
    pub fn duplicate(&self) -> (r: Self)
        ensures
            r.pipes() == self.pipes(),
    {
        let mut items: Vec<Arc<P>> = Vec::new();
        let mut i: usize = 0;
        while i < self.0.len()
            invariant
                i <= self.0.len(),
                items@ == self.0@.take(i as int),
            decreases self.0.len() - i,
        {
            items.push(share(&self.0[i]));
            assert(items@ =~= self.0@.take(i + 1));
            i = i + 1;
        }
        assert(self.0@.take(self.0.len() as int) =~= self.0@);
        Segment(items)
    }

    /// Union preserving order: this segment's pipes first, then those of `other` that are not
    /// already present by identity, in their order. Every pipe of `other` left out has an equal
    /// pipe in the union.
    pub fn union(&self, other: &Self) -> (r: Self)
        ensures
            union_of(r.pipes(), self.pipes(), other.pipes()),
    {
        let ghost n = self.pipes().len() as int;
        let mut merged = self.duplicate();
        let ghost mut ix: Seq<int> = Seq::empty();
        let mut j: usize = 0;
        assert(picks(merged.pipes().skip(n), other.pipes().take(0), ix));
        while j < other.0.len()
            invariant
                j <= other.0.len(),
                n == self.pipes().len(),
                picks(merged.pipes().skip(n), other.pipes().take(j as int), ix),
                merged.pipes().len() >= self.pipes().len(),
                merged.pipes().take(self.pipes().len() as int) == self.pipes(),
                forall|k: int|
                    self.pipes().len() <= k < merged.pipes().len() ==> other.pipes().contains(
                        #[trigger] merged.pipes()[k],
                    ),
                forall|m: int| 0 <= m < j ==> merged.pipes().contains(#[trigger] other.pipes()[m]),
            decreases other.0.len() - j,
        {
            let ghost before = merged.pipes();
            let pipe = share(&other.0[j]);
            assert(other.pipes()[j as int] == pipe);
            let added = merged.push(pipe);
            proof {
                let old_ix = ix;
                if added {
                    ix = ix.push(j as int);
                    let tail = merged.pipes().skip(n);
                    assert(tail =~= before.skip(n).push(pipe));
                    assert forall|a: int| 0 <= a < ix.len() implies 0 <= #[trigger] ix[a] < other.pipes().take(j + 1).len()
                        && tail[a] == other.pipes().take(j + 1)[ix[a]] by {
                        if a < old_ix.len() {
                            assert(ix[a] == old_ix[a]);
                            assert(before.skip(n)[a] == other.pipes().take(j as int)[old_ix[a]]);
                        }
                    }
                } else {
                    assert forall|a: int| 0 <= a < ix.len() implies 0 <= #[trigger] ix[a] < other.pipes().take(j + 1).len()
                        && merged.pipes().skip(n)[a] == other.pipes().take(j + 1)[ix[a]] by {
                        assert(before.skip(n)[a] == other.pipes().take(j as int)[ix[a]]);
                    }
                }
                if added {
                    assert(merged.pipes().take(self.pipes().len() as int) =~= before.take(
                        self.pipes().len() as int,
                    ));
                    assert forall|m: int| 0 <= m <= j implies merged.pipes().contains(
                        #[trigger] other.pipes()[m],
                    ) by {
                        if m < j {
                            let w = choose|w: int|
                                0 <= w < before.len() && before[w] == other.pipes()[m];
                            assert(merged.pipes()[w] == other.pipes()[m]);
                        } else {
                            assert(merged.pipes()[before.len() as int] == other.pipes()[m]);
                        }
                    }
                    assert forall|k: int|
                        self.pipes().len() <= k < merged.pipes().len() implies other.pipes().contains(
                        #[trigger] merged.pipes()[k],
                    ) by {
                        if k < before.len() {
                            assert(merged.pipes()[k] == before[k]);
                        } else {
                            assert(other.pipes()[j as int] == merged.pipes()[k]);
                        }
                    }
                }
            }
            j = j + 1;
        }
        assert(other.pipes().take(other.pipes().len() as int) =~= other.pipes());
        assert(picks(merged.pipes().skip(n), other.pipes(), ix));
        merged
    }
}

impl<P: ?Sized> Default for Segment<P> {
    fn default() -> (r: Self)
        ensures
            r.pipes() == Seq::<Arc<P>>::empty(),
    {
        Segment::new()
    }
}

impl<P: ?Sized> Clone for Segment<P> {
    fn clone(&self) -> (r: Self)
        ensures
            r.pipes() == self.pipes(),
    {
        self.duplicate()
    }
}

/// Past this many characters a log excerpt is cut, with an ellipsis: a line of log stays one line.
pub const MAX_EXCERPT_CHARS: usize = 60;

/// What a block's content shows in one line of log, as plain values.
pub enum ExcerptView {
    Empty,
    Text(Seq<char>),
    Rendered(BlockValueView),
}

/// What a block's content shows in one line of log: nothing, a text to paste into a PDF viewer's
/// search box, or a value to show in its debug form.
#[derive(Debug)]
pub enum Excerpt<'a> {
    Empty,
    Text(&'a str),
    Rendered(&'a BlockValue),
}

/// A container reduces to its first element, recursively, so a table shows its first cell.
pub open spec fn excerpt_of(v: BlockValueView) -> ExcerptView
    decreases v,
{
    match v {
        BlockValueView::Null => ExcerptView::Empty,
        BlockValueView::Str(t) => ExcerptView::Text(t),
        BlockValueView::List(items) => if items.len() == 0 {
            ExcerptView::Empty
        } else {
            excerpt_of(items[0])
        },
        BlockValueView::SetOf(items) => if items.len() == 0 {
            ExcerptView::Empty
        } else {
            excerpt_of(items[0])
        },
        BlockValueView::MapOf(entries) => if entries.len() == 0 {
            ExcerptView::Empty
        } else {
            excerpt_of(entries[0].1)
        },
        _ => ExcerptView::Rendered(v),
    }
}

/// The leaf of a block's content that a log line shows.
pub fn excerpt_leaf(value: &BlockValue) -> (r: Excerpt<'_>)
    ensures
        match r {
            Excerpt::Empty => excerpt_of(value@) == ExcerptView::Empty,
            Excerpt::Text(t) => excerpt_of(value@) == ExcerptView::Text(t@),
            Excerpt::Rendered(v) => excerpt_of(value@) == ExcerptView::Rendered(v@),
        },
    decreases value,
{
    match value {
        BlockValue::Null => Excerpt::Empty,
        BlockValue::Str(t) => Excerpt::Text(t.as_str()),
        BlockValue::List(items) => {
            if items.len() == 0 {
                Excerpt::Empty
            } else {
                assert(value@->List_0[0] == items@[0]@);
                excerpt_leaf(&items[0])
            }
        },
        BlockValue::SetOf(items) => {
            if items.len() == 0 {
                Excerpt::Empty
            } else {
                assert(value@->SetOf_0[0] == items@[0]@);
                excerpt_leaf(&items[0])
            }
        },
        BlockValue::MapOf(entries) => {
            if entries.len() == 0 {
                Excerpt::Empty
            } else {
                assert(value@->MapOf_0[0].1 == entries@[0].1@);
                excerpt_leaf(&entries[0].1)
            }
        },
        _ => Excerpt::Rendered(value),
    }
}

/// `raw` cut to its first [`MAX_EXCERPT_CHARS`] characters followed by an ellipsis, when longer.
pub open spec fn truncated(raw: Seq<char>) -> Seq<char> {
    if raw.len() <= MAX_EXCERPT_CHARS {
        raw
    } else {
        raw.take(MAX_EXCERPT_CHARS as int).push('…')
    }
}

/// Keeps a log excerpt to one line.
pub fn truncate_excerpt(raw: &str) -> (r: String)
    ensures
        r@ == truncated(raw@),
{
    let n = raw.unicode_len();
    let mut out = String::new();
    let limit: usize = if n <= MAX_EXCERPT_CHARS {
        n
    } else {
        MAX_EXCERPT_CHARS
    };
    let mut i: usize = 0;
    while i < limit
        invariant
            i <= limit,
            limit <= n,
            n == raw@.len(),
            out@ == raw@.take(i as int),
        decreases limit - i,
    {
        push_char(&mut out, raw.get_char(i));
        assert(out@ =~= raw@.take(i + 1));
        i = i + 1;
    }
    if n > MAX_EXCERPT_CHARS {
        push_char(&mut out, '…');
    } else {
        assert(raw@.take(n as int) =~= raw@);
    }
    out
}

} // verus!
