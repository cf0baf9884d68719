//! The two maps through which promises are collected and then resolved.
//!
//! 1. as the pages of a document are deserialized, every pipe deposits `(id, value)` pairs into a
//!    `PromiseMap`, a multimap: several pages may contribute to the same id;
//! 2. once the document is finished the multimap is flattened (`PromiseMap::flatten`): references
//!    between promises are followed and replaced by the contributions of the id they point at,
//!    while every id keeps its own sequence of contributions;
//! 3. entities are resolved against the resulting `FlatPromiseMap`.
//!
//! A container is not a contribution: flattening synthesises no list. A `Null` is a
//! non-contribution and is dropped. A reference to an id with nothing to give stays pending and is
//! not an error here; only a genuine cycle is.
//!
//! Both maps keep their ids in ascending order, so flattening visits ids in a fixed order and the
//! chain reported for a cycle does not depend on insertion order.

use vstd::prelude::*;

use crate::classes::value::{clone_values, value_view, BlockValue, BlockValueView};
use crate::promise::{Promise, PromiseError, PromiseErrorView, PromiseView};
use crate::text::{
    keys_sorted, lemma_text_lt_asymmetric, lemma_text_lt_irreflexive, lemma_text_lt_total,
    lemma_text_lt_transitive, str_eq, string_of, text_less, text_lt,
};

verus! {

/// The view of a run of contributions.
pub open spec fn values_view(v: Seq<BlockValue>) -> Seq<BlockValueView> {
    v.map_values(|x: BlockValue| value_view(x))
}

/// The view of an id-keyed table of contributions.
pub open spec fn table_view(v: Seq<(String, Vec<BlockValue>)>) -> Seq<(Seq<char>, Seq<BlockValueView>)> {
    v.map_values(|e: (String, Vec<BlockValue>)| (e.0@, values_view(e.1@)))
}

/// The position of the last entry of `m` whose key is `k`, `-1` if there is none.
pub open spec fn key_index<X>(m: Seq<(Seq<char>, X)>, k: Seq<char>) -> int
    decreases m.len(),
{
    if m.len() == 0 {
        -1
    } else if m.last().0 == k {
        m.len() - 1
    } else {
        key_index(m.drop_last(), k)
    }
}

/// The contributions recorded under `k`.
pub open spec fn lookup(m: Seq<(Seq<char>, Seq<BlockValueView>)>, k: Seq<char>) -> Option<Seq<BlockValueView>> {
    let i = key_index(m, k);
    if i >= 0 {
        Some(m[i].1)
    } else {
        None
    }
}

pub proof fn lemma_key_index_bounds<X>(m: Seq<(Seq<char>, X)>, k: Seq<char>)
    ensures
        -1 <= key_index(m, k) < m.len(),
        key_index(m, k) >= 0 ==> m[key_index(m, k)].0 == k,
        key_index(m, k) < 0 ==> forall|i: int| 0 <= i < m.len() ==> m[i].0 != k,
    decreases m.len(),
{
    if m.len() > 0 && m.last().0 != k {
        lemma_key_index_bounds(m.drop_last(), k);
        assert forall|i: int| 0 <= i < m.len() && key_index(m, k) < 0 implies m[i].0 != k by {
            if i < m.len() - 1 {
                assert(m.drop_last()[i] == m[i]);
            }
        }
    }
}

pub proof fn lemma_key_index_push<X>(m: Seq<(Seq<char>, X)>, x: (Seq<char>, X), k: Seq<char>)
    ensures
        key_index(m.push(x), k) == if x.0 == k {
            m.len() as int
        } else {
            key_index(m, k)
        },
{
    assert(m.push(x).drop_last() =~= m);
}

/// In a table without repeated keys, the entry holding `k` is the one `key_index` finds.
pub proof fn lemma_key_index_unique<X>(m: Seq<(Seq<char>, X)>, k: Seq<char>, i: int)
    requires
        keys_sorted(m),
        0 <= i < m.len(),
        m[i].0 == k,
    ensures
        key_index(m, k) == i,
    decreases m.len(),
{
    if i < m.len() - 1 {
        lemma_text_lt_irreflexive(k);
        assert(text_lt(m[i].0, m[m.len() - 1].0));
        assert(m.last().0 != k);
        assert forall|a: int, b: int| 0 <= a < b < m.drop_last().len() implies text_lt(
            #[trigger] m.drop_last()[a].0,
            #[trigger] m.drop_last()[b].0,
        ) by {
            assert(m.drop_last()[a] == m[a] && m.drop_last()[b] == m[b]);
        }
        assert(m.drop_last()[i] == m[i]);
        lemma_key_index_unique(m.drop_last(), k, i);
    }
}

/// Where `key` sits in a key-sorted table: `(true, i)` if entry `i` holds it, `(false, i)` if it
/// belongs just before entry `i`.
fn locate(entries: &Vec<(String, Vec<BlockValue>)>, key: &str) -> (r: (bool, usize))
    requires
        keys_sorted(table_view(entries@)),
    ensures
        r.1 <= entries.len(),
        r.0 ==> r.1 < entries.len() && entries[r.1 as int].0@ == key@,
        r.0 == (key_index(table_view(entries@), key@) >= 0),
        r.0 ==> key_index(table_view(entries@), key@) == r.1,
        forall|k: int| 0 <= k < r.1 ==> text_lt(#[trigger] entries[k].0@, key@),
        !r.0 ==> forall|k: int| r.1 <= k < entries.len() ==> text_lt(key@, #[trigger] entries[k].0@),
{
    let ghost t = table_view(entries@);
    let mut i: usize = 0;
    while i < entries.len()
        invariant
            t == table_view(entries@),
            keys_sorted(t),
            i <= entries.len(),
            forall|k: int| 0 <= k < i ==> text_lt(#[trigger] entries[k].0@, key@),
        decreases entries.len() - i,
    {
        if !text_less(entries[i].0.as_str(), key) {
            assert(t[i as int].0 == entries[i as int].0@);
            if str_eq(entries[i].0.as_str(), key) {
                proof {
                    lemma_key_index_unique(t, key@, i as int);
                }
                return (true, i);
            }
            proof {
                lemma_text_lt_total(entries[i as int].0@, key@);
                assert forall|k: int| i <= k < entries.len() implies text_lt(key@, #[trigger] entries[k].0@) by {
                    if k > i {
                        assert(t[k].0 == entries[k].0@);
                        assert(text_lt(t[i as int].0, t[k].0));
                        lemma_text_lt_transitive(key@, entries[i as int].0@, entries[k].0@);
                    }
                }
                lemma_key_index_bounds(t, key@);
                if key_index(t, key@) >= 0 {
                    let j = key_index(t, key@);
                    assert(t[j].0 == entries[j].0@);
                    lemma_text_lt_irreflexive(key@);
                }
            }
            return (false, i);
        }
        i = i + 1;
    }
    proof {
        lemma_key_index_bounds(t, key@);
        if key_index(t, key@) >= 0 {
            let j = key_index(t, key@);
            assert(t[j].0 == entries[j].0@);
            lemma_text_lt_irreflexive(key@);
        }
    }
    (false, i)
}

/// In a key-sorted table, the key of entry `i` is found at `i`.
pub proof fn lemma_key_index_sorted_at<X>(m: Seq<(Seq<char>, X)>, i: int)
    requires
        keys_sorted(m),
        0 <= i < m.len(),
    ensures
        key_index(m, m[i].0) == i,
{
    lemma_key_index_unique(m, m[i].0, i);
}

/// The contributions recorded under `k`, empty if there are none.
pub open spec fn contributions_of(m: Seq<(Seq<char>, Seq<BlockValueView>)>, k: Seq<char>) -> Seq<BlockValueView> {
    match lookup(m, k) {
        Some(cs) => cs,
        None => Seq::empty(),
    }
}

/// Every key of `m` is looked up at its own entry.
pub proof fn lemma_lookup_sorted(m: Seq<(Seq<char>, Seq<BlockValueView>)>, i: int)
    requires
        keys_sorted(m),
        0 <= i < m.len(),
    ensures
        key_index(m, m[i].0) == i,
        lookup(m, m[i].0) == Some(m[i].1),
{
    lemma_key_index_unique(m, m[i].0, i);
}

/// A key held by no entry is looked up as absent.
pub proof fn lemma_lookup_absent<X>(m: Seq<(Seq<char>, X)>, k: Seq<char>)
    requires
        forall|i: int| 0 <= i < m.len() ==> m[i].0 != k,
    ensures
        key_index(m, k) < 0,
{
    lemma_key_index_bounds(m, k);
}

/// Replacing or inserting the entry at `pos` keeps the table sorted when its key sits between
/// the neighbours, and changes what is looked up only under that key.
proof fn lemma_table_set(
    old_t: Seq<(Seq<char>, Seq<BlockValueView>)>,
    new_t: Seq<(Seq<char>, Seq<BlockValueView>)>,
    pos: int,
    e: (Seq<char>, Seq<BlockValueView>),
    replaced: bool,
)
    requires
        keys_sorted(old_t),
        0 <= pos <= old_t.len(),
        replaced ==> pos < old_t.len() && old_t[pos].0 == e.0,
        new_t == (if replaced { old_t.update(pos, e) } else { old_t.insert(pos, e) }),
        forall|k: int| 0 <= k < pos ==> text_lt(#[trigger] old_t[k].0, e.0),
        !replaced ==> forall|k: int| pos <= k < old_t.len() ==> text_lt(e.0, #[trigger] old_t[k].0),
    ensures
        keys_sorted(new_t),
        lookup(new_t, e.0) == Some(e.1),
        forall|k: Seq<char>| k != e.0 ==> #[trigger] lookup(new_t, k) == lookup(old_t, k),
{
    assert forall|a: int, b: int| 0 <= a < b < new_t.len() implies text_lt(
        #[trigger] new_t[a].0,
        #[trigger] new_t[b].0,
    ) by {
        if replaced {
            if a == pos {
                assert(text_lt(old_t[a].0, old_t[b].0));
            } else if b == pos {
                assert(text_lt(old_t[a].0, old_t[b].0));
            } else {
                assert(text_lt(old_t[a].0, old_t[b].0));
            }
        } else {
            if a < pos && b == pos {
            } else if a < pos && b > pos {
                assert(new_t[b] == old_t[b - 1]);
                assert(text_lt(old_t[a].0, old_t[b - 1].0));
            } else if a == pos {
                assert(new_t[b] == old_t[b - 1]);
            } else if a > pos {
                assert(new_t[a] == old_t[a - 1] && new_t[b] == old_t[b - 1]);
                assert(text_lt(old_t[a - 1].0, old_t[b - 1].0));
            } else {
                assert(text_lt(old_t[a].0, old_t[b].0));
            }
        }
    }
    assert(new_t[pos] == e);
    lemma_lookup_sorted(new_t, pos);
    assert forall|k: Seq<char>| k != e.0 implies #[trigger] lookup(new_t, k) == lookup(old_t, k) by {
        lemma_key_index_bounds(old_t, k);
        let j = key_index(old_t, k);
        if j >= 0 {
            let jn = if replaced || j < pos { j } else { j + 1 };
            assert(new_t[jn] == old_t[j]);
            lemma_lookup_sorted(new_t, jn);
            lemma_lookup_sorted(old_t, j);
        } else {
            assert forall|i: int| 0 <= i < new_t.len() implies new_t[i].0 != k by {
                if i != pos {
                    let io = if replaced || i < pos { i } else { i - 1 };
                    assert(new_t[i] == old_t[io]);
                }
            }
            lemma_lookup_absent(new_t, k);
        }
    }
}

/// The view of a single contribution run stays the view after one more value is pushed.
proof fn lemma_values_view_push(v: Seq<BlockValue>, x: BlockValue)
    ensures
        values_view(v.push(x)) == values_view(v).push(value_view(x)),
{
    assert(values_view(v.push(x)) =~= values_view(v).push(value_view(x)));
}

/// A multimap of `id -> contributions`, filled one page at a time.
///
/// Ids are kept in ascending order, each once; an id's contributions keep insertion order.
#[derive(Debug)]
pub struct PromiseMap {
    entries: Vec<(String, Vec<BlockValue>)>,
}

impl View for PromiseMap {
    type V = Seq<(Seq<char>, Seq<BlockValueView>)>;

    closed spec fn view(&self) -> Seq<(Seq<char>, Seq<BlockValueView>)> {
        table_view(self.entries@)
    }
}

impl PromiseMap {
    #[verifier::type_invariant]
    spec fn sorted(self) -> bool {
        &&& keys_sorted(table_view(self.entries@))
        &&& forall|i: int| 0 <= i < self.entries.len() ==> (#[trigger] table_view(self.entries@)[i]).1.len() > 0
    }

    /// An empty multimap.
    pub fn new() -> (m: PromiseMap)
        ensures
            m@ == Seq::<(Seq<char>, Seq<BlockValueView>)>::empty(),
    {
        let m = PromiseMap { entries: Vec::new() };
        assert(table_view(m.entries@) =~= Seq::<(Seq<char>, Seq<BlockValueView>)>::empty());
        m
    }

    /// States the map's invariant: ids ascending, each once, each with at least one contribution.
    fn reveal_order(&self)
        ensures
            keys_sorted(self@),
            forall|i: int| 0 <= i < self@.len() ==> (#[trigger] self@[i]).1.len() > 0,
    {
        proof {
            use_type_invariant(self);
        }
    }

    /// Appends a contribution for `id`, after the ones already there.
    pub fn push(&mut self, id: &str, value: BlockValue)
        ensures
            keys_sorted(final(self)@),
            lookup(final(self)@, id@) == Some(contributions_of(old(self)@, id@).push(value@)),
            forall|k: Seq<char>| k != id@ ==> #[trigger] lookup(final(self)@, k) == lookup(old(self)@, k),
    {
        proof {
            use_type_invariant(&*self);
        }
        let ghost old_t = self@;
        let mut entries: Vec<(String, Vec<BlockValue>)> = Vec::new();
        std::mem::swap(&mut entries, &mut self.entries);
        let ghost value_v = value@;
        let (found, pos) = locate(&entries, id);
        if found {
            let (key, mut values) = entries.remove(pos);
            let ghost before = values@;
            values.push(value);
            proof {
                lemma_values_view_push(before, values@.last());
                assert(before.push(values@.last()) =~= values@);
                lemma_lookup_sorted(old_t, pos as int);
            }
            entries.insert(pos, (key, values));
            proof {
                assert(table_view(entries@) =~= old_t.update(pos as int, (id@, old_t[pos as int].1.push(value_v))));
                lemma_table_set(old_t, table_view(entries@), pos as int, (id@, old_t[pos as int].1.push(value_v)), true);
                assert forall|i: int| 0 <= i < entries.len() implies (#[trigger] table_view(entries@)[i]).1.len() > 0 by {
                    if i != pos {
                        assert(table_view(entries@)[i] == old_t[i]);
                    }
                }
            }
        } else {
            let mut values: Vec<BlockValue> = Vec::new();
            values.push(value);
            proof {
                assert(values_view(values@) =~= seq![value_v]);
                lemma_key_index_bounds(old_t, id@);
                assert(contributions_of(old_t, id@) =~= Seq::<BlockValueView>::empty());
                assert(seq![value_v] =~= Seq::<BlockValueView>::empty().push(value_v));
            }
            entries.insert(pos, (string_of(id), values));
            proof {
                assert(table_view(entries@) =~= old_t.insert(pos as int, (id@, seq![value_v])));
                lemma_table_set(old_t, table_view(entries@), pos as int, (id@, seq![value_v]), false);
                assert forall|i: int| 0 <= i < entries.len() implies (#[trigger] table_view(entries@)[i]).1.len() > 0 by {
                    if i < pos {
                        assert(table_view(entries@)[i] == old_t[i]);
                    } else if i > pos {
                        assert(table_view(entries@)[i] == old_t[i - 1]);
                    }
                }
            }
        }
        self.entries = entries;
    }

    /// Pours every pair into the multimap, in order.
    pub fn merge(&mut self, pairs: Vec<(String, BlockValue)>)
        ensures
            keys_sorted(final(self)@),
            forall|k: Seq<char>| #[trigger] contributions_of(final(self)@, k) == contributions_of(old(self)@, k)
                + pair_values(pairs@.map_values(|p: (String, BlockValue)| (p.0@, p.1@)), k),
            forall|k: Seq<char>| #[trigger] lookup(final(self)@, k).is_some() == (lookup(old(self)@, k).is_some()
                || pair_values(pairs@.map_values(|p: (String, BlockValue)| (p.0@, p.1@)), k).len() > 0),
    {
        self.reveal_order();
        let ghost start = self@;
        let ghost pv = pairs@.map_values(|p: (String, BlockValue)| (p.0@, p.1@));
        let ghost orig = pairs@;
        let mut pairs = pairs;
        let mut done: usize = 0;
        assert(orig.len() == pairs.len());
        while pairs.len() > 0
            invariant
                done <= orig.len() <= usize::MAX,
                pairs.len() == orig.len() - done,
                pairs@ == orig.skip(done as int),
                pv == orig.map_values(|p: (String, BlockValue)| (p.0@, p.1@)),
                keys_sorted(self@),
                forall|k: Seq<char>| #[trigger] contributions_of(self@, k) == contributions_of(start, k)
                    + pair_values(pv.take(done as int), k),
                forall|k: Seq<char>| #[trigger] lookup(self@, k).is_some() == (lookup(start, k).is_some()
                    || pair_values(pv.take(done as int), k).len() > 0),
            decreases pairs.len(),
        {
            let (id, value) = pairs.remove(0);
            let ghost value_v = value@;
            let ghost m_before = self@;
            let ghost taken = pv.take(done as int);
            let ghost next = pv.take(done + 1);
            proof {
                assert(orig.skip(done as int)[0] == orig[done as int]);
                assert(next =~= taken.push(pv[done as int]));
                assert(pv[done as int] == (id@, value_v));
                assert(next.drop_last() =~= taken);
                assert(next.last() == (id@, value_v));
            }
            self.push(id.as_str(), value);
            done = done + 1;
            proof {
                assert(pairs@ =~= orig.skip(done as int));
                assert forall|k: Seq<char>| #[trigger] contributions_of(self@, k) == contributions_of(start, k)
                    + pair_values(next, k) by {
                    if k == id@ {
                        assert(pair_values(next, k) == pair_values(taken, k).push(value_v));
                        assert(contributions_of(start, k) + pair_values(taken, k).push(value_v) =~= (
                        contributions_of(start, k) + pair_values(taken, k)).push(value_v));
                    } else {
                        assert(pair_values(next, k) == pair_values(taken, k));
                        assert(contributions_of(m_before, k) == contributions_of(start, k) + pair_values(taken, k));
                    }
                }
                assert forall|k: Seq<char>| #[trigger] lookup(self@, k).is_some() == (lookup(start, k).is_some()
                    || pair_values(next, k).len() > 0) by {
                    if k != id@ {
                        assert(pair_values(next, k) == pair_values(taken, k));
                        assert(lookup(m_before, k).is_some() == (lookup(start, k).is_some()
                            || pair_values(taken, k).len() > 0));
                    } else {
                        assert(pair_values(next, k) == pair_values(taken, k).push(value_v));
                    }
                }
            }
        }
        assert(done == orig.len());
        assert(pv.take(pv.len() as int) =~= pv);
    }

    /// The contributions recorded for `id`, in insertion order.
    pub fn get(&self, id: &str) -> (r: Option<&Vec<BlockValue>>)
        ensures
            r.is_some() == lookup(self@, id@).is_some(),
            r matches Some(v) ==> Some(values_view(v@)) == lookup(self@, id@),
    {
        proof {
            use_type_invariant(self);
        }
        let (found, pos) = locate(&self.entries, id);
        if found {
            proof {
                lemma_lookup_sorted(self@, pos as int);
            }
            Some(&self.entries[pos].1)
        } else {
            None
        }
    }

    /// Whether no id has been recorded.
    pub fn is_empty(&self) -> (r: bool)
        ensures
            r == (self@.len() == 0),
    {
        self.entries.len() == 0
    }

    /// The number of ids recorded.
    pub fn len(&self) -> (r: usize)
        ensures
            r == self@.len(),
    {
        self.entries.len()
    }

    /// The ids with their contributions, in ascending id order, each once and each with at least
    /// one contribution.
    pub fn entries(&self) -> (r: &Vec<(String, Vec<BlockValue>)>)
        ensures
            table_view(r@) == self@,
            keys_sorted(self@),
            forall|i: int| 0 <= i < self@.len() ==> (#[trigger] self@[i]).1.len() > 0,
    {
        proof {
            use_type_invariant(self);
        }
        &self.entries
    }
}

/// A map of `id -> flattened contributions`, produced by `PromiseMap::flatten` and used to
/// resolve.
///
/// No id appears with an empty run of contributions: an id with nothing to give is simply absent.
#[derive(Debug)]
pub struct FlatPromiseMap {
    entries: Vec<(String, Vec<BlockValue>)>,
}

impl View for FlatPromiseMap {
    type V = Seq<(Seq<char>, Seq<BlockValueView>)>;

    closed spec fn view(&self) -> Seq<(Seq<char>, Seq<BlockValueView>)> {
        table_view(self.entries@)
    }
}

impl FlatPromiseMap {
    #[verifier::type_invariant]
    spec fn well_formed(self) -> bool {
        &&& keys_sorted(table_view(self.entries@))
        &&& forall|i: int| 0 <= i < self.entries.len() ==> (#[trigger] table_view(self.entries@)[i]).1.len() > 0
    }

    /// An empty map.
    pub fn new() -> (m: FlatPromiseMap)
        ensures
            m@ == Seq::<(Seq<char>, Seq<BlockValueView>)>::empty(),
    {
        let m = FlatPromiseMap { entries: Vec::new() };
        assert(table_view(m.entries@) =~= Seq::<(Seq<char>, Seq<BlockValueView>)>::empty());
        m
    }

    /// The contributions recorded for `id`, in order; never empty.
    pub fn get(&self, id: &str) -> (r: Option<&Vec<BlockValue>>)
        ensures
            r.is_some() == lookup(self@, id@).is_some(),
            r matches Some(v) ==> Some(values_view(v@)) == lookup(self@, id@) && v.len() > 0,
    {
        proof {
            use_type_invariant(self);
        }
        let (found, pos) = locate(&self.entries, id);
        if found {
            proof {
                lemma_lookup_sorted(self@, pos as int);
                assert(table_view(self.entries@)[pos as int].1.len() > 0);
            }
            Some(&self.entries[pos].1)
        } else {
            None
        }
    }

    /// Whether no id has contributions.
    pub fn is_empty(&self) -> (r: bool)
        ensures
            r == (self@.len() == 0),
    {
        self.entries.len() == 0
    }

    /// The number of ids with contributions.
    pub fn len(&self) -> (r: usize)
        ensures
            r == self@.len(),
    {
        self.entries.len()
    }

    /// The ids with their contributions, in ascending id order, each once and each with at least
    /// one contribution.
    pub fn entries(&self) -> (r: &Vec<(String, Vec<BlockValue>)>)
        ensures
            table_view(r@) == self@,
            keys_sorted(self@),
            forall|i: int| 0 <= i < self@.len() ==> (#[trigger] self@[i]).1.len() > 0,
    {
        proof {
            use_type_invariant(self);
        }
        &self.entries
    }

    /// Resolves one promise against this map.
    ///
    /// An id absent from the map is unresolved; contributions still pending are discarded, and if
    /// none is left the promise is unresolved too. A multiple promise gets the list of all the
    /// remaining contributions, a list contribution going in as one element; an ordinary promise
    /// gets the last one, the contribution of the latest page.
    pub fn fulfill(&self, promise: &Promise) -> (r: Result<BlockValue, PromiseError>)
        ensures
            r is Ok <==> fulfill_spec(self@, promise@) is Ok,
            r matches Ok(v) ==> fulfill_spec(self@, promise@) == Ok::<BlockValueView, PromiseErrorView>(v@),
            r matches Err(e) ==> fulfill_spec(self@, promise@) == Err::<BlockValueView, PromiseErrorView>(e@),
    {
        let contributions = match self.get(promise.id()) {
            Some(cs) => cs,
            None => {
                return Err(promise.unresolved());
            },
        };
        let ghost cs = values_view(contributions@);
        let mut candidates: Vec<BlockValue> = Vec::new();
        let mut j: usize = 0;
        while j < contributions.len()
            invariant
                j <= contributions.len(),
                cs == values_view(contributions@),
                values_view(candidates@) == non_promises(cs.take(j as int)),
            decreases contributions.len() - j,
        {
            proof {
                assert(cs.take(j + 1).drop_last() =~= cs.take(j as int));
                assert(cs[j as int] == value_view(contributions@[j as int]));
            }
            if !contributions[j].is_promise() {
                let ghost before = candidates@;
                candidates.push(contributions[j].clone());
                proof {
                    assert(values_view(candidates@) =~= values_view(before).push(cs[j as int]));
                }
            }
            j = j + 1;
        }
        proof {
            assert(cs.take(cs.len() as int) =~= cs);
        }
        if candidates.len() == 0 {
            return Err(promise.unresolved());
        }
        if promise.multiple() {
            let v = BlockValue::List(candidates);
            proof {
                assert(value_view(v)->List_0 =~= non_promises(cs));
            }
            return Ok(v);
        }
        let last = candidates.len() - 1;
        let v = candidates[last].clone();
        Ok(v)
    }
}

/// The contributions that are not pending promises, in order.
pub open spec fn non_promises(cs: Seq<BlockValueView>) -> Seq<BlockValueView>
    decreases cs.len(),
{
    if cs.len() == 0 {
        Seq::empty()
    } else if cs.last() is Promise {
        non_promises(cs.drop_last())
    } else {
        non_promises(cs.drop_last()).push(cs.last())
    }
}

/// What resolving promise `p` against the flattened map `f` gives.
pub open spec fn fulfill_spec(f: Seq<(Seq<char>, Seq<BlockValueView>)>, p: PromiseView) -> Result<BlockValueView, PromiseErrorView> {
    match lookup(f, p.id) {
        None => Err(PromiseErrorView::Unresolved { id: p.id }),
        Some(cs) => {
            let candidates = non_promises(cs);
            if candidates.len() == 0 {
                Err(PromiseErrorView::Unresolved { id: p.id })
            } else if p.multiple {
                Ok(BlockValueView::List(candidates))
            } else {
                Ok(candidates.last())
            }
        },
    }
}

/// A run in which nothing is `Null` and every promise points outside `g` splices into itself.
pub proof fn lemma_splice_identity(cs: Seq<BlockValueView>, g: Seq<(Seq<char>, Seq<BlockValueView>)>)
    requires
        forall|j: int|
            0 <= j < cs.len() ==> !((#[trigger] cs[j]) is Null) && (cs[j] is Promise ==> !has_key(g, cs[j]->Promise_0.id)),
    ensures
        splice(cs, g) == cs,
    decreases cs.len(),
{
    if cs.len() > 0 {
        lemma_splice_identity(cs.drop_last(), g);
        assert(!(cs.last() is Null));
        assert(cs.drop_last().push(cs.last()) =~= cs);
        assert(seq![cs.last()] =~= Seq::empty().push(cs.last()));
        assert(cs.drop_last() + seq![cs.last()] =~= cs);
    }
}

/// Two tables looked up the same way for every id agree on `has_key` and on the contributions.
proof fn lemma_lookup_agree(
    f: Seq<(Seq<char>, Seq<BlockValueView>)>,
    g: Seq<(Seq<char>, Seq<BlockValueView>)>,
    t: Seq<char>,
)
    requires
        has_key(f, t) == has_key(g, t),
        has_key(f, t) ==> f[key_index(f, t)].1 == g[key_index(g, t)].1,
    ensures
        lookup(f, t) == lookup(g, t),
{
}

/// Flattening a flattened map changes nothing: re-inserted into a multimap one contribution at a
/// time, a flattened map has no cycle, and every flattening of it holds, for every id, exactly
/// what the first flattening holds.
pub proof fn law_flatten_idempotent(
    m: Seq<(Seq<char>, Seq<BlockValueView>)>,
    f: Seq<(Seq<char>, Seq<BlockValueView>)>,
    g: Seq<(Seq<char>, Seq<BlockValueView>)>,
)
    requires
        keys_sorted(m),
        is_flattening(m, f),
        flat_settled(f),
        keys_sorted(f),
        is_flattening(f, g),
    ensures
        !has_cycle(f),
        forall|t: Seq<char>| #[trigger] lookup(g, t) == lookup(f, t),
{
    if has_cycle(f) {
        let chain = choose|chain: Seq<Seq<char>>| is_cycle(f, chain);
        assert(refers(f, chain[0], chain[1]));
        let a = chain[0];
        let ca = contributions_of(f, a);
        let j = choose|j: int| 0 <= j < ca.len() && (#[trigger] ca[j]) is Promise && ca[j]->Promise_0.id == chain[1];
        lemma_key_index_bounds(f, a);
        let i = key_index(f, a);
        assert(f[i].1[j] == ca[j]);
        assert(!has_key(f, chain[1]));
        if chain.len() > 2 {
            assert(refers(f, chain[1], chain[2]));
        }
    }
    assert forall|t: Seq<char>| #[trigger] lookup(g, t) == lookup(f, t) by {
        lemma_key_index_bounds(f, t);
        lemma_key_index_bounds(g, t);
        if has_key(f, t) {
            let i = key_index(f, t);
            let cs = f[i].1;
            assert(contributions_of(f, t) == cs);
            assert forall|j: int| 0 <= j < cs.len() implies !((#[trigger] cs[j]) is Null) && (cs[j] is Promise
                ==> !has_key(g, cs[j]->Promise_0.id)) by {
                assert(cs[j] == f[i].1[j]);
                if cs[j] is Promise && has_key(g, cs[j]->Promise_0.id) {
                    assert(has_key(f, cs[j]->Promise_0.id));
                }
            }
            lemma_splice_identity(cs, g);
            lemma_lookup_agree(f, g, t);
        } else {
            if has_key(g, t) {
                assert(has_key(f, t));
            }
        }
    }
}

/// The `(id, contribution)` pairs of a table: id after id, each id's contributions in order.
pub open spec fn pairs_of(f: Seq<(Seq<char>, Seq<BlockValueView>)>) -> Seq<(Seq<char>, BlockValueView)>
    decreases f.len(),
{
    if f.len() == 0 {
        Seq::empty()
    } else {
        pairs_of(f.drop_last()) + f.last().1.map_values(|v: BlockValueView| (f.last().0, v))
    }
}

/// `after` is what [`PromiseMap::push`] of `v` under `id` makes of `before`.
pub open spec fn push_step(
    before: Seq<(Seq<char>, Seq<BlockValueView>)>,
    after: Seq<(Seq<char>, Seq<BlockValueView>)>,
    id: Seq<char>,
    v: BlockValueView,
) -> bool {
    &&& lookup(after, id) == Some(contributions_of(before, id).push(v))
    &&& forall|k: Seq<char>| k != id ==> #[trigger] lookup(after, k) == lookup(before, k)
}

/// `ms` are the successive maps got from an empty one by pushing `pairs` one after the other.
pub open spec fn pushed_in_turn(
    ms: Seq<Seq<(Seq<char>, Seq<BlockValueView>)>>,
    pairs: Seq<(Seq<char>, BlockValueView)>,
) -> bool {
    &&& ms.len() == pairs.len() + 1
    &&& ms[0] == Seq::<(Seq<char>, Seq<BlockValueView>)>::empty()
    &&& forall|p: int| 0 <= p < pairs.len() ==> push_step(#[trigger] ms[p], ms[p + 1], pairs[p].0, pairs[p].1)
}

proof fn lemma_pushes_one_id(
    ms: Seq<Seq<(Seq<char>, Seq<BlockValueView>)>>,
    pairs: Seq<(Seq<char>, BlockValueView)>,
    base: int,
    k: Seq<char>,
    vs: Seq<BlockValueView>,
    q: int,
)
    requires
        pushed_in_turn(ms, pairs),
        0 <= base,
        base + vs.len() <= pairs.len(),
        forall|r: int| 0 <= r < vs.len() ==> #[trigger] pairs[base + r] == (k, vs[r]),
        0 <= q <= vs.len(),
    ensures
        contributions_of(ms[base + q], k) == contributions_of(ms[base], k) + vs.take(q),
        q > 0 ==> lookup(ms[base + q], k) is Some,
        forall|t: Seq<char>| t != k ==> #[trigger] lookup(ms[base + q], t) == lookup(ms[base], t),
    decreases q,
{
    if q == 0 {
        assert(contributions_of(ms[base], k) + vs.take(0) =~= contributions_of(ms[base], k));
    } else {
        lemma_pushes_one_id(ms, pairs, base, k, vs, q - 1);
        let p = base + q - 1;
        assert(pairs[base + (q - 1)] == (k, vs[q - 1]));
        assert(push_step(ms[p], ms[p + 1], pairs[p].0, pairs[p].1));
        assert(vs.take(q) =~= vs.take(q - 1).push(vs[q - 1]));
        assert(contributions_of(ms[base + q], k) =~= contributions_of(ms[base], k) + vs.take(q));
    }
}

proof fn lemma_pushes_rebuild(
    ms: Seq<Seq<(Seq<char>, Seq<BlockValueView>)>>,
    f: Seq<(Seq<char>, Seq<BlockValueView>)>,
)
    requires
        pushed_in_turn(ms, pairs_of(f)),
        forall|a: int, b: int| 0 <= a < b < f.len() ==> #[trigger] f[a].0 != #[trigger] f[b].0,
        forall|i: int| 0 <= i < f.len() ==> (#[trigger] f[i]).1.len() > 0,
    ensures
        forall|t: Seq<char>| #[trigger] lookup(ms.last(), t) == lookup(f, t),
    decreases f.len(),
{
    if f.len() == 0 {
        assert forall|t: Seq<char>| #[trigger] lookup(ms.last(), t) == lookup(f, t) by {
            assert(ms.last() == ms[0]);
        }
    } else {
        let g = f.drop_last();
        let (k, vs) = f.last();
        let base = pairs_of(g).len() as int;
        let pairs = pairs_of(f);
        let tail = vs.map_values(|v: BlockValueView| (k, v));
        assert(pairs == pairs_of(g) + tail);
        let ms0 = ms.take(base + 1);
        assert forall|p: int| 0 <= p < pairs_of(g).len() implies push_step(
            #[trigger] ms0[p],
            ms0[p + 1],
            pairs_of(g)[p].0,
            pairs_of(g)[p].1,
        ) by {
            assert(pairs[p] == pairs_of(g)[p]);
            assert(push_step(ms[p], ms[p + 1], pairs[p].0, pairs[p].1));
        }
        assert forall|a: int, b: int| 0 <= a < b < g.len() implies #[trigger] g[a].0 != #[trigger] g[b].0 by {
            assert(g[a] == f[a] && g[b] == f[b]);
        }
        assert forall|i: int| 0 <= i < g.len() implies (#[trigger] g[i]).1.len() > 0 by {
            assert(g[i] == f[i]);
        }
        lemma_pushes_rebuild(ms0, g);
        assert(ms0.last() == ms[base]);
        assert forall|r: int| 0 <= r < vs.len() implies #[trigger] pairs[base + r] == (k, vs[r]) by {
            assert(pairs[base + r] == tail[r]);
        }
        lemma_pushes_one_id(ms, pairs, base, k, vs, vs.len() as int);
        assert(ms.last() == ms[base + vs.len()]);
        assert(!has_key(g, k)) by {
            if has_key(g, k) {
                lemma_key_index_bounds(g, k);
                assert(g[key_index(g, k)] == f[key_index(g, k)]);
            }
        }
        assert(lookup(ms[base], k) == lookup(g, k));
        assert(vs.take(vs.len() as int) =~= vs);
        assert(f.len() > 0 && f.last().0 == k);
        assert forall|t: Seq<char>| #[trigger] lookup(ms.last(), t) == lookup(f, t) by {
            if t != k {
                assert(lookup(ms0.last(), t) == lookup(g, t));
                assert(lookup(ms[base + vs.len()], t) == lookup(ms[base], t));
                assert(key_index(f, t) == key_index(g, t));
                lemma_key_index_bounds(g, t);
                if key_index(g, t) >= 0 {
                    assert(f[key_index(g, t)] == g[key_index(g, t)]);
                }
            } else {
                assert(f[f.len() - 1].1 == vs);
                assert(key_index(f, k) == f.len() - 1);
                assert(contributions_of(ms[base], k) =~= Seq::<BlockValueView>::empty());
                assert(contributions_of(ms.last(), k) =~= vs);
            }
        }
    }
}

/// Flattening a flattened map changes nothing, once the flattened map is put back into an empty
/// multimap by pushing each of its contributions, id after id and in order: the rebuilt map has
/// no cycle, and every flattening of it holds, for every id, exactly what the flattened map
/// holds.
pub proof fn law_flatten_rebuilt_changes_nothing(
    m: Seq<(Seq<char>, Seq<BlockValueView>)>,
    f: Seq<(Seq<char>, Seq<BlockValueView>)>,
    ms: Seq<Seq<(Seq<char>, Seq<BlockValueView>)>>,
    g: Seq<(Seq<char>, Seq<BlockValueView>)>,
)
    requires
        keys_sorted(m),
        is_flattening(m, f),
        flat_settled(f),
        keys_sorted(f),
        pushed_in_turn(ms, pairs_of(f)),
        is_flattening(ms.last(), g),
    ensures
        !has_cycle(ms.last()),
        forall|t: Seq<char>| #[trigger] lookup(g, t) == lookup(f, t),
{
    let m2 = ms.last();
    assert forall|a: int, b: int| 0 <= a < b < f.len() implies #[trigger] f[a].0 != #[trigger] f[b].0 by {
        lemma_text_lt_irreflexive(f[a].0);
    }
    assert forall|i: int| 0 <= i < f.len() implies (#[trigger] f[i]).1.len() > 0 by {
        lemma_key_index_distinct(f, f[i].0, i);
        assert(has_key(f, f[i].0));
    }
    lemma_pushes_rebuild(ms, f);
    assert forall|k: Seq<char>| #[trigger] has_key(m2, k) == has_key(f, k) && contributions_of(m2, k)
        == contributions_of(f, k) by {
        assert(lookup(m2, k) == lookup(f, k));
    }
    assert(is_flattening(f, g)) by {
        assert forall|k: Seq<char>| #[trigger] has_key(g, k) implies has_key(f, k) by {
            assert(has_key(m2, k) == has_key(f, k));
        }
        assert forall|k: Seq<char>| #[trigger] has_key(f, k) implies (has_key(g, k) <==> splice(
            contributions_of(f, k),
            g,
        ).len() > 0) by {
            assert(has_key(m2, k) == has_key(f, k) && contributions_of(m2, k) == contributions_of(f, k));
        }
        assert forall|k: Seq<char>| #[trigger] has_key(g, k) implies g[key_index(g, k)].1 == splice(
            contributions_of(f, k),
            g,
        ) by {
            assert(has_key(m2, k) == has_key(f, k) && contributions_of(m2, k) == contributions_of(f, k));
        }
    }
    law_flatten_idempotent(m, f, g);
    if has_cycle(m2) {
        let chain = choose|chain: Seq<Seq<char>>| is_cycle(m2, chain);
        assert forall|a: int| 0 <= a < chain.len() - 1 implies refers(f, #[trigger] chain[a], chain[a + 1]) by {
            assert(refers(m2, chain[a], chain[a + 1]));
            assert(has_key(m2, chain[a]) == has_key(f, chain[a]) && contributions_of(m2, chain[a])
                == contributions_of(f, chain[a]));
        }
        assert(is_cycle(f, chain));
    }
}

/// Where no contribution is `Null` or a promise, flattening is the identity: every id keeps all
/// its contributions, in order, containers included.
pub proof fn law_flatten_without_references(
    m: Seq<(Seq<char>, Seq<BlockValueView>)>,
    g: Seq<(Seq<char>, Seq<BlockValueView>)>,
)
    requires
        keys_sorted(m),
        forall|i: int| 0 <= i < m.len() ==> (#[trigger] m[i]).1.len() > 0,
        forall|i: int, j: int|
            0 <= i < m.len() && 0 <= j < m[i].1.len() ==> !((#[trigger] m[i].1[j]) is Null) && !(m[i].1[j] is Promise),
        is_flattening(m, g),
    ensures
        forall|t: Seq<char>| #[trigger] lookup(g, t) == lookup(m, t),
{
    assert forall|t: Seq<char>| #[trigger] lookup(g, t) == lookup(m, t) by {
        lemma_key_index_bounds(m, t);
        lemma_key_index_bounds(g, t);
        if has_key(m, t) {
            let i = key_index(m, t);
            let cs = m[i].1;
            assert forall|j: int| 0 <= j < cs.len() implies !((#[trigger] cs[j]) is Null) && (cs[j] is Promise
                ==> !has_key(g, cs[j]->Promise_0.id)) by {
                assert(cs[j] == m[i].1[j]);
            }
            lemma_splice_identity(cs, g);
            assert(m[i].1.len() > 0);
            lemma_lookup_agree(m, g, t);
        } else if has_key(g, t) {
            assert(has_key(m, t));
        }
    }
}

/// A `Null` is a non-contribution: an id whose contributions are all `Null` is absent from any
/// flattening, exactly like an id that never had any.
pub proof fn law_flatten_drops_nulls(
    m: Seq<(Seq<char>, Seq<BlockValueView>)>,
    g: Seq<(Seq<char>, Seq<BlockValueView>)>,
    k: Seq<char>,
)
    requires
        is_flattening(m, g),
        forall|j: int| 0 <= j < contributions_of(m, k).len() ==> (#[trigger] contributions_of(m, k)[j]) is Null,
    ensures
        !has_key(g, k),
{
    lemma_splice_nulls(contributions_of(m, k), g);
    if has_key(g, k) {
        assert(has_key(m, k));
    }
}

proof fn lemma_splice_nulls(cs: Seq<BlockValueView>, g: Seq<(Seq<char>, Seq<BlockValueView>)>)
    requires
        forall|j: int| 0 <= j < cs.len() ==> (#[trigger] cs[j]) is Null,
    ensures
        splice(cs, g).len() == 0,
    decreases cs.len(),
{
    if cs.len() > 0 {
        lemma_splice_nulls(cs.drop_last(), g);
        assert(cs.last() is Null);
    }
}

/// The values of the pairs whose id is `k`, in order.
pub open spec fn pair_values(pairs: Seq<(Seq<char>, BlockValueView)>, k: Seq<char>) -> Seq<BlockValueView>
    decreases pairs.len(),
{
    if pairs.len() == 0 {
        Seq::empty()
    } else if pairs.last().0 == k {
        pair_values(pairs.drop_last(), k).push(pairs.last().1)
    } else {
        pair_values(pairs.drop_last(), k)
    }
}

/// The view of a list of texts.
pub open spec fn texts_view(v: Seq<String>) -> Seq<Seq<char>> {
    v.map_values(|s: String| s@)
}

/// Whether `k` is an id of the table.
pub open spec fn has_key<X>(m: Seq<(Seq<char>, X)>, k: Seq<char>) -> bool {
    key_index(m, k) >= 0
}

/// Whether one of the contributions recorded under `a` is a promise of `b`.
pub open spec fn refers(m: Seq<(Seq<char>, Seq<BlockValueView>)>, a: Seq<char>, b: Seq<char>) -> bool {
    has_key(m, a) && exists|j: int|
        0 <= j < contributions_of(m, a).len() && (#[trigger] contributions_of(m, a)[j]) is Promise
            && contributions_of(m, a)[j]->Promise_0.id == b
}

/// A chain of references that comes back to where it started.
pub open spec fn is_cycle(m: Seq<(Seq<char>, Seq<BlockValueView>)>, chain: Seq<Seq<char>>) -> bool {
    &&& chain.len() >= 2
    &&& chain[0] == chain.last()
    &&& forall|a: int| 0 <= a < chain.len() - 1 ==> refers(m, #[trigger] chain[a], chain[a + 1])
}

/// Whether the references between the ids of `m` go round in a circle somewhere.
pub open spec fn has_cycle(m: Seq<(Seq<char>, Seq<BlockValueView>)>) -> bool {
    exists|chain: Seq<Seq<char>>| is_cycle(m, chain)
}

/// A path of references that ends by coming back to an id already on it: every id refers to
/// the next, and the last id occurs earlier in the path. The path may enter the cycle from
/// outside it.
pub open spec fn is_cycle_path(m: Seq<(Seq<char>, Seq<BlockValueView>)>, chain: Seq<Seq<char>>) -> bool {
    &&& chain.len() >= 2
    &&& chain.drop_last().contains(chain.last())
    &&& forall|a: int| 0 <= a < chain.len() - 1 ==> refers(m, #[trigger] chain[a], chain[a + 1])
}

/// Whether following references from `k` can run into a cycle.
pub open spec fn reaches_cycle(m: Seq<(Seq<char>, Seq<BlockValueView>)>, k: Seq<char>) -> bool {
    exists|chain: Seq<Seq<char>>| chain.len() > 0 && chain[0] == k && #[trigger] is_cycle_path(m, chain)
}

/// Contribution `j` of `a` is the first promise of `a` from whose target a cycle can be reached.
pub open spec fn first_reaching_at(m: Seq<(Seq<char>, Seq<BlockValueView>)>, a: Seq<char>, j: int) -> bool {
    &&& 0 <= j < contributions_of(m, a).len()
    &&& contributions_of(m, a)[j] is Promise
    &&& reaches_cycle(m, contributions_of(m, a)[j]->Promise_0.id)
    &&& forall|jj: int|
        0 <= jj < j && (#[trigger] contributions_of(m, a)[jj]) is Promise ==> !reaches_cycle(
            m,
            contributions_of(m, a)[jj]->Promise_0.id,
        )
}

/// `b` is where a depth-first walk from `a` heads into a cycle: the target of the first promise
/// among `a`'s contributions from which a cycle can be reached.
pub open spec fn first_step_into_cycle(m: Seq<(Seq<char>, Seq<BlockValueView>)>, a: Seq<char>, b: Seq<char>) -> bool {
    exists|j: int| #[trigger] first_reaching_at(m, a, j) && contributions_of(m, a)[j]->Promise_0.id == b
}

/// The walk reported for a cycle: each next id is where the walk from the current one heads
/// into a cycle, and the walk stops at the first id it meets twice.
pub open spec fn is_cycle_walk(m: Seq<(Seq<char>, Seq<BlockValueView>)>, chain: Seq<Seq<char>>) -> bool {
    &&& is_cycle_path(m, chain)
    &&& chain.drop_last().no_duplicates()
    &&& forall|a: int| 0 <= a < chain.len() - 1 ==> first_step_into_cycle(m, #[trigger] chain[a], chain[a + 1])
}

/// An id that refers to one from which a cycle can be reached reaches it too.
proof fn lemma_reaches_back(m: Seq<(Seq<char>, Seq<BlockValueView>)>, a: Seq<char>, b: Seq<char>)
    requires
        refers(m, a, b),
        reaches_cycle(m, b),
    ensures
        reaches_cycle(m, a),
{
    let c = choose|c: Seq<Seq<char>>| c.len() > 0 && c[0] == b && #[trigger] is_cycle_path(m, c);
    let d = seq![a] + c;
    let t = choose|t: int| 0 <= t < c.drop_last().len() && c.drop_last()[t] == c.last();
    assert(d.drop_last()[t + 1] == d.last());
    assert forall|i: int| 0 <= i < d.len() - 1 implies refers(m, #[trigger] d[i], d[i + 1]) by {
        if i > 0 {
            assert(d[i] == c[i - 1] && d[i + 1] == c[i]);
        }
    }
    assert(is_cycle_path(m, d));
}

/// Every id on a path that runs into a cycle reaches a cycle.
proof fn lemma_path_reaches(m: Seq<(Seq<char>, Seq<BlockValueView>)>, c: Seq<Seq<char>>, u: int)
    requires
        is_cycle_path(m, c),
        0 <= u < c.len(),
    ensures
        reaches_cycle(m, c[u]),
    decreases c.len() - u,
{
    if u == c.len() - 1 {
        let t = choose|t: int| 0 <= t < c.drop_last().len() && c.drop_last()[t] == c.last();
        let d = c.subrange(t, c.len() as int);
        assert(d.drop_last()[0] == d.last());
        assert forall|i: int| 0 <= i < d.len() - 1 implies refers(m, #[trigger] d[i], d[i + 1]) by {
            assert(d[i] == c[t + i] && d[i + 1] == c[t + i + 1]);
        }
        assert(is_cycle_path(m, d));
    } else {
        lemma_path_reaches(m, c, u + 1);
        lemma_reaches_back(m, c[u], c[u + 1]);
    }
}

/// An id with no entry refers to nothing, so no cycle can be reached from it.
proof fn lemma_keyless_reaches_no_cycle(m: Seq<(Seq<char>, Seq<BlockValueView>)>, k: Seq<char>)
    requires
        !has_key(m, k),
    ensures
        !reaches_cycle(m, k),
{
    if reaches_cycle(m, k) {
        let c = choose|c: Seq<Seq<char>>| c.len() > 0 && c[0] == k && #[trigger] is_cycle_path(m, c);
        assert(refers(m, c[0], c[1]));
    }
}

/// A path that runs into a cycle shows that the references go round in a circle.
pub proof fn lemma_cycle_path_has_cycle(m: Seq<(Seq<char>, Seq<BlockValueView>)>, chain: Seq<Seq<char>>)
    requires
        is_cycle_path(m, chain),
    ensures
        has_cycle(m),
{
    let j = chain.drop_last().index_of(chain.last());
    let c = chain.subrange(j, chain.len() as int);
    assert(c[0] == chain[j]);
    assert(c.last() == chain.last());
    assert forall|a: int| 0 <= a < c.len() - 1 implies refers(m, #[trigger] c[a], c[a + 1]) by {
        assert(c[a] == chain[j + a] && c[a + 1] == chain[j + a + 1]);
    }
    assert(is_cycle(m, c));
}

/// From an id already resolved no cycle can be reached: every id it leads to is resolved before
/// it, so following references strictly decreases the completion order.
pub proof fn lemma_resolved_reaches_no_cycle(
    m: Seq<(Seq<char>, Seq<BlockValueView>)>,
    ip: Seq<Seq<char>>,
    rs: Seq<(Seq<char>, Seq<BlockValueView>)>,
    k: Seq<char>,
)
    requires
        flatten_inv(m, ip, rs),
        has_key(rs, k),
    ensures
        !reaches_cycle(m, k),
{
    if reaches_cycle(m, k) {
        let chain = choose|chain: Seq<Seq<char>>| chain.len() > 0 && chain[0] == k && #[trigger] is_cycle_path(m, chain);
        let n = chain.len() as int;
        let j = chain.drop_last().index_of(chain.last());
        assert(chain[j] == chain[n - 1]);
        assert forall|a: int| 0 <= a < n implies #[trigger] has_key(rs, chain[a]) && (a < n - 1 ==> key_index(rs, chain[a + 1]) < key_index(rs, chain[a])) by {
            lemma_resolved_step(m, ip, rs, chain, a);
        }
        assert forall|a: int| j <= a < n implies key_index(rs, #[trigger] chain[a]) <= key_index(rs, chain[j]) - (a - j) by {
            lemma_rank_descent(m, ip, rs, chain, j, a);
        }
        assert(key_index(rs, chain[n - 1]) <= key_index(rs, chain[j]) - (n - 1 - j));
    }
}

proof fn lemma_resolved_step(
    m: Seq<(Seq<char>, Seq<BlockValueView>)>,
    ip: Seq<Seq<char>>,
    rs: Seq<(Seq<char>, Seq<BlockValueView>)>,
    chain: Seq<Seq<char>>,
    a: int,
)
    requires
        flatten_inv(m, ip, rs),
        is_cycle_path(m, chain),
        has_key(rs, chain[0]),
        0 <= a < chain.len(),
    ensures
        has_key(rs, chain[a]),
        a < chain.len() - 1 ==> has_key(rs, chain[a + 1]) && key_index(rs, chain[a + 1]) < key_index(
            rs,
            chain[a],
        ),
    decreases a,
{
    let n = chain.len() as int;
    if a > 0 {
        lemma_resolved_step(m, ip, rs, chain, a - 1);
    }
    if a < n - 1 {
        assert(refers(m, chain[a], chain[a + 1]));
        let ca = contributions_of(m, chain[a]);
        let jj = choose|jj: int| 0 <= jj < ca.len() && (#[trigger] ca[jj]) is Promise && ca[jj]->Promise_0.id == chain[a + 1];
        lemma_key_index_bounds(rs, chain[a]);
        let r = key_index(rs, chain[a]);
        assert(resolved_entry_ok(m, rs, r));
        assert(rs[r].0 == chain[a]);
        assert(ca[jj] is Promise && has_key(m, ca[jj]->Promise_0.id) ==> 0 <= key_index(rs, ca[jj]->Promise_0.id) < r);
        assert(has_key(m, chain[a + 1])) by {
            if a + 1 < n - 1 {
                assert(refers(m, chain[a + 1], chain[a + 2]));
            } else {
                let j = chain.drop_last().index_of(chain.last());
                assert(chain[j] == chain[n - 1]);
                assert(refers(m, chain[j], chain[j + 1]));
            }
        }
        lemma_key_index_bounds(rs, chain[a + 1]);
    }
}

proof fn lemma_rank_descent(
    m: Seq<(Seq<char>, Seq<BlockValueView>)>,
    ip: Seq<Seq<char>>,
    rs: Seq<(Seq<char>, Seq<BlockValueView>)>,
    chain: Seq<Seq<char>>,
    j: int,
    a: int,
)
    requires
        0 <= j <= a < chain.len(),
        forall|b: int| 0 <= b < chain.len() ==> #[trigger] has_key(rs, chain[b]) && (b < chain.len() - 1 ==> key_index(rs, chain[b + 1]) < key_index(rs, chain[b])),
    ensures
        key_index(rs, chain[a]) <= key_index(rs, chain[j]) - (a - j),
    decreases a - j,
{
    if a > j {
        lemma_rank_descent(m, ip, rs, chain, j, a - 1);
        assert(has_key(rs, chain[a - 1]));
    }
}

/// What one contribution becomes in the flattened map `f`: nothing for a `Null`, the target's
/// contributions for a promise whose target has some, the contribution itself otherwise.
pub open spec fn step(c: BlockValueView, f: Seq<(Seq<char>, Seq<BlockValueView>)>) -> Seq<BlockValueView> {
    match c {
        BlockValueView::Null => Seq::empty(),
        BlockValueView::Promise(p) => {
            if has_key(f, p.id) && f[key_index(f, p.id)].1.len() > 0 {
                f[key_index(f, p.id)].1
            } else {
                seq![c]
            }
        },
        _ => seq![c],
    }
}

/// A run of contributions with every contribution replaced by what it becomes in `f`, in order.
pub open spec fn splice(cs: Seq<BlockValueView>, f: Seq<(Seq<char>, Seq<BlockValueView>)>) -> Seq<BlockValueView>
    decreases cs.len(),
{
    if cs.len() == 0 {
        Seq::empty()
    } else {
        splice(cs.drop_last(), f) + step(cs.last(), f)
    }
}

/// `f` is a flattening of the multimap `m`: it holds exactly the ids of `m` whose spliced
/// contributions are not empty, each with those spliced contributions.
pub open spec fn is_flattening(
    m: Seq<(Seq<char>, Seq<BlockValueView>)>,
    f: Seq<(Seq<char>, Seq<BlockValueView>)>,
) -> bool {
    &&& forall|k: Seq<char>| #[trigger] has_key(f, k) ==> has_key(m, k)
    &&& forall|k: Seq<char>|
        #[trigger] has_key(m, k) ==> (has_key(f, k) <==> splice(contributions_of(m, k), f).len() > 0)
    &&& forall|k: Seq<char>|
        #[trigger] has_key(f, k) ==> f[key_index(f, k)].1 == splice(contributions_of(m, k), f)
}

/// A contribution left in a flattened map: never `Null`, and a promise only if its target has
/// nothing to give.
pub open spec fn settled_in(c: BlockValueView, m: Seq<(Seq<char>, Seq<BlockValueView>)>, f: Seq<(Seq<char>, Seq<BlockValueView>)>) -> bool {
    &&& !(c is Null)
    &&& c is Promise ==> (!has_key(m, c->Promise_0.id) || (has_key(f, c->Promise_0.id) && f[key_index(f, c->Promise_0.id)].1.len() == 0))
}

/// Invariant of one entry of the table of resolved ids, in completion order.
pub open spec fn resolved_entry_ok(
    m: Seq<(Seq<char>, Seq<BlockValueView>)>,
    rs: Seq<(Seq<char>, Seq<BlockValueView>)>,
    i: int,
) -> bool {
    &&& has_key(m, rs[i].0)
    &&& rs[i].1 == splice(contributions_of(m, rs[i].0), rs)
    &&& forall|j: int|
        0 <= j < contributions_of(m, rs[i].0).len() && (#[trigger] contributions_of(m, rs[i].0)[j]) is Promise
            && has_key(m, contributions_of(m, rs[i].0)[j]->Promise_0.id) ==> 0 <= key_index(
            rs,
            contributions_of(m, rs[i].0)[j]->Promise_0.id,
        ) < i
    &&& forall|j: int| 0 <= j < rs[i].1.len() ==> settled_in(#[trigger] rs[i].1[j], m, rs)
}

/// Invariant of the depth-first flattening: `ip` is the path being visited, `rs` the ids already
/// resolved, in completion order.
pub open spec fn flatten_inv(
    m: Seq<(Seq<char>, Seq<BlockValueView>)>,
    ip: Seq<Seq<char>>,
    rs: Seq<(Seq<char>, Seq<BlockValueView>)>,
) -> bool {
    &&& keys_sorted(m)
    &&& forall|i: int, j: int| 0 <= i < j < rs.len() ==> #[trigger] rs[i].0 != #[trigger] rs[j].0
    &&& forall|i: int| 0 <= i < rs.len() ==> #[trigger] resolved_entry_ok(m, rs, i)
    &&& ip.no_duplicates()
    &&& forall|a: int| 0 <= a < ip.len() ==> has_key(m, #[trigger] ip[a]) && !has_key(rs, ip[a])
    &&& forall|a: int| 0 <= a < ip.len() - 1 ==> refers(m, #[trigger] ip[a], ip[a + 1])
}

/// `rs2` starts with `rs`.
pub open spec fn extends<X>(rs: Seq<X>, rs2: Seq<X>) -> bool {
    rs.len() <= rs2.len() && rs2.subrange(0, rs.len() as int) == rs
}

/// Looking `t` up in `rs2` finds what looking it up in `rs` finds.
pub open spec fn same_on(rs: Seq<(Seq<char>, Seq<BlockValueView>)>, rs2: Seq<(Seq<char>, Seq<BlockValueView>)>, t: Seq<char>) -> bool {
    &&& key_index(rs2, t) == key_index(rs, t)
    &&& key_index(rs, t) >= 0 ==> rs2[key_index(rs, t)] == rs[key_index(rs, t)]
}

/// In a table without repeated keys, the entry holding `k` is the one `key_index` finds.
pub proof fn lemma_key_index_distinct<X>(m: Seq<(Seq<char>, X)>, k: Seq<char>, i: int)
    requires
        forall|a: int, b: int| 0 <= a < b < m.len() ==> #[trigger] m[a].0 != #[trigger] m[b].0,
        0 <= i < m.len(),
        m[i].0 == k,
    ensures
        key_index(m, k) == i,
    decreases m.len(),
{
    if i < m.len() - 1 {
        assert(m[i].0 != m[m.len() - 1].0);
        assert(m.drop_last()[i] == m[i]);
        assert forall|a: int, b: int| 0 <= a < b < m.drop_last().len() implies #[trigger] m.drop_last()[a].0
            != #[trigger] m.drop_last()[b].0 by {
            assert(m.drop_last()[a] == m[a] && m.drop_last()[b] == m[b]);
        }
        lemma_key_index_distinct(m.drop_last(), k, i);
    }
}

/// After the table grew from `rs` to `rs2`, an id already resolved in `rs`, or not an id of `m`
/// at all, is looked up the same way.
pub proof fn lemma_same_on_extension(
    m: Seq<(Seq<char>, Seq<BlockValueView>)>,
    rs: Seq<(Seq<char>, Seq<BlockValueView>)>,
    rs2: Seq<(Seq<char>, Seq<BlockValueView>)>,
    t: Seq<char>,
)
    requires
        extends(rs, rs2),
        forall|i: int, j: int| 0 <= i < j < rs2.len() ==> #[trigger] rs2[i].0 != #[trigger] rs2[j].0,
        forall|i: int| 0 <= i < rs2.len() ==> has_key(m, #[trigger] rs2[i].0),
        has_key(rs, t) || !has_key(m, t),
    ensures
        same_on(rs, rs2, t),
{
    lemma_key_index_bounds(rs, t);
    lemma_key_index_bounds(rs2, t);
    if has_key(rs, t) {
        let i = key_index(rs, t);
        assert(rs2[i] == rs2.subrange(0, rs.len() as int)[i]);
        lemma_key_index_distinct(rs2, t, i);
    } else {
        if has_key(rs2, t) {
            assert(has_key(m, rs2[key_index(rs2, t)].0));
        }
    }
}

/// A contribution becomes the same thing in two tables that look its target up the same way.
pub proof fn lemma_step_same(
    c: BlockValueView,
    rs: Seq<(Seq<char>, Seq<BlockValueView>)>,
    rs2: Seq<(Seq<char>, Seq<BlockValueView>)>,
)
    requires
        c is Promise ==> same_on(rs, rs2, c->Promise_0.id),
    ensures
        step(c, rs) == step(c, rs2),
{
}

/// A run of contributions splices the same way in two tables that look every target up the
/// same way.
pub proof fn lemma_splice_same(
    cs: Seq<BlockValueView>,
    rs: Seq<(Seq<char>, Seq<BlockValueView>)>,
    rs2: Seq<(Seq<char>, Seq<BlockValueView>)>,
)
    requires
        forall|j: int| 0 <= j < cs.len() && (#[trigger] cs[j]) is Promise ==> same_on(rs, rs2, cs[j]->Promise_0.id),
    ensures
        splice(cs, rs) == splice(cs, rs2),
    decreases cs.len(),
{
    if cs.len() > 0 {
        lemma_splice_same(cs.drop_last(), rs, rs2);
        lemma_step_same(cs.last(), rs, rs2);
    }
}

/// Splicing one more contribution.
pub proof fn lemma_splice_take(cs: Seq<BlockValueView>, f: Seq<(Seq<char>, Seq<BlockValueView>)>, j: int)
    requires
        0 <= j < cs.len(),
    ensures
        splice(cs.take(j + 1), f) == splice(cs.take(j), f) + step(cs[j], f),
{
    assert(cs.take(j + 1).drop_last() =~= cs.take(j));
}

/// A path without repetition through the ids of `m` is no longer than the number of ids.
pub proof fn lemma_path_len(m: Seq<(Seq<char>, Seq<BlockValueView>)>, ip: Seq<Seq<char>>)
    requires
        ip.no_duplicates(),
        forall|a: int| 0 <= a < ip.len() ==> has_key(m, #[trigger] ip[a]),
    ensures
        ip.len() <= m.len(),
{
    let keys = m.map_values(|e: (Seq<char>, Seq<BlockValueView>)| e.0);
    ip.unique_seq_to_set();
    keys.lemma_cardinality_of_set();
    assert forall|x: Seq<char>| ip.to_set().contains(x) implies keys.to_set().contains(x) by {
        let a = ip.index_of(x);
        lemma_key_index_bounds(m, ip[a]);
        assert(keys[key_index(m, x)] == x);
    }
    vstd::set_lib::lemma_len_subset(ip.to_set(), keys.to_set());
}

/// Once every id is resolved, references never go round in a circle: along any chain the
/// completion order strictly decreases.
pub proof fn lemma_resolved_acyclic(
    m: Seq<(Seq<char>, Seq<BlockValueView>)>,
    rs: Seq<(Seq<char>, Seq<BlockValueView>)>,
)
    requires
        flatten_inv(m, Seq::empty(), rs),
        forall|k: Seq<char>| has_key(m, k) ==> has_key(rs, k),
    ensures
        !has_cycle(m),
{
    if has_cycle(m) {
        let chain = choose|chain: Seq<Seq<char>>| is_cycle(m, chain);
        assert forall|a: int| 0 <= a < chain.len() - 1 implies key_index(rs, #[trigger] chain[a + 1])
            < key_index(rs, chain[a]) by {
            assert(refers(m, chain[a], chain[a + 1]));
            let ca = contributions_of(m, chain[a]);
            let j = choose|j: int|
                0 <= j < ca.len() && (#[trigger] ca[j]) is Promise && ca[j]->Promise_0.id == chain[a + 1];
            lemma_key_index_bounds(rs, chain[a]);
            let r = key_index(rs, chain[a]);
            assert(resolved_entry_ok(m, rs, r));
            if a + 1 < chain.len() - 1 {
                assert(refers(m, chain[a + 1], chain[a + 2]));
            } else {
                assert(refers(m, chain[0], chain[1]));
            }
        }
        assert forall|a: int| 0 <= a < chain.len() implies key_index(rs, #[trigger] chain[a])
            <= key_index(rs, chain[0]) - a by {
            lemma_chain_ranks(m, rs, chain, a);
        }
        assert(key_index(rs, chain[chain.len() - 1]) <= key_index(rs, chain[0]) - (chain.len() - 1));
    }
}

proof fn lemma_chain_ranks(
    m: Seq<(Seq<char>, Seq<BlockValueView>)>,
    rs: Seq<(Seq<char>, Seq<BlockValueView>)>,
    chain: Seq<Seq<char>>,
    a: int,
)
    requires
        0 <= a < chain.len(),
        forall|b: int| 0 <= b < chain.len() - 1 ==> key_index(rs, #[trigger] chain[b + 1]) < key_index(rs, chain[b]),
    ensures
        key_index(rs, chain[a]) <= key_index(rs, chain[0]) - a,
    decreases a,
{
    if a > 0 {
        lemma_chain_ranks(m, rs, chain, a - 1);
        assert(key_index(rs, chain[(a - 1) + 1]) < key_index(rs, chain[a - 1]));
    }
}

/// The position of `key` in a table, found as `key_index` finds it.
fn find_entry(entries: &Vec<(String, Vec<BlockValue>)>, key: &str) -> (r: Option<usize>)
    ensures
        r is Some <==> has_key(table_view(entries@), key@),
        r matches Some(i) ==> i == key_index(table_view(entries@), key@) && i < entries.len()
            && entries[i as int].0@ == key@,
{
    let ghost t = table_view(entries@);
    let mut i: usize = entries.len();
    assert(t.subrange(0, t.len() as int) =~= t);
    while i > 0
        invariant
            t == table_view(entries@),
            i <= entries.len(),
            key_index(t, key@) == key_index(t.subrange(0, i as int), key@),
        decreases i,
    {
        assert(t.subrange(0, i as int).drop_last() =~= t.subrange(0, i - 1));
        assert(t[i - 1].0 == entries[i - 1].0@);
        if str_eq(entries[i - 1].0.as_str(), key) {
            return Some(i - 1);
        }
        i = i - 1;
    }
    assert(key_index(t.subrange(0, 0), key@) == -1);
    None
}

/// The position of `key` in the path being visited, if it is on it.
fn find_on_path(path: &Vec<String>, key: &str) -> (r: Option<usize>)
    ensures
        r matches Some(i) ==> i < path.len() && path[i as int]@ == key@,
        r is None ==> forall|a: int| 0 <= a < path.len() ==> path[a]@ != key@,
{
    let mut i: usize = 0;
    while i < path.len()
        invariant
            i <= path.len(),
            forall|a: int| 0 <= a < i ==> path[a]@ != key@,
        decreases path.len() - i,
    {
        if str_eq(path[i].as_str(), key) {
            return Some(i);
        }
        i = i + 1;
    }
    None
}

/// How a walk into a cycle grows by one step at `id`: the walk found from the target of
/// contribution `j` of `id`, the first promise whose visit failed, also goes on from `id`.
proof fn lemma_walk_goes_on(
    m: Seq<(Seq<char>, Seq<BlockValueView>)>,
    ip0: Seq<Seq<char>>,
    id: Seq<char>,
    rs1: Seq<(Seq<char>, Seq<BlockValueView>)>,
    j: int,
    c: Seq<Seq<char>>,
)
    requires
        flatten_inv(m, ip0.push(id), rs1),
        0 <= j < contributions_of(m, id).len(),
        contributions_of(m, id)[j] is Promise,
        forall|jj: int|
            0 <= jj < j && (#[trigger] contributions_of(m, id)[jj]) is Promise && has_key(
                m,
                contributions_of(m, id)[jj]->Promise_0.id,
            ) ==> has_key(rs1, contributions_of(m, id)[jj]->Promise_0.id),
        is_cycle_path(m, c),
        c.len() > ip0.len() + 1,
        c.take((ip0.len() + 2) as int) == ip0.push(id).push(contributions_of(m, id)[j]->Promise_0.id),
        forall|a: int| ip0.len() + 1 <= a < c.len() - 1 ==> first_step_into_cycle(m, #[trigger] c[a], c[a + 1]),
    ensures
        c.take((ip0.len() + 1) as int) == ip0.push(id),
        forall|a: int| ip0.len() <= a < c.len() - 1 ==> first_step_into_cycle(m, #[trigger] c[a], c[a + 1]),
{
    let ip1 = ip0.push(id);
    let t = contributions_of(m, id)[j]->Promise_0.id;
    let pre = c.take((ip0.len() + 2) as int);
    assert(pre[ip1.len() as int] == t);
    assert(c[ip1.len() as int] == t);
    assert(pre.take(ip1.len() as int) =~= c.take((ip0.len() + 1) as int));
    assert(c[ip0.len() as int] == pre[ip0.len() as int]);
    assert(c[ip0.len() as int] == id);
    lemma_path_reaches(m, c, ip1.len() as int);
    assert forall|jj: int|
        0 <= jj < j && (#[trigger] contributions_of(m, id)[jj]) is Promise implies !reaches_cycle(
        m,
        contributions_of(m, id)[jj]->Promise_0.id,
    ) by {
        let u = contributions_of(m, id)[jj]->Promise_0.id;
        if has_key(m, u) {
            lemma_resolved_reaches_no_cycle(m, ip1, rs1, u);
        } else {
            lemma_keyless_reaches_no_cycle(m, u);
        }
    }
    assert(first_reaching_at(m, id, j));
    assert forall|a: int| ip0.len() <= a < c.len() - 1 implies first_step_into_cycle(m, #[trigger] c[a], c[a + 1]) by {
        if a == ip0.len() {
            assert(c[a] == id);
            assert(c[a + 1] == t);
        }
    }
}

impl PromiseMap {
    /// Follows the references between promises, leaving every id its own sequence of
    /// contributions.
    ///
    /// A `Null` is dropped; a promise whose target has contributions is replaced by all of them,
    /// spliced in its place; any other contribution, containers included, is kept as it is. An id
    /// left with nothing vanishes. The only failure is a genuine cycle, reported with the whole
    /// walk from the first id visited to the repetition. Ids are visited in ascending order, so
    /// the walk starts at the smallest id from which a cycle can be reached; from each id it goes
    /// on to the target of the first promise from which a cycle can be reached, and it stops at
    /// the first id it meets twice. The chain therefore does not depend on the order in which the
    /// ids were inserted, only on each id's contributions.
    pub fn flatten(&self) -> (r: Result<FlatPromiseMap, PromiseError>)
        ensures
            r is Ok <==> !has_cycle(self@),
            r matches Ok(f) ==> is_flattening(self@, f@) && flat_settled(f@),
            r matches Err(e) ==> e@ is Circular && is_cycle_walk(self@, e@->Circular_chain) && has_key(
                self@,
                e@->Circular_chain[0],
            ) && forall|k: Seq<char>|
                has_key(self@, k) && text_lt(k, e@->Circular_chain[0]) ==> !#[trigger] reaches_cycle(self@, k),
    {
        proof {
            use_type_invariant(self);
        }
        let ghost m = self@;
        let mut in_progress: Vec<String> = Vec::new();
        let mut resolved: Vec<(String, Vec<BlockValue>)> = Vec::new();
        proof {
            assert(texts_view(in_progress@) =~= Seq::<Seq<char>>::empty());
            assert(table_view(resolved@) =~= Seq::<(Seq<char>, Seq<BlockValueView>)>::empty());
        }
        let mut i: usize = 0;
        while i < self.entries.len()
            invariant
                m == self@,
                keys_sorted(m),
                i <= self.entries.len(),
                texts_view(in_progress@) == Seq::<Seq<char>>::empty(),
                flatten_inv(m, Seq::empty(), table_view(resolved@)),
                forall|k: int| 0 <= k < i ==> has_key(table_view(resolved@), #[trigger] m[k].0),
            decreases self.entries.len() - i,
        {
            let ghost rs1 = table_view(resolved@);
            proof {
                assert(m[i as int].0 == self.entries[i as int].0@);
            }
            let step_result = self.resolve_id(self.entries[i].0.as_str(), &mut in_progress, &mut resolved);
            if let Err(e) = step_result {
                proof {
                    let chain = e@->Circular_chain;
                    assert(chain.take(1)[0] == chain[0]);
                    lemma_cycle_path_has_cycle(m, chain);
                    lemma_lookup_sorted(m, i as int);
                    assert forall|k: Seq<char>| has_key(m, k) && text_lt(k, chain[0]) implies !#[trigger] reaches_cycle(m, k) by {
                        lemma_key_index_bounds(m, k);
                        let kk = key_index(m, k);
                        assert(m[kk].0 == k);
                        if kk >= i {
                            if kk > i {
                                assert(text_lt(m[i as int].0, m[kk].0));
                            }
                            lemma_text_lt_asymmetric(k, m[i as int].0);
                            lemma_text_lt_irreflexive(k);
                        }
                        assert(has_key(rs1, m[kk].0));
                        lemma_resolved_reaches_no_cycle(m, Seq::empty(), rs1, k);
                    }
                }
                return Err(e);
            }
            proof {
                let rs2 = table_view(resolved@);
                lemma_lookup_sorted(m, i as int);
                assert forall|r: int| 0 <= r < rs2.len() implies has_key(m, #[trigger] rs2[r].0) by {
                    assert(resolved_entry_ok(m, rs2, r));
                }
                assert forall|k: int| 0 <= k < i + 1 implies has_key(rs2, #[trigger] m[k].0) by {
                    if k < i {
                        lemma_same_on_extension(m, rs1, rs2, m[k].0);
                    }
                }
            }
            i = i + 1;
        }
        let ghost rs = table_view(resolved@);
        proof {
            assert forall|k: Seq<char>| has_key(m, k) implies has_key(rs, k) by {
                lemma_key_index_bounds(m, k);
                assert(has_key(rs, m[key_index(m, k)].0));
            }
            lemma_resolved_acyclic(m, rs);
            assert forall|r: int| 0 <= r < rs.len() implies has_key(m, #[trigger] rs[r].0) by {
                assert(resolved_entry_ok(m, rs, r));
            }
        }
        let mut out: Vec<(String, Vec<BlockValue>)> = Vec::new();
        let mut i: usize = 0;
        proof {
            assert(table_view(out@) =~= Seq::<(Seq<char>, Seq<BlockValueView>)>::empty());
        }
        while i < self.entries.len()
            invariant
                m == self@,
                keys_sorted(m),
                i <= self.entries.len(),
                rs == table_view(resolved@),
                forall|k: Seq<char>| has_key(m, k) ==> has_key(rs, k),
                forall|r: int| 0 <= r < rs.len() ==> has_key(m, #[trigger] rs[r].0),
                keys_sorted(table_view(out@)),
                forall|e: int| 0 <= e < out.len() ==> (#[trigger] table_view(out@)[e]).1.len() > 0,
                forall|e: int|
                    0 <= e < out.len() ==> has_key(m, (#[trigger] table_view(out@)[e]).0) && key_index(m, table_view(out@)[e].0) < i,
                forall|k: int|
                    0 <= k < i ==> (has_key(table_view(out@), #[trigger] m[k].0) <==> rs[key_index(rs, m[k].0)].1.len() > 0),
                forall|k: int|
                    0 <= k < i && has_key(table_view(out@), #[trigger] m[k].0) ==> table_view(out@)[key_index(table_view(out@), m[k].0)].1
                        == rs[key_index(rs, m[k].0)].1,
            decreases self.entries.len() - i,
        {
            let ghost o1 = table_view(out@);
            proof {
                assert(m[i as int].0 == self.entries[i as int].0@);
                lemma_lookup_sorted(m, i as int);
            }
            let found = find_entry(&resolved, self.entries[i].0.as_str());
            let k = found.unwrap();
            proof {
                lemma_key_index_bounds(o1, m[i as int].0);
                if has_key(o1, m[i as int].0) {
                    let e = key_index(o1, m[i as int].0);
                    assert(key_index(m, o1[e].0) < i);
                }
                assert(!has_key(o1, m[i as int].0));
            }
            if resolved[k].1.len() > 0 {
                let values = clone_values(&resolved[k].1);
                out.push((self.entries[i].0.clone(), values));
                proof {
                    let x = (m[i as int].0, rs[k as int].1);
                    assert(values_view(values@) =~= rs[k as int].1);
                    assert(table_view(out@) =~= o1.push(x));
                    assert forall|a: int, b: int| 0 <= a < b < table_view(out@).len() implies text_lt(
                        #[trigger] table_view(out@)[a].0,
                        #[trigger] table_view(out@)[b].0,
                    ) by {
                        if b == o1.len() {
                            let ka = key_index(m, o1[a].0);
                            lemma_key_index_bounds(m, o1[a].0);
                        } else {
                            assert(table_view(out@)[a] == o1[a] && table_view(out@)[b] == o1[b]);
                        }
                    }
                    assert forall|t: Seq<char>| t != x.0 implies key_index(table_view(out@), t) == key_index(o1, t) by {
                        lemma_key_index_push(o1, x, t);
                    }
                    lemma_key_index_push(o1, x, x.0);
                    assert forall|kk: int| 0 <= kk < i implies m[kk].0 != x.0 by {
                        assert(text_lt(m[kk].0, m[i as int].0));
                        lemma_text_lt_irreflexive(m[i as int].0);
                    }
                    let o2 = table_view(out@);
                    assert forall|kk: int|
                        0 <= kk < i + 1 && has_key(o2, #[trigger] m[kk].0) implies o2[key_index(o2, m[kk].0)].1
                        == rs[key_index(rs, m[kk].0)].1 by {
                        if kk < i {
                            lemma_key_index_bounds(o1, m[kk].0);
                            assert(o2[key_index(o1, m[kk].0)] == o1[key_index(o1, m[kk].0)]);
                        } else {
                            assert(o2[o1.len() as int] == x);
                        }
                    }
                }
            } else {
                proof {
                    assert forall|kk: int| 0 <= kk < i implies m[kk].0 != m[i as int].0 by {
                        assert(text_lt(m[kk].0, m[i as int].0));
                        lemma_text_lt_irreflexive(m[i as int].0);
                    }
                }
            }
            i = i + 1;
        }
        let ghost f = table_view(out@);
        proof {
            assert forall|t: Seq<char>| #[trigger] has_key(f, t) <==> (has_key(rs, t) && rs[key_index(rs, t)].1.len() > 0) by {
                lemma_key_index_bounds(f, t);
                lemma_key_index_bounds(rs, t);
                if has_key(rs, t) {
                    lemma_key_index_bounds(m, t);
                    assert(has_key(m, rs[key_index(rs, t)].0));
                    let km = key_index(m, t);
                    assert(m[km].0 == t);
                } else if has_key(f, t) {
                    let e = key_index(f, t);
                    assert(has_key(m, f[e].0));
                }
            }
            assert forall|t: Seq<char>| #[trigger] has_key(f, t) implies f[key_index(f, t)].1 == rs[key_index(rs, t)].1 by {
                lemma_key_index_bounds(f, t);
                let e = key_index(f, t);
                assert(has_key(m, f[e].0));
                lemma_key_index_bounds(m, t);
                let km = key_index(m, t);
                assert(m[km].0 == t);
            }
            assert(mirrors(f, rs));
            assert forall|k: Seq<char>| #[trigger] has_key(m, k) implies (has_key(f, k) <==> splice(
                contributions_of(m, k),
                f,
            ).len() > 0) && (has_key(f, k) ==> f[key_index(f, k)].1 == splice(contributions_of(m, k), f)) by {
                lemma_key_index_bounds(rs, k);
                let r = key_index(rs, k);
                assert(resolved_entry_ok(m, rs, r));
                lemma_splice_mirror(contributions_of(m, k), f, rs);
            }
            assert forall|k: Seq<char>| #[trigger] has_key(f, k) implies has_key(m, k) by {
                lemma_key_index_bounds(f, k);
                assert(has_key(m, f[key_index(f, k)].0));
            }
            assert(is_flattening(m, f));
            assert forall|a: int, j: int|
                0 <= a < f.len() && 0 <= j < f[a].1.len() implies !((#[trigger] f[a].1[j]) is Null) && (
                f[a].1[j] is Promise ==> !has_key(f, f[a].1[j]->Promise_0.id)) by {
                let t = f[a].0;
                assert(has_key(m, t));
                lemma_key_index_bounds(f, t);
                lemma_key_index_sorted_at(f, a);
                lemma_key_index_bounds(rs, t);
                let r = key_index(rs, t);
                assert(resolved_entry_ok(m, rs, r));
                assert(settled_in(rs[r].1[j], m, rs));
            }
        }
        Ok(FlatPromiseMap { entries: out })
    }

    /// Depth-first visit of a single id. `in_progress` is the current path, which detects
    /// cycles; `resolved` holds every id already visited, in completion order, with its flattened
    /// contributions (possibly none), so that each id is flattened once.
    fn resolve_id(
        &self,
        id: &str,
        in_progress: &mut Vec<String>,
        resolved: &mut Vec<(String, Vec<BlockValue>)>,
    ) -> (r: Result<(), PromiseError>)
        requires
            flatten_inv(self@, texts_view(old(in_progress)@), table_view(old(resolved)@)),
            old(in_progress).len() > 0 ==> refers(self@, old(in_progress)@.last()@, id@),
        ensures
            r is Ok ==> {
                &&& flatten_inv(self@, texts_view(final(in_progress)@), table_view(final(resolved)@))
                &&& texts_view(final(in_progress)@) == texts_view(old(in_progress)@)
                &&& extends(table_view(old(resolved)@), table_view(final(resolved)@))
                &&& has_key(self@, id@) ==> has_key(table_view(final(resolved)@), id@)
            },
            r matches Err(e) ==> e@ is Circular && {
                let c = e@->Circular_chain;
                &&& is_cycle_path(self@, c)
                &&& c.drop_last().no_duplicates()
                &&& c.len() > old(in_progress)@.len()
                &&& c.take((old(in_progress)@.len() + 1) as int) == texts_view(old(in_progress)@).push(id@)
                &&& forall|a: int|
                    old(in_progress)@.len() <= a < c.len() - 1 ==> first_step_into_cycle(
                        self@,
                        #[trigger] c[a],
                        c[a + 1],
                    )
            },
        decreases self@.len() - old(in_progress)@.len(),
    {
        let ghost m = self@;
        let ghost rs0 = table_view(resolved@);
        let ghost ip0 = texts_view(in_progress@);
        proof {
            use_type_invariant(self);
            assert(extends(rs0, rs0)) by {
                assert(rs0.subrange(0, rs0.len() as int) =~= rs0);
            }
        }
        if find_entry(resolved, id).is_some() {
            return Ok(());
        }
        if let Some(start) = find_on_path(in_progress, id) {
            let mut chain: Vec<String> = Vec::new();
            let mut a: usize = 0;
            while a < in_progress.len()
                invariant
                    a <= in_progress.len(),
                    ip0 == texts_view(in_progress@),
                    texts_view(chain@) =~= ip0.subrange(0, a as int),
                decreases in_progress.len() - a,
            {
                let ghost before = chain@;
                chain.push(in_progress[a].clone());
                proof {
                    assert(chain@ == before.push(in_progress@[a as int]));
                    assert(texts_view(chain@) =~= texts_view(before).push(in_progress@[a as int]@));
                    assert(ip0[a as int] == in_progress@[a as int]@);
                    assert(ip0.subrange(0, a + 1) =~= ip0.subrange(0, a as int).push(ip0[a as int]));
                }
                a = a + 1;
            }
            let ghost before = chain@;
            chain.push(string_of(id));
            proof {
                assert(texts_view(chain@) =~= texts_view(before).push(id@));
            }
            let ghost cv = texts_view(chain@);
            proof {
                assert(cv =~= ip0.push(id@));
                assert(ip0[start as int] == in_progress@[start as int]@);
                assert(cv.drop_last() =~= ip0);
                assert(cv.drop_last()[start as int] == cv.last());
                assert forall|b: int| 0 <= b < cv.len() - 1 implies refers(m, #[trigger] cv[b], cv[b + 1]) by {
                    if b < cv.len() - 2 {
                        assert(cv[b] == ip0[b] && cv[b + 1] == ip0[b + 1]);
                    } else {
                        assert(cv[b] == ip0.last());
                    }
                }
                assert(cv.take((ip0.len() + 1) as int) =~= cv);
            }
            return Err(PromiseError::Circular { chain });
        }
        let (found, pos) = locate(&self.entries, id);
        if !found {
            return Ok(());
        }
        proof {
            lemma_path_len(m, ip0);
            assert(!ip0.contains(id@));
            assert(ip0.push(id@).no_duplicates()) by {
                assert forall|a: int, b: int| 0 <= a < b < ip0.push(id@).len() implies ip0.push(id@)[a]
                    != ip0.push(id@)[b] by {
                    if b == ip0.len() {
                        assert(ip0.push(id@)[a] == ip0[a]);
                    } else {
                        assert(ip0.push(id@)[a] == ip0[a] && ip0.push(id@)[b] == ip0[b]);
                    }
                }
            }
        }
        in_progress.push(string_of(id));
        let ghost ip1 = texts_view(in_progress@);
        proof {
            assert(ip1 =~= ip0.push(id@));
            lemma_lookup_sorted(m, pos as int);
        }
        let contributions = &self.entries[pos].1;
        let ghost cs = values_view(contributions@);
        proof {
            assert(contributions_of(m, id@) == cs);
        }
        let mut flattened: Vec<BlockValue> = Vec::new();
        let mut j: usize = 0;
        while j < contributions.len()
            invariant
                m == self@,
                keys_sorted(m),
                cs == values_view(contributions@),
                cs == contributions_of(m, id@),
                has_key(m, id@),
                j <= contributions.len(),
                texts_view(in_progress@) == ip1,
                ip1 == ip0.push(id@),
                old(in_progress)@.len() == ip0.len(),
                ip0 == texts_view(old(in_progress)@),
                flatten_inv(m, ip1, table_view(resolved@)),
                extends(rs0, table_view(resolved@)),
                values_view(flattened@) == splice(cs.take(j as int), table_view(resolved@)),
                forall|jj: int|
                    0 <= jj < j && (#[trigger] cs[jj]) is Promise && has_key(m, cs[jj]->Promise_0.id)
                        ==> has_key(table_view(resolved@), cs[jj]->Promise_0.id),
                forall|e: int| 0 <= e < flattened.len() ==> settled_in(#[trigger] values_view(flattened@)[e], m, table_view(resolved@)),
            decreases contributions.len() - j,
        {
            let ghost rs1 = table_view(resolved@);
            let ghost fl1 = values_view(flattened@);
            proof {
                lemma_splice_take(cs, rs1, j as int);
                assert(cs[j as int] == value_view(contributions@[j as int]));
            }
            match &contributions[j] {
                BlockValue::Null => {
                    proof {
                        assert(fl1 + step(cs[j as int], rs1) =~= fl1);
                    }
                },
                BlockValue::Promise(p) => {
                    proof {
                        assert(refers(m, id@, p@.id)) by {
                            assert(cs[j as int]->Promise_0 == p@);
                        }
                        assert(ip1.last() == id@);
                        lemma_path_len(m, ip1);
                        assert(in_progress@.len() == ip1.len());
                        assert(ip1.len() == ip0.len() + 1);
                        assert(old(in_progress)@.len() == ip0.len());
                        assert(in_progress@[0]@ == ip1[0]);
                        assert(ip1[0] == if ip0.len() > 0 {
                            ip0[0]
                        } else {
                            id@
                        });
                        assert(ip0.len() > 0 ==> ip0[0] == old(in_progress)@[0]@);
                    }
                    let sub = self.resolve_id(p.id(), in_progress, resolved);
                    if sub.is_err() {
                        proof {
                            assert(cs[j as int]->Promise_0 == p@);
                            lemma_walk_goes_on(m, ip0, id@, rs1, j as int, sub->Err_0@->Circular_chain);
                        }
                        return sub;
                    }
                    let ghost rs2 = table_view(resolved@);
                    proof {
                        assert forall|i: int| 0 <= i < rs2.len() implies has_key(m, #[trigger] rs2[i].0) by {
                            assert(resolved_entry_ok(m, rs2, i));
                        }
                        assert forall|jj: int| 0 <= jj < j && (#[trigger] cs[jj]) is Promise implies same_on(
                            rs1,
                            rs2,
                            cs[jj]->Promise_0.id,
                        ) by {
                            lemma_same_on_extension(m, rs1, rs2, cs[jj]->Promise_0.id);
                        }
                        lemma_splice_same(cs.take(j as int), rs1, rs2);
                        lemma_splice_take(cs, rs2, j as int);
                        assert(rs2.subrange(0, rs0.len() as int) =~= rs1.subrange(0, rs0.len() as int));
                        assert(extends(rs0, rs2));
                        assert forall|e: int| 0 <= e < flattened.len() implies settled_in(
                            #[trigger] values_view(flattened@)[e],
                            m,
                            rs2,
                        ) by {
                            let c = values_view(flattened@)[e];
                            if c is Promise && has_key(m, c->Promise_0.id) {
                                lemma_same_on_extension(m, rs1, rs2, c->Promise_0.id);
                            }
                        }
                    }
                    match find_entry(resolved, p.id()) {
                        Some(k) => {
                            if resolved[k].1.len() > 0 {
                                let copies = clone_values(&resolved[k].1);
                                let ghost before = flattened@;
                                let mut copies = copies;
                                flattened.append(&mut copies);
                                proof {
                                    assert(values_view(flattened@) =~= fl1 + rs2[k as int].1);
                                    assert(step(cs[j as int], rs2) == rs2[k as int].1);
                                    assert(resolved_entry_ok(m, rs2, k as int));
                                }
                            } else {
                                flattened.push(contributions[j].clone());
                                proof {
                                    assert(step(cs[j as int], rs2) == seq![cs[j as int]]);
                                    assert(values_view(flattened@) =~= fl1 + seq![cs[j as int]]);
                                }
                            }
                        },
                        None => {
                            flattened.push(contributions[j].clone());
                            proof {
                                assert(step(cs[j as int], rs2) == seq![cs[j as int]]);
                                assert(values_view(flattened@) =~= fl1 + seq![cs[j as int]]);
                            }
                        },
                    }
                },
                _ => {
                    flattened.push(contributions[j].clone());
                    proof {
                        assert(step(cs[j as int], rs1) == seq![cs[j as int]]);
                        assert(values_view(flattened@) =~= fl1 + seq![cs[j as int]]);
                    }
                },
            }
            j = j + 1;
        }
        let ghost ip_vec = in_progress@;
        in_progress.pop();
        proof {
            assert(texts_view(in_progress@) =~= ip0) by {
                assert(in_progress@ =~= ip_vec.drop_last());
                assert forall|a: int| 0 <= a < ip0.len() implies texts_view(in_progress@)[a] == ip0[a] by {
                    assert(ip1[a] == ip_vec[a]@);
                }
            }
            assert(ip1[ip0.len() as int] == id@);
        }
        let ghost rs1 = table_view(resolved@);
        let ghost fl = values_view(flattened@);
        resolved.push((string_of(id), flattened));
        let ghost rs2 = table_view(resolved@);
        proof {
            assert(cs.take(cs.len() as int) =~= cs);
            assert(rs2 =~= rs1.push((id@, fl)));
            assert(!has_key(rs1, id@));
            lemma_key_index_bounds(rs1, id@);
            assert forall|t: Seq<char>| has_key(rs1, t) || !has_key(m, t) implies same_on(rs1, rs2, t) by {
                lemma_key_index_push(rs1, (id@, fl), t);
                lemma_key_index_bounds(rs1, t);
            }
            assert(fl == splice(contributions_of(m, id@), rs2)) by {
                lemma_splice_same(cs, rs1, rs2);
            }
            assert forall|i: int| 0 <= i < rs2.len() implies #[trigger] resolved_entry_ok(m, rs2, i) by {
                lemma_entry_ok_push(m, rs1, (id@, fl), i);
            }
            assert(extends(rs0, rs2)) by {
                assert(rs2.subrange(0, rs0.len() as int) =~= rs1.subrange(0, rs0.len() as int));
            }
            lemma_key_index_push(rs1, (id@, fl), id@);
            assert(has_key(rs2, id@));
            assert(extends(rs0, rs2));
            assert(texts_view(in_progress@) == ip0);
            assert(keys_sorted(m));
            assert(forall|i: int, j: int| 0 <= i < j < rs2.len() ==> #[trigger] rs2[i].0 != #[trigger] rs2[j].0);
            assert(ip0.no_duplicates());
            assert forall|a: int| 0 <= a < ip0.len() implies has_key(m, #[trigger] ip0[a]) && !has_key(rs2, ip0[a]) by {
                assert(ip1[a] == ip0[a]);
                assert(ip1[a] != ip1[ip0.len() as int]);
                lemma_key_index_push(rs1, (id@, fl), ip0[a]);
            }
            assert(forall|a: int| 0 <= a < ip0.len() - 1 ==> refers(m, #[trigger] ip0[a], ip0[a + 1]));
        }
        Ok(())
    }
}

/// `f` holds exactly the ids of `rs` that have contributions, with the same contributions.
pub open spec fn mirrors(f: Seq<(Seq<char>, Seq<BlockValueView>)>, rs: Seq<(Seq<char>, Seq<BlockValueView>)>) -> bool {
    &&& forall|t: Seq<char>| #[trigger] has_key(f, t) <==> (has_key(rs, t) && rs[key_index(rs, t)].1.len() > 0)
    &&& forall|t: Seq<char>| #[trigger] has_key(f, t) ==> f[key_index(f, t)].1 == rs[key_index(rs, t)].1
}

/// Every contribution left in a flattened map is neither `Null` nor a promise of one of its ids.
pub open spec fn flat_settled(f: Seq<(Seq<char>, Seq<BlockValueView>)>) -> bool {
    forall|i: int, j: int|
        0 <= i < f.len() && 0 <= j < f[i].1.len() ==> !((#[trigger] f[i].1[j]) is Null) && (f[i].1[j] is Promise
            ==> !has_key(f, f[i].1[j]->Promise_0.id))
}

/// Splicing against a table or against its mirror gives the same result.
pub proof fn lemma_splice_mirror(
    cs: Seq<BlockValueView>,
    f: Seq<(Seq<char>, Seq<BlockValueView>)>,
    rs: Seq<(Seq<char>, Seq<BlockValueView>)>,
)
    requires
        mirrors(f, rs),
    ensures
        splice(cs, rs) == splice(cs, f),
    decreases cs.len(),
{
    if cs.len() > 0 {
        lemma_splice_mirror(cs.drop_last(), f, rs);
        let c = cs.last();
        if c is Promise {
            let t = c->Promise_0.id;
            assert(has_key(f, t) <==> (has_key(rs, t) && rs[key_index(rs, t)].1.len() > 0));
        }
    }
}

/// Appending a freshly resolved id keeps every earlier entry valid, and the new one is valid
/// when its contributions are spliced against the table it extends.
proof fn lemma_entry_ok_push(
    m: Seq<(Seq<char>, Seq<BlockValueView>)>,
    rs: Seq<(Seq<char>, Seq<BlockValueView>)>,
    x: (Seq<char>, Seq<BlockValueView>),
    i: int,
)
    requires
        keys_sorted(m),
        0 <= i <= rs.len(),
        forall|a: int, b: int| 0 <= a < b < rs.len() ==> #[trigger] rs[a].0 != #[trigger] rs[b].0,
        forall|a: int| 0 <= a < rs.len() ==> #[trigger] resolved_entry_ok(m, rs, a),
        !has_key(rs, x.0),
        has_key(m, x.0),
        x.1 == splice(contributions_of(m, x.0), rs.push(x)),
        forall|j: int|
            0 <= j < contributions_of(m, x.0).len() && (#[trigger] contributions_of(m, x.0)[j]) is Promise
                && has_key(m, contributions_of(m, x.0)[j]->Promise_0.id) ==> has_key(rs, contributions_of(m, x.0)[j]->Promise_0.id),
        forall|e: int| 0 <= e < x.1.len() ==> settled_in(#[trigger] x.1[e], m, rs),
    ensures
        resolved_entry_ok(m, rs.push(x), i),
{
    let rs2 = rs.push(x);
    assert forall|t: Seq<char>| has_key(rs, t) || !has_key(m, t) implies same_on(rs, rs2, t) by {
        lemma_key_index_push(rs, x, t);
        lemma_key_index_bounds(rs, t);
    }
    if i < rs.len() {
        assert(resolved_entry_ok(m, rs, i));
        assert(rs2[i] == rs[i]);
        let cs = contributions_of(m, rs[i].0);
        assert forall|j: int| 0 <= j < cs.len() && (#[trigger] cs[j]) is Promise implies same_on(
            rs,
            rs2,
            cs[j]->Promise_0.id,
        ) by {
            if has_key(m, cs[j]->Promise_0.id) {
                assert(0 <= key_index(rs, cs[j]->Promise_0.id) < i);
            }
        }
        lemma_splice_same(cs, rs, rs2);
        assert forall|e: int| 0 <= e < rs2[i].1.len() implies settled_in(#[trigger] rs2[i].1[e], m, rs2) by {
            assert(settled_in(rs[i].1[e], m, rs));
        }
    } else {
        let cs = contributions_of(m, x.0);
        assert(rs2[i] == x);
        assert forall|e: int| 0 <= e < x.1.len() implies settled_in(#[trigger] x.1[e], m, rs2) by {
            assert(settled_in(x.1[e], m, rs));
        }
        assert forall|j: int|
            0 <= j < cs.len() && (#[trigger] cs[j]) is Promise && has_key(m, cs[j]->Promise_0.id) implies 0
            <= key_index(rs2, cs[j]->Promise_0.id) < i by {
            lemma_key_index_bounds(rs, cs[j]->Promise_0.id);
        }
    }
}

} // verus!
