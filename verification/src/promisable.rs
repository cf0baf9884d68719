//! How an entity with promised fields is resolved against a flattened promise map.
//!
//! `Promised<T>` is a single field, either already a `T` or still a `Promise`.
//! `PromisableFields` is what an entity must be able to do to be resolved: list the fields still
//! pending and assign one by name. Resolution has three outcomes, each with its own name in
//! `Fulfilled`: resolved in place, dropped, expanded into copies.
//!
//! Ordinary promises resolve first, in place; only then do multiple promises expand the entity
//! into one copy per value, a cartesian product when several fields are multiple, the field
//! listed first varying slowest.

use vstd::prelude::*;

use crate::classes::value::{
    block_value_error_message, BlockValue, BlockValueError, BlockValueErrorView, BlockValueView,
};
use crate::promise::{promise_error_message, Promise, PromiseError, PromiseErrorView, PromiseView};
use crate::promise_resolution::{fulfill_spec, FlatPromiseMap};
use crate::text::string_of;

verus! {

/// A field that is either already resolved, or still a promise.
#[derive(Debug, Clone, PartialEq, Eq, PartialOrd, Ord, Hash)]
pub enum Promised<T> {
    Resolved(T),
    Pending(Promise),
}

impl<T> Promised<T> {
    /// The value, if the field is already resolved.
    pub fn resolved(&self) -> (r: Option<&T>)
        ensures
            r.is_some() == (self is Resolved),
            r matches Some(v) ==> *v == self->Resolved_0,
    {
        match self {
            Promised::Resolved(v) => Some(v),
            Promised::Pending(_) => None,
        }
    }

    /// The promise, if the field is still pending.
    pub fn pending(&self) -> (r: Option<&Promise>)
        ensures
            r.is_some() == (self is Pending),
            r matches Some(p) ==> *p == self->Pending_0,
    {
        match self {
            Promised::Pending(p) => Some(p),
            Promised::Resolved(_) => None,
        }
    }

    pub fn is_pending(&self) -> (r: bool)
        ensures
            r == (self is Pending),
    {
        match self {
            Promised::Pending(_) => true,
            Promised::Resolved(_) => false,
        }
    }

    pub fn is_resolved(&self) -> (r: bool)
        ensures
            r == (self is Resolved),
    {
        match self {
            Promised::Resolved(_) => true,
            Promised::Pending(_) => false,
        }
    }

    /// Consumes the field and yields the resolved value, if there is one.
    pub fn into_resolved(self) -> (r: Option<T>)
        ensures
            r.is_some() == (self is Resolved),
            r matches Some(v) ==> v == self->Resolved_0,
    {
        match self {
            Promised::Resolved(v) => Some(v),
            Promised::Pending(_) => None,
        }
    }

    /// Maps the resolved value, leaving a pending promise untouched.
    pub fn map<U, F: FnOnce(T) -> U>(self, f: F) -> (r: Promised<U>)
        requires
            self is Resolved ==> f.requires((self->Resolved_0,)),
        ensures
            self is Resolved ==> r is Resolved && f.ensures((self->Resolved_0,), r->Resolved_0),
            self is Pending ==> r == Promised::<U>::Pending(self->Pending_0),
    {
        match self {
            Promised::Resolved(v) => Promised::Resolved(f(v)),
            Promised::Pending(p) => Promised::Pending(p),
        }
    }

    /// A field still waiting for `p`.
    pub fn from_promise(p: Promise) -> (r: Promised<T>)
        ensures
            r == Promised::<T>::Pending(p),
    {
        Promised::Pending(p)
    }
}

/// What happened to an entity, as specifications see it.
pub enum FulfilledView<T> {
    InPlace,
    Dropped,
    Expanded(Seq<T>),
}

/// What happened to an entity passed to `fulfill_promises`.
#[derive(Debug, Clone, PartialEq, Eq)]
pub enum Fulfilled<T> {
    /// Every promise resolved in place: the entity handed in is the good one.
    InPlace,
    /// A non-strict promise could not be resolved: the entity is to be dropped.
    Dropped,
    /// At least one field was multiple: the entity is replaced by these copies, even when there
    /// is only one.
    Expanded(Vec<T>),
}

impl<T> View for Fulfilled<T> {
    type V = FulfilledView<T>;

    open spec fn view(&self) -> FulfilledView<T> {
        match self {
            Fulfilled::InPlace => FulfilledView::InPlace,
            Fulfilled::Dropped => FulfilledView::Dropped,
            Fulfilled::Expanded(v) => FulfilledView::Expanded(v@),
        }
    }
}

/// Failures of resolving an entity, as specifications see them.
pub enum PromisableErrorView {
    Field { field: Seq<char>, source: BlockValueErrorView },
    Promise(PromiseErrorView),
}

/// Failures of resolving an entity.
#[derive(Debug, PartialEq, Eq)]
pub enum PromisableError {
    /// The resolved value was not of the type the field expects.
    Field { field: &'static str, source: BlockValueError },
    /// A strict promise could not be resolved.
    Promise(PromiseError),
}

impl View for PromisableError {
    type V = PromisableErrorView;

    open spec fn view(&self) -> PromisableErrorView {
        match self {
            PromisableError::Field { field, source } => PromisableErrorView::Field { field: field@, source: source@ },
            PromisableError::Promise(e) => PromisableErrorView::Promise(e@),
        }
    }
}

pub open spec fn promisable_error_message(e: PromisableErrorView) -> Seq<char> {
    match e {
        PromisableErrorView::Field { field, source } => "field '"@ + field + "': "@ + block_value_error_message(source),
        PromisableErrorView::Promise(p) => promise_error_message(p),
    }
}

impl PromisableError {
    /// The human-readable message of the error.
    pub fn to_string(&self) -> (r: String)
        ensures
            r@ == promisable_error_message(self@),
    {
        match self {
            PromisableError::Field { field, source } => {
                let mut out = string_of("field '");
                out.append(field);
                out.append("': ");
                let inner = source.to_string();
                out.append(inner.as_str());
                out
            },
            PromisableError::Promise(e) => e.to_string(),
        }
    }
}

/// The view of the pending fields an entity lists.
pub open spec fn pending_view(v: Seq<(&'static str, Promise)>) -> Seq<(Seq<char>, PromiseView)> {
    v.map_values(|e: (&'static str, Promise)| (e.0@, e.1@))
}

/// What an entity must be able to do to be resolvable.
pub trait PromisableFields: Sized {
    /// The fields still pending, with their promise, in the order the fields are declared.
    /// An entity that is verified states it; of one that is not, nothing is known.
    closed spec fn pending_fields(&self) -> Seq<(Seq<char>, PromiseView)> {
        vstd::pervasive::arbitrary()
    }

    /// The entity after `value` is assigned to `field`, or why it does not convert. An entity
    /// that is verified states it; of one that is not, nothing is known.
    closed spec fn assigned(&self, field: Seq<char>, value: BlockValueView) -> Result<Self, BlockValueErrorView> {
        vstd::pervasive::arbitrary()
    }

    /// The fields still pending, with their promise, in declaration order.
    fn pending(&self) -> (r: Vec<(&'static str, Promise)>)
        ensures
            pending_view(r@) == self.pending_fields(),
    ;

    /// Assigns the resolved value to `field`, converting it into the field's type; a value that
    /// does not convert is an error and leaves the entity as it was.
    fn resolve_field(&mut self, field: &'static str, value: BlockValue) -> (r: Result<(), BlockValueError>)
        ensures
            old(self).assigned(field@, value@) is Ok ==> r is Ok && *final(self) == old(self).assigned(
                field@,
                value@,
            )->Ok_0,
            old(self).assigned(field@, value@) is Err ==> r is Err && r->Err_0@ == old(self).assigned(
                field@,
                value@,
            )->Err_0 && *final(self) == *old(self),
    ;

    /// An identical copy of the entity.
    fn duplicate(&self) -> (r: Self)
        ensures
            r == *self,
    ;
}

/// What phase one does, over the pending fields from `pend` on: ordinary promises resolve in
/// place, multiple ones wait. The entity reached, and the outcome if phase one already decides it.
pub open spec fn phase_one<T: PromisableFields>(
    e: T,
    pend: Seq<(Seq<char>, PromiseView)>,
    f: Seq<(Seq<char>, Seq<BlockValueView>)>,
) -> (T, Option<Result<FulfilledView<T>, PromisableErrorView>>)
    decreases pend.len(),
{
    if pend.len() == 0 {
        (e, None)
    } else if pend[0].1.multiple {
        phase_one(e, pend.drop_first(), f)
    } else {
        match fulfill_spec(f, pend[0].1) {
            Ok(v) => match e.assigned(pend[0].0, v) {
                Ok(n) => phase_one(n, pend.drop_first(), f),
                Err(err) => (e, Some(Err(PromisableErrorView::Field { field: pend[0].0, source: err }))),
            },
            Err(err) => if pend[0].1.strict {
                (e, Some(Err(PromisableErrorView::Promise(err))))
            } else {
                (e, Some(Ok(FulfilledView::Dropped)))
            },
        }
    }
}

/// The multiple fields among `pend`, in order.
pub open spec fn multiple_fields(pend: Seq<(Seq<char>, PromiseView)>) -> Seq<(Seq<char>, PromiseView)>
    decreases pend.len(),
{
    if pend.len() == 0 {
        Seq::empty()
    } else if pend[0].1.multiple {
        seq![pend[0]] + multiple_fields(pend.drop_first())
    } else {
        multiple_fields(pend.drop_first())
    }
}

/// The copies of `base` with `field` set to each of `values` in turn.
pub open spec fn expand_one<T: PromisableFields>(base: T, field: Seq<char>, values: Seq<BlockValueView>) -> Result<
    Seq<T>,
    PromisableErrorView,
>
    decreases values.len(),
{
    if values.len() == 0 {
        Ok(Seq::empty())
    } else {
        match base.assigned(field, values[0]) {
            Err(err) => Err(PromisableErrorView::Field { field, source: err }),
            Ok(n) => match expand_one(base, field, values.drop_first()) {
                Ok(rest) => Ok(seq![n] + rest),
                Err(err) => Err(err),
            },
        }
    }
}

/// The copies of every base, each base in turn, with `field` set to each of `values`.
pub open spec fn expand_all<T: PromisableFields>(bases: Seq<T>, field: Seq<char>, values: Seq<BlockValueView>) -> Result<
    Seq<T>,
    PromisableErrorView,
>
    decreases bases.len(),
{
    if bases.len() == 0 {
        Ok(Seq::empty())
    } else {
        match expand_one(bases[0], field, values) {
            Err(err) => Err(err),
            Ok(first) => match expand_all(bases.drop_first(), field, values) {
                Ok(rest) => Ok(first + rest),
                Err(err) => Err(err),
            },
        }
    }
}

/// The values a multiple promise's resolution spreads over: the elements of the list it
/// resolves to.
pub open spec fn spread(v: BlockValueView) -> Seq<BlockValueView> {
    match v {
        BlockValueView::List(items) => items,
        _ => seq![v],
    }
}

/// What phase two does with the copies made so far and the multiple fields from `mults` on.
pub open spec fn phase_two<T: PromisableFields>(
    bases: Seq<T>,
    mults: Seq<(Seq<char>, PromiseView)>,
    f: Seq<(Seq<char>, Seq<BlockValueView>)>,
) -> Result<FulfilledView<T>, PromisableErrorView>
    decreases mults.len(),
{
    if mults.len() == 0 {
        Ok(FulfilledView::Expanded(bases))
    } else {
        match fulfill_spec(f, mults[0].1) {
            Err(err) => if mults[0].1.strict {
                Err(PromisableErrorView::Promise(err))
            } else {
                Ok(FulfilledView::Dropped)
            },
            Ok(v) => match expand_all(bases, mults[0].0, spread(v)) {
                Err(err) => Err(err),
                Ok(next) => phase_two(next, mults.drop_first(), f),
            },
        }
    }
}

/// The whole resolution of entity `e` against `f`: the entity as left afterwards, and the
/// outcome.
pub open spec fn fulfillment<T: PromisableFields>(e: T, f: Seq<(Seq<char>, Seq<BlockValueView>)>) -> (
    T,
    Result<FulfilledView<T>, PromisableErrorView>,
) {
    let pend = e.pending_fields();
    let (e1, decided) = phase_one(e, pend, f);
    match decided {
        Some(r) => (e1, r),
        None => if multiple_fields(pend).len() == 0 {
            (e1, Ok(FulfilledView::InPlace))
        } else {
            (e1, phase_two(seq![e1], multiple_fields(pend), f))
        },
    }
}

/// `r` with `s` put in front of its copies.
pub open spec fn prepend<T>(s: Seq<T>, r: Result<Seq<T>, PromisableErrorView>) -> Result<Seq<T>, PromisableErrorView> {
    match r {
        Ok(rest) => Ok(s + rest),
        Err(e) => Err(e),
    }
}

proof fn lemma_prepend_assoc<T>(a: Seq<T>, b: Seq<T>, r: Result<Seq<T>, PromisableErrorView>)
    ensures
        prepend(a, prepend(b, r)) == prepend(a + b, r),
{
    if r is Ok {
        assert(a + (b + r->Ok_0) =~= (a + b) + r->Ok_0);
    }
}

/// Resolves every promise of `entity` against `map`.
///
/// Ordinary promises resolve first, in place, in the order the fields are listed; an unresolvable
/// one drops the entity if it is not strict and is an error if it is. Then multiple promises
/// expand the entity into one copy per value, the first multiple field varying slowest. A value of
/// the wrong type for its field is an error naming the field.
pub fn fulfill_promises<T: PromisableFields>(entity: &mut T, map: &FlatPromiseMap) -> (r: Result<
    Fulfilled<T>,
    PromisableError,
>)
    ensures
        *final(entity) == fulfillment(*old(entity), map@).0,
        r is Ok <==> fulfillment(*old(entity), map@).1 is Ok,
        r matches Ok(o) ==> fulfillment(*old(entity), map@).1 == Ok::<FulfilledView<T>, PromisableErrorView>(o@),
        r matches Err(e) ==> fulfillment(*old(entity), map@).1 == Err::<FulfilledView<T>, PromisableErrorView>(e@),
{
    let ghost f = map@;
    let ghost e0 = *entity;
    let pending = entity.pending();
    let ghost pend = pending_view(pending@);
    let mut multiples: Vec<(&'static str, Promise)> = Vec::new();
    let mut j: usize = 0;
    proof {
        assert(pend.skip(0) =~= pend);
        assert(pending_view(multiples@) =~= Seq::<(Seq<char>, PromiseView)>::empty());
        assert(Seq::<(Seq<char>, PromiseView)>::empty() + multiple_fields(pend) =~= multiple_fields(pend));
    }
    while j < pending.len()
        invariant
            f == map@,
            e0 == *old(entity),
            pend == pending_view(pending@),
            pend == e0.pending_fields(),
            j <= pending.len(),
            phase_one(e0, pend, f) == phase_one(*entity, pend.skip(j as int), f),
            pending_view(multiples@) + multiple_fields(pend.skip(j as int)) == multiple_fields(pend),
        decreases pending.len() - j,
    {
        let field = pending[j].0;
        let promise = &pending[j].1;
        proof {
            assert(pend.skip(j as int)[0] == pend[j as int]);
            assert(pend.skip(j as int).drop_first() =~= pend.skip(j + 1));
            assert(pend[j as int] == (field@, promise@));
        }
        if promise.multiple() {
            let ghost before = pending_view(multiples@);
            multiples.push((field, promise.clone()));
            proof {
                assert(pending_view(multiples@) =~= before.push((field@, promise@)));
                assert(before.push((field@, promise@)) + multiple_fields(pend.skip(j + 1)) =~= before + (seq![
                    (field@, promise@),
                ] + multiple_fields(pend.skip(j + 1))));
            }
        } else {
            match map.fulfill(promise) {
                Ok(value) => {
                    match entity.resolve_field(field, value) {
                        Ok(()) => {},
                        Err(source) => {
                            return Err(PromisableError::Field { field, source });
                        },
                    }
                },
                Err(err) => {
                    if promise.strict() {
                        return Err(PromisableError::Promise(err));
                    } else {
                        return Ok(Fulfilled::Dropped);
                    }
                },
            }
        }
        j = j + 1;
    }
    let ghost e1 = *entity;
    let ghost mults = pending_view(multiples@);
    proof {
        assert(pend.skip(pending.len() as int) =~= Seq::<(Seq<char>, PromiseView)>::empty());
        assert(mults + Seq::<(Seq<char>, PromiseView)>::empty() =~= mults);
    }
    if multiples.len() == 0 {
        return Ok(Fulfilled::InPlace);
    }
    let mut expansions: Vec<T> = Vec::new();
    expansions.push(entity.duplicate());
    let mut k: usize = 0;
    proof {
        assert(expansions@ =~= seq![e1]);
        assert(mults.skip(0) =~= mults);
    }
    while k < multiples.len()
        invariant
            f == map@,
            e0 == *old(entity),
            *entity == e1,
            e1 == fulfillment(e0, f).0,
            mults == pending_view(multiples@),
            k <= multiples.len(),
            phase_two(seq![e1], mults, f) == phase_two(expansions@, mults.skip(k as int), f),
            fulfillment(e0, f).1 == phase_two(seq![e1], mults, f),
        decreases multiples.len() - k,
    {
        let field = multiples[k].0;
        let promise = &multiples[k].1;
        proof {
            assert(mults.skip(k as int)[0] == mults[k as int]);
            assert(mults.skip(k as int).drop_first() =~= mults.skip(k + 1));
            assert(mults[k as int] == (field@, promise@));
        }
        let value = match map.fulfill(promise) {
            Ok(v) => v,
            Err(err) => {
                proof {
                    assert(phase_two(expansions@, mults.skip(k as int), f) == (if promise@.strict {
                        Err::<FulfilledView<T>, PromisableErrorView>(PromisableErrorView::Promise(err@))
                    } else {
                        Ok::<FulfilledView<T>, PromisableErrorView>(FulfilledView::Dropped)
                    }));
                }
                if promise.strict() {
                    return Err(PromisableError::Promise(err));
                } else {
                    return Ok(Fulfilled::Dropped);
                }
            },
        };
        let ghost value_v = value@;
        let values: Vec<BlockValue> = match value {
            BlockValue::List(items) => items,
            other => {
                let mut single: Vec<BlockValue> = Vec::new();
                single.push(other);
                single
            },
        };
        let ghost vals = spread(value_v);
        proof {
            assert forall|i: int| 0 <= i < values.len() implies (#[trigger] values[i])@ == vals[i] by {}
            assert(values.len() == vals.len());
        }
        let ghost exp = expansions@;
        let mut next: Vec<T> = Vec::new();
        let mut b: usize = 0;
        proof {
            assert(exp.skip(0) =~= exp);
            assert(Seq::<T>::empty() + exp =~= exp);
            if expand_all(exp, field@, vals) is Ok {
                assert(Seq::<T>::empty() + expand_all(exp, field@, vals)->Ok_0 =~= expand_all(exp, field@, vals)->Ok_0);
            }
        }
        #[verifier::loop_isolation(false)]
        while b < expansions.len()
            invariant
                exp == expansions@,
                b <= expansions.len(),
                values.len() == vals.len(),
                forall|i: int| 0 <= i < values.len() ==> (#[trigger] values[i])@ == vals[i],
                expand_all(exp, field@, vals) == prepend(next@, expand_all(exp.skip(b as int), field@, vals)),
            decreases expansions.len() - b,
        {
            let ghost base = exp[b as int];
            let ghost next_before = next@;
            let mut v: usize = 0;
            proof {
                assert(exp.skip(b as int)[0] == base);
                assert(exp.skip(b as int).drop_first() =~= exp.skip(b + 1));
                assert(vals.skip(0) =~= vals);
                if expand_one(base, field@, vals) is Ok {
                    assert(Seq::<T>::empty() + expand_one(base, field@, vals)->Ok_0 =~= expand_one(base, field@, vals)->Ok_0);
                }
            }
            #[verifier::loop_isolation(false)]
            while v < values.len()
                invariant
                    exp == expansions@,
                    b < expansions.len(),
                    base == exp[b as int],
                    v <= values.len(),
                    values.len() == vals.len(),
                    forall|i: int| 0 <= i < values.len() ==> (#[trigger] values[i])@ == vals[i],
                    next_before.len() <= next@.len(),
                    next@.subrange(0, next_before.len() as int) == next_before,
                    expand_one(base, field@, vals) == prepend(
                        next@.subrange(next_before.len() as int, next@.len() as int),
                        expand_one(base, field@, vals.skip(v as int)),
                    ),
                decreases values.len() - v,
            {
                let ghost cur = next@.subrange(next_before.len() as int, next@.len() as int);
                proof {
                    assert(vals.skip(v as int)[0] == vals[v as int]);
                    assert(vals.skip(v as int).drop_first() =~= vals.skip(v + 1));
                }
                let mut copy = expansions[b].duplicate();
                let item = values[v].clone();
                match copy.resolve_field(field, item) {
                    Ok(()) => {
                        let ghost n = copy;
                        next.push(copy);
                        proof {
                            assert(next@.subrange(next_before.len() as int, next@.len() as int) =~= cur.push(n));
                            lemma_prepend_assoc(cur, seq![n], expand_one(base, field@, vals.skip(v + 1)));
                            assert(cur.push(n) =~= cur + seq![n]);
                            assert(next@.subrange(0, next_before.len() as int) =~= next_before);
                        }
                    },
                    Err(source) => {
                        proof {
                            let err = PromisableErrorView::Field { field: field@, source: source@ };
                            assert(expand_one(base, field@, vals.skip(v as int)) == Err::<Seq<T>, PromisableErrorView>(err));
                            assert(expand_one(base, field@, vals) == Err::<Seq<T>, PromisableErrorView>(err));
                            assert(expand_all(exp.skip(b as int), field@, vals) == Err::<Seq<T>, PromisableErrorView>(err));
                            assert(expand_all(exp, field@, vals) == Err::<Seq<T>, PromisableErrorView>(err));
                            assert(phase_two(exp, mults.skip(k as int), f) == Err::<FulfilledView<T>, PromisableErrorView>(err));
                        }
                        return Err(PromisableError::Field { field, source });
                    },
                }
                v = v + 1;
            }
            proof {
                let cur = next@.subrange(next_before.len() as int, next@.len() as int);
                assert(vals.skip(values.len() as int) =~= Seq::<BlockValueView>::empty());
                assert(expand_one(base, field@, vals) == Ok::<Seq<T>, PromisableErrorView>(cur + Seq::<T>::empty()));
                assert(cur + Seq::<T>::empty() =~= cur);
                lemma_prepend_assoc(next_before, cur, expand_all(exp.skip(b + 1), field@, vals));
                assert(next_before + cur =~= next@);
            }
            b = b + 1;
        }
        proof {
            assert(exp.skip(expansions.len() as int) =~= Seq::<T>::empty());
            assert(next@ + Seq::<T>::empty() =~= next@);
        }
        expansions = next;
        k = k + 1;
    }
    proof {
        assert(mults.skip(multiples.len() as int) =~= Seq::<(Seq<char>, PromiseView)>::empty());
    }
    Ok(Fulfilled::Expanded(expansions))
}


/// An entity with nothing pending is resolved in place and left as it was.
pub proof fn law_nothing_pending_stays_in_place<T: PromisableFields>(
    e: T,
    f: Seq<(Seq<char>, Seq<BlockValueView>)>,
)
    requires
        e.pending_fields().len() == 0,
    ensures
        fulfillment(e, f) == (e, Ok::<FulfilledView<T>, PromisableErrorView>(FulfilledView::InPlace)),
{
    assert(multiple_fields(e.pending_fields()) =~= Seq::<(Seq<char>, PromiseView)>::empty());
}

/// Phase one never expands: over fields none of which is multiple, the outcome is in place, a
/// drop, or an error.
proof fn lemma_phase_one_never_expands<T: PromisableFields>(
    e: T,
    pend: Seq<(Seq<char>, PromiseView)>,
    f: Seq<(Seq<char>, Seq<BlockValueView>)>,
)
    ensures
        phase_one(e, pend, f).1 matches Some(Ok(o)) ==> o is Dropped,
        multiple_fields(pend).len() == 0 <==> forall|i: int| 0 <= i < pend.len() ==> !(#[trigger] pend[i]).1.multiple,
    decreases pend.len(),
{
    if pend.len() > 0 {
        lemma_phase_one_never_expands(e, pend.drop_first(), f);
        if !pend[0].1.multiple {
            match fulfill_spec(f, pend[0].1) {
                Ok(v) => match e.assigned(pend[0].0, v) {
                    Ok(n) => lemma_phase_one_never_expands(n, pend.drop_first(), f),
                    Err(_) => {},
                },
                Err(_) => {},
            }
        }
        assert forall|i: int| 0 < i < pend.len() implies pend[i] == #[trigger] pend.drop_first()[i - 1] by {}
        if multiple_fields(pend).len() == 0 {
            assert forall|i: int| 0 <= i < pend.len() implies !(#[trigger] pend[i]).1.multiple by {
                if i > 0 {
                    assert(pend[i] == pend.drop_first()[i - 1]);
                }
            }
        }
        if forall|i: int| 0 <= i < pend.len() ==> !(#[trigger] pend[i]).1.multiple {
            assert(!pend[0].1.multiple);
            assert forall|i: int| 0 <= i < pend.drop_first().len() implies !(
            #[trigger] pend.drop_first()[i]).1.multiple by {
                assert(pend.drop_first()[i] == pend[i + 1]);
            }
        }
    }
}

/// Without a multiple promise among its pending fields, an entity is never expanded: it is
/// resolved in place, dropped, or the resolution fails.
pub proof fn law_no_multiple_promise_never_expands<T: PromisableFields>(
    e: T,
    f: Seq<(Seq<char>, Seq<BlockValueView>)>,
)
    requires
        forall|i: int| 0 <= i < e.pending_fields().len() ==> !(#[trigger] e.pending_fields()[i]).1.multiple,
    ensures
        fulfillment(e, f).1 matches Ok(o) ==> (o is InPlace || o is Dropped),
{
    lemma_phase_one_never_expands(e, e.pending_fields(), f);
}

proof fn lemma_expand_one_len<T: PromisableFields>(base: T, field: Seq<char>, values: Seq<BlockValueView>)
    ensures
        expand_one(base, field, values) matches Ok(copies) ==> copies.len() == values.len(),
    decreases values.len(),
{
    if values.len() > 0 {
        lemma_expand_one_len(base, field, values.drop_first());
    }
}

/// Expanding copies over the values of a multiple field is a cartesian product: when it
/// succeeds, every copy is taken once per value.
pub proof fn law_expansion_is_a_product<T: PromisableFields>(
    bases: Seq<T>,
    field: Seq<char>,
    values: Seq<BlockValueView>,
)
    ensures
        expand_all(bases, field, values) matches Ok(copies) ==> copies.len() == bases.len() * values.len(),
    decreases bases.len(),
{
    if bases.len() > 0 {
        lemma_expand_one_len(bases[0], field, values);
        law_expansion_is_a_product(bases.drop_first(), field, values);
        let n = bases.len();
        let m = values.len();
        assert((n - 1) * m + m == n * m) by (nonlinear_arith);
    }
}
} // verus!
