//! `Promise`: a reference to a value not yet known when the block carrying it is built.
//!
//! A trailing `!` on the raw form makes the promise *strict*, a trailing `[]` makes it
//! *multiple*. `!` is stripped before `[]`, so `"x![]"` and `"x[]!"` are two different promises,
//! and the canonical form writes `[]` before `!` so that it always reads back into the same
//! promise.

use vstd::prelude::*;

use crate::text::{join, join_strings, push_char, string_of};

verus! {

/// A promise as specifications see it.
pub struct PromiseView {
    pub id: Seq<char>,
    pub strict: bool,
    pub multiple: bool,
}

pub open spec fn ends_with_bang(s: Seq<char>) -> bool {
    s.len() >= 1 && s[s.len() - 1] == '!'
}

pub open spec fn ends_with_brackets(s: Seq<char>) -> bool {
    s.len() >= 2 && s[s.len() - 2] == '[' && s[s.len() - 1] == ']'
}

/// The promise that `raw` denotes when the two flags start out as `strict` and `multiple`:
/// a flag already on disables the stripping of its suffix.
pub open spec fn parse_promise(raw: Seq<char>, strict: bool, multiple: bool) -> PromiseView {
    let (id1, strict1) = if !strict && ends_with_bang(raw) {
        (raw.drop_last(), true)
    } else {
        (raw, strict)
    };
    if !multiple && ends_with_brackets(id1) {
        PromiseView { id: id1.take(id1.len() - 2), strict: strict1, multiple: true }
    } else {
        PromiseView { id: id1, strict: strict1, multiple }
    }
}

/// The canonical form: the id, then `[]` if multiple, then `!` if strict.
pub open spec fn canonical_form(p: PromiseView) -> Seq<char> {
    p.id + (if p.multiple { seq!['[', ']'] } else { Seq::empty() }) + (if p.strict {
        seq!['!']
    } else {
        Seq::empty()
    })
}

/// A deferred reference to a value, resolved later against a flattened promise map.
#[derive(Debug, PartialEq, Eq, PartialOrd, Ord, Hash)]
pub struct Promise {
    id: String,
    strict: bool,
    multiple: bool,
}

impl View for Promise {
    type V = PromiseView;

    closed spec fn view(&self) -> PromiseView {
        PromiseView { id: self.id@, strict: self.strict, multiple: self.multiple }
    }
}

impl Clone for Promise {
    fn clone(&self) -> (r: Self)
        ensures
            r@ == self@,
    {
        Promise { id: self.id.clone(), strict: self.strict, multiple: self.multiple }
    }
}

impl Promise {
    /// Builds a promise by reading the suffixes of `raw`: `"fund"`, `"fund!"`, `"fund[]"`,
    /// `"fund[]!"`.
    pub fn new(raw: &str) -> (p: Promise)
        ensures
            p@ == parse_promise(raw@, false, false),
    {
        Self::with_flags(raw, false, false)
    }

    /// Like `new`, with the two flags already decided by the caller. A flag already on keeps its
    /// suffix in the id: the only way to build an id that really ends in `!` or `[]`.
    pub fn with_flags(raw: &str, strict_flag: bool, multiple_flag: bool) -> (p: Promise)
        ensures
            p@ == parse_promise(raw@, strict_flag, multiple_flag),
    {
        let len = raw.unicode_len();
        let mut end = len;
        let mut strict = strict_flag;
        let mut multiple = multiple_flag;
        if !strict && end >= 1 && raw.get_char(end - 1) == '!' {
            end = end - 1;
            strict = true;
        }
        if !multiple && end >= 2 && raw.get_char(end - 2) == '[' && raw.get_char(end - 1) == ']' {
            end = end - 2;
            multiple = true;
        }
        let id = string_of(raw.substring_char(0, end));
        let p = Promise { id, strict, multiple };
        proof {
            assert(raw@.subrange(0, end as int) =~= parse_promise(raw@, strict_flag, multiple_flag).id);
        }
        p
    }

    /// The identifier, without the suffixes that turned the flags on.
    pub fn id(&self) -> (r: &str)
        ensures
            r@ == self@.id,
    {
        self.id.as_str()
    }

    /// Whether an unresolvable reference is an error rather than a dropped entity.
    pub fn strict(&self) -> (r: bool)
        ensures
            r == self@.strict,
    {
        self.strict
    }

    /// Whether the promise always resolves to a list, one copy of its entity per value.
    pub fn multiple(&self) -> (r: bool)
        ensures
            r == self@.multiple,
    {
        self.multiple
    }

    /// The canonical form, which `new` reads back into the same promise.
    pub fn to_string(&self) -> (r: String)
        ensures
            r@ == canonical_form(self@),
    {
        let mut out = self.id.clone();
        if self.multiple {
            push_char(&mut out, '[');
            push_char(&mut out, ']');
        }
        if self.strict {
            push_char(&mut out, '!');
        }
        proof {
            let v = self@;
            assert(canonical_form(v) =~= out@);
        }
        out
    }

    /// The error that says this promise has no value.
    pub fn unresolved(&self) -> (e: PromiseError)
        ensures
            e@ == (PromiseErrorView::Unresolved { id: self@.id }),
    {
        PromiseError::Unresolved { id: self.id.clone() }
    }
}

/// Failures of resolving a promise, as specifications see them.
pub enum PromiseErrorView {
    Unresolved { id: Seq<char> },
    Circular { chain: Seq<Seq<char>> },
}

/// Failures of resolving a promise.
#[derive(Debug, PartialEq, Eq)]
pub enum PromiseError {
    /// The id has no usable value in the resolution map.
    Unresolved { id: String },
    /// A chain of references that comes back to itself, from the first id visited up to and
    /// including the repetition.
    Circular { chain: Vec<String> },
}

impl View for PromiseError {
    type V = PromiseErrorView;

    open spec fn view(&self) -> PromiseErrorView {
        match self {
            PromiseError::Unresolved { id } => PromiseErrorView::Unresolved { id: id@ },
            PromiseError::Circular { chain } => PromiseErrorView::Circular {
                chain: chain@.map_values(|s: String| s@),
            },
        }
    }
}

pub open spec fn promise_error_message(e: PromiseErrorView) -> Seq<char> {
    match e {
        PromiseErrorView::Unresolved { id } => "promise '"@ + id + "' has no value in the resolution map"@,
        PromiseErrorView::Circular { chain } => "circular promise chain: "@ + join(chain, " -> "@),
    }
}

impl Clone for PromiseError {
    fn clone(&self) -> (r: Self)
        ensures
            r@ == self@,
    {
        match self {
            PromiseError::Unresolved { id } => PromiseError::Unresolved { id: id.clone() },
            PromiseError::Circular { chain } => {
                let mut copy: Vec<String> = Vec::new();
                let mut i: usize = 0;
                while i < chain.len()
                    invariant
                        i <= chain.len(),
                        copy@ =~= chain@.take(i as int),
                    decreases chain.len() - i,
                {
                    copy.push(chain[i].clone());
                    i = i + 1;
                }
                assert(copy@ =~= chain@);
                PromiseError::Circular { chain: copy }
            },
        }
    }
}

impl PromiseError {
    /// The human-readable message of the error.
    pub fn to_string(&self) -> (r: String)
        ensures
            r@ == promise_error_message(self@),
    {
        match self {
            PromiseError::Unresolved { id } => {
                let mut out = string_of("promise '");
                out.append(id.as_str());
                out.append("' has no value in the resolution map");
                proof {
                    reveal_strlit("promise '");
                    reveal_strlit("' has no value in the resolution map");
                }
                out
            },
            PromiseError::Circular { chain } => {
                let mut out = string_of("circular promise chain: ");
                let joined = join_strings(chain, " -> ");
                out.append(joined.as_str());
                out
            },
        }
    }
}

/// Re-parsing the canonical form of any promise that can be built gives the same promise back.
pub proof fn law_canonical_form_reparses(raw: Seq<char>, strict: bool, multiple: bool)
    ensures
        parse_promise(canonical_form(parse_promise(raw, strict, multiple)), false, false)
            == parse_promise(raw, strict, multiple),
{
    let p = parse_promise(raw, strict, multiple);
    let c = canonical_form(p);
    let tail_m: Seq<char> = if p.multiple { seq!['[', ']'] } else { Seq::empty() };
    let tail_s: Seq<char> = if p.strict { seq!['!'] } else { Seq::empty() };
    assert(c == p.id + tail_m + tail_s);
    if p.strict {
        assert(c.drop_last() =~= p.id + tail_m);
        if p.multiple {
            assert((p.id + tail_m).take(p.id.len() as int) =~= p.id);
        }
    } else {
        if p.multiple {
            assert(c.take(c.len() - 2) =~= p.id);
        } else {
            assert(c =~= p.id);
        }
    }
}

} // verus!
