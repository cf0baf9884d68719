//! The vocabulary the pipes share: how a pipe fails ([`PipeError`]) and the promises a
//! deserialize pipe deposits ([`PromiseEntries`]).

use vstd::prelude::*;

use crate::classes::value::{block_value_error_message, BlockValue, BlockValueError, BlockValueView};
use crate::page::PageError;
use crate::promise_resolution::{contributions_of, lookup, pair_values, PromiseMap};
use crate::text::{keys_sorted, string_of};

verus! {

/// The failure of a single pipe. Every variant names the pipe that produced it.
#[allow(inconsistent_fields)]
#[derive(Debug, PartialEq, Eq)]
pub enum PipeError {
    /// The page cannot be interpreted. Non-fatal: the page is skipped.
    PageParse { pipe: String, source: PageError },
    /// The pipe did not find what it expected to find.
    Extraction { pipe: String, message: String },
    /// A field conversion failed.
    Cast { pipe: String, field: String, message: String },
    /// A pipe written by the format author failed.
    Author { pipeline: String, pipe: String, message: String },
    /// A `metadata` or `content` field did not have the expected type.
    Value { pipe: String, source: BlockValueError },
}

/// The name of the pipe an error names.
pub open spec fn failing_pipe(e: PipeError) -> Seq<char> {
    match e {
        PipeError::PageParse { pipe, .. } => pipe@,
        PipeError::Extraction { pipe, .. } => pipe@,
        PipeError::Cast { pipe, .. } => pipe@,
        PipeError::Author { pipe, .. } => pipe@,
        PipeError::Value { pipe, .. } => pipe@,
    }
}

/// The message of a page failure.
pub open spec fn page_error_message(e: PageError) -> Seq<char> {
    match e {
        PageError::ParseFail { message } => message@,
        PageError::LineParseFail { message } => message@,
    }
}

/// The human-readable message of a pipe failure.
pub open spec fn pipe_error_message(e: PipeError) -> Seq<char> {
    match e {
        PipeError::PageParse { pipe, source } => "pipe `"@ + pipe@ + "` could not parse the page: "@
            + page_error_message(source),
        PipeError::Extraction { pipe, message } => "pipe `"@ + pipe@ + "` failed to extract: "@
            + message@,
        PipeError::Cast { pipe, field, message } => "pipe `"@ + pipe@ + "` could not cast field `"@
            + field@ + "`: "@ + message@,
        PipeError::Author { pipeline, pipe, message } => "author pipe `"@ + pipe@ + "` of pipeline `"@
            + pipeline@ + "` failed: "@ + message@,
        PipeError::Value { pipe, source } => "pipe `"@ + pipe@ + "`: "@ + block_value_error_message(
            source@,
        ),
    }
}

impl PipeError {
    pub fn page_parse(pipe: &str, source: PageError) -> (r: Self)
        ensures
            r matches PipeError::PageParse { pipe: p, source: s } && p@ == pipe@ && s == source,
    {
        PipeError::PageParse { pipe: string_of(pipe), source }
    }

    pub fn extraction(pipe: &str, message: &str) -> (r: Self)
        ensures
            r matches PipeError::Extraction { pipe: p, message: m } && p@ == pipe@ && m@ == message@,
    {
        PipeError::Extraction { pipe: string_of(pipe), message: string_of(message) }
    }

    pub fn cast(pipe: &str, field: &str, message: &str) -> (r: Self)
        ensures
            r matches PipeError::Cast { pipe: p, field: f, message: m } && p@ == pipe@ && f@ == field@
                && m@ == message@,
    {
        PipeError::Cast { pipe: string_of(pipe), field: string_of(field), message: string_of(message) }
    }

    pub fn author(pipeline: &str, pipe: &str, message: &str) -> (r: Self)
        ensures
            r matches PipeError::Author { pipeline: l, pipe: p, message: m } && l@ == pipeline@ && p@
                == pipe@ && m@ == message@,
    {
        PipeError::Author {
            pipeline: string_of(pipeline),
            pipe: string_of(pipe),
            message: string_of(message),
        }
    }

    pub fn value(pipe: &str, source: BlockValueError) -> (r: Self)
        ensures
            r matches PipeError::Value { pipe: p, source: s } && p@ == pipe@ && s == source,
    {
        PipeError::Value { pipe: string_of(pipe), source }
    }

    /// True only for a page failure: the one failure the algorithm absorbs by skipping the page.
    pub fn is_page_failure(&self) -> (r: bool)
        ensures
            r == (self is PageParse),
    {
        match self {
            PipeError::PageParse { .. } => true,
            _ => false,
        }
    }

    /// The name of the pipe that produced the error.
    pub fn pipe(&self) -> (r: &str)
        ensures
            r@ == failing_pipe(*self),
    {
        match self {
            PipeError::PageParse { pipe, .. } => pipe.as_str(),
            PipeError::Extraction { pipe, .. } => pipe.as_str(),
            PipeError::Cast { pipe, .. } => pipe.as_str(),
            PipeError::Author { pipe, .. } => pipe.as_str(),
            PipeError::Value { pipe, .. } => pipe.as_str(),
        }
    }

    /// The human-readable message of the error.
    pub fn to_string(&self) -> (r: String)
        ensures
            r@ == pipe_error_message(*self),
    {
        match self {
            PipeError::PageParse { pipe, source } => {
                let mut out = string_of("pipe `");
                out.append(pipe.as_str());
                out.append("` could not parse the page: ");
                out.append(source.message());
                proof {
                    reveal_strlit("pipe `");
                    reveal_strlit("` could not parse the page: ");
                }
                out
            },
            PipeError::Extraction { pipe, message } => {
                let mut out = string_of("pipe `");
                out.append(pipe.as_str());
                out.append("` failed to extract: ");
                out.append(message.as_str());
                proof {
                    reveal_strlit("pipe `");
                    reveal_strlit("` failed to extract: ");
                }
                out
            },
            PipeError::Cast { pipe, field, message } => {
                let mut out = string_of("pipe `");
                out.append(pipe.as_str());
                out.append("` could not cast field `");
                out.append(field.as_str());
                out.append("`: ");
                out.append(message.as_str());
                proof {
                    reveal_strlit("pipe `");
                    reveal_strlit("` could not cast field `");
                    reveal_strlit("`: ");
                }
                out
            },
            PipeError::Author { pipeline, pipe, message } => {
                let mut out = string_of("author pipe `");
                out.append(pipe.as_str());
                out.append("` of pipeline `");
                out.append(pipeline.as_str());
                out.append("` failed: ");
                out.append(message.as_str());
                proof {
                    reveal_strlit("author pipe `");
                    reveal_strlit("` of pipeline `");
                    reveal_strlit("` failed: ");
                }
                out
            },
            PipeError::Value { pipe, source } => {
                let mut out = string_of("pipe `");
                out.append(pipe.as_str());
                out.append("`: ");
                let inner = source.to_string();
                out.append(inner.as_str());
                proof {
                    reveal_strlit("pipe `");
                    reveal_strlit("`: ");
                }
                out
            },
        }
    }
}

/// The ids and contributions of a list of deposited promises.
pub open spec fn deposit_view(v: Seq<(String, BlockValue)>) -> Seq<(Seq<char>, BlockValueView)> {
    v.map_values(|p: (String, BlockValue)| (p.0@, p.1@))
}

/// The promises a deserialize pipe deposits: `id -> contribution` pairs, in the order the pipe
/// produced them. The order matters: the later one wins when a promise is not multiple.
#[derive(Debug, PartialEq, Eq)]
pub struct PromiseEntries(Vec<(String, BlockValue)>);

impl View for PromiseEntries {
    type V = Seq<(Seq<char>, BlockValueView)>;

    closed spec fn view(&self) -> Seq<(Seq<char>, BlockValueView)> {
        deposit_view(self.0@)
    }
}

impl PromiseEntries {
    pub fn new() -> (r: Self)
        ensures
            r@ == Seq::<(Seq<char>, BlockValueView)>::empty(),
    {
        let r = PromiseEntries(Vec::new());
        assert(r@ =~= Seq::<(Seq<char>, BlockValueView)>::empty());
        r
    }

    /// Deposits one contribution for the promise `id`.
    pub fn push(&mut self, id: &str, value: BlockValue)
        ensures
            final(self)@ == old(self)@.push((id@, value@)),
    {
        let ghost before = self@;
        let ghost v = value@;
        self.0.push((string_of(id), value));
        assert(self@ =~= before.push((id@, v)));
    }

    /// The deposited pairs, in order.
    pub fn entries(&self) -> (r: &[(String, BlockValue)])
        ensures
            deposit_view(r@) == self@,
    {
        self.0.as_slice()
    }

    pub fn len(&self) -> (r: usize)
        ensures
            r == self@.len(),
    {
        self.0.len()
    }

    pub fn is_empty(&self) -> (r: bool)
        ensures
            r == (self@.len() == 0),
    {
        self.0.len() == 0
    }

    /// Pours the contributions into the resolution multimap, in order.
    pub fn merge_into(&self, map: &mut PromiseMap)
        ensures
            keys_sorted(final(map)@),
            forall|k: Seq<char>|
                #[trigger] contributions_of(final(map)@, k) == contributions_of(old(map)@, k)
                    + pair_values(self@, k),
            forall|k: Seq<char>|
                #[trigger] lookup(final(map)@, k).is_some() == (lookup(old(map)@, k).is_some()
                    || pair_values(self@, k).len() > 0),
    {
        let mut pairs: Vec<(String, BlockValue)> = Vec::new();
        let mut i: usize = 0;
        while i < self.0.len()
            invariant
                i <= self.0.len(),
                deposit_view(pairs@) == self@.take(i as int),
            decreases self.0.len() - i,
        {
            let ghost before = deposit_view(pairs@);
            let pair = (string_of(self.0[i].0.as_str()), self.0[i].1.deep_clone());
            assert((pair.0@, pair.1@) == self@[i as int]);
            pairs.push(pair);
            assert(deposit_view(pairs@) =~= before.push(self@[i as int]));
            assert(self@.take(i + 1) =~= self@.take(i as int).push(self@[i as int]));
            i = i + 1;
        }
        assert(self@.take(self.0.len() as int) =~= self@);
        assert(pairs@.map_values(|p: (String, BlockValue)| (p.0@, p.1@)) == deposit_view(pairs@));
        map.merge(pairs);
    }
}

} // verus!
