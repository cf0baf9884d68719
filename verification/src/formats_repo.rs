//! What loading a format from a formats repository decides by itself, before and after reading
//! the repository's files: whether the requested format is one the repository declares, how the
//! pipelines of the three levels (structured, semistructured, unstructured) add up, and whether
//! every pipeline they add up to is complete.
//!
//! The levels add up rather than exclude one another: pipelines of the same name in several
//! levels are summed, level after level, segment by segment.

use std::sync::Arc;

use vstd::prelude::*;

use crate::pipeline::segment::union_of;
use crate::pipeline::{missing_names, Pipeline};
use crate::text::{
    contains_text, decimal, join, lemma_text_lt_irreflexive, lemma_text_lt_total,
    lemma_text_lt_transitive, push_decimal, str_eq, string_of, strictly_sorted, text_less, text_lt,
    texts_of,
};

verus! {

/// What a [`LoadError`] says, as plain values.
pub enum LoadErrorView {
    UnknownFormat { format: Seq<char>, known: nat },
    IncompletePipeline { pipeline: Seq<char>, missing: Seq<char> },
}

/// Failures of loading a format from a formats repository.
#[derive(Debug)]
pub enum LoadError {
    /// The requested format is not among those the repository declares.
    UnknownFormat { format: String, known: usize },
    /// A pipeline lacks one of the three segments: none of the three levels supplied it.
    IncompletePipeline { pipeline: String, missing: String },
}

impl View for LoadError {
    type V = LoadErrorView;

    open spec fn view(&self) -> LoadErrorView {
        match self {
            LoadError::UnknownFormat { format, known } => LoadErrorView::UnknownFormat {
                format: format@,
                known: *known as nat,
            },
            LoadError::IncompletePipeline { pipeline, missing } =>
                LoadErrorView::IncompletePipeline { pipeline: pipeline@, missing: missing@ },
        }
    }
}

/// The human-readable message of a load error.
pub open spec fn load_error_message(e: LoadErrorView) -> Seq<char> {
    match e {
        LoadErrorView::UnknownFormat { format, known } => "unknown format '"@ + format
            + "'; the repository declares "@ + decimal(known) + " format(s)"@,
        LoadErrorView::IncompletePipeline { pipeline, missing } => "pipeline '"@ + pipeline
            + "' is incomplete: missing the "@ + missing + " segment(s)"@,
    }
}

impl LoadError {
    /// The human-readable message of the error.
    pub fn to_string(&self) -> (r: String)
        ensures
            r@ == load_error_message(self@),
    {
        match self {
            LoadError::UnknownFormat { format, known } => {
                let mut out = string_of("unknown format '");
                out.append(format.as_str());
                out.append("'; the repository declares ");
                push_decimal(&mut out, *known as u64);
                out.append(" format(s)");
                proof {
                    reveal_strlit("unknown format '");
                    reveal_strlit("'; the repository declares ");
                    reveal_strlit(" format(s)");
                }
                out
            },
            LoadError::IncompletePipeline { pipeline, missing } => {
                let mut out = string_of("pipeline '");
                out.append(pipeline.as_str());
                out.append("' is incomplete: missing the ");
                out.append(missing.as_str());
                out.append(" segment(s)");
                proof {
                    reveal_strlit("pipeline '");
                    reveal_strlit("' is incomplete: missing the ");
                    reveal_strlit(" segment(s)");
                }
                out
            },
        }
    }
}

/// Checks that `format` is one of the formats the repository declares: the first thing loading
/// a format does, before any of the format's own files is read.
pub fn check_known_format(known_formats: &Vec<String>, format: &str) -> (r: Result<(), LoadError>)
    ensures
        r is Ok <==> texts_of(known_formats@).contains(format@),
        r matches Err(e) ==> e@ == (LoadErrorView::UnknownFormat {
            format: format@,
            known: known_formats.len() as nat,
        }),
{
    if contains_text(known_formats, format) {
        Ok(())
    } else {
        Err(LoadError::UnknownFormat { format: string_of(format), known: known_formats.len() })
    }
}

/// Whether all three segments of `p` hold at least one pipe.
pub open spec fn complete<E: ?Sized, F: ?Sized, D: ?Sized>(p: Pipeline<E, F, D>) -> bool {
    &&& p.pdf_extract.pipes().len() > 0
    &&& p.text_filter.pipes().len() > 0
    &&& p.deserialize.pipes().len() > 0
}

/// The comma-separated names of the empty segments of `p`, in chain order.
pub open spec fn missing_text<E: ?Sized, F: ?Sized, D: ?Sized>(p: Pipeline<E, F, D>) -> Seq<char> {
    join(
        missing_names(
            p.pdf_extract.pipes().len() == 0,
            p.text_filter.pipes().len() == 0,
            p.deserialize.pipes().len() == 0,
        ),
        ", "@,
    )
}

/// Whether, among the first `n` pipelines of `ps`, the one at `i` is incomplete and comes first
/// by name: no incomplete one has a name sorting before it, and none of the same name comes
/// before it.
pub open spec fn first_incomplete_among<E: ?Sized, F: ?Sized, D: ?Sized>(
    ps: Seq<Pipeline<E, F, D>>,
    n: int,
    i: int,
) -> bool {
    &&& 0 <= i < n <= ps.len()
    &&& !complete(ps[i])
    &&& forall|j: int|
        0 <= j < n && !complete(#[trigger] ps[j]) ==> !text_lt(ps[j].name@, ps[i].name@) && (
        ps[j].name@ == ps[i].name@ ==> i <= j)
}

/// Checks that every pipeline of a format is complete, unless `allow_partial`: the incomplete
/// pipeline reported is the one whose name sorts first, so that the error does not depend on the
/// order in which the pipelines were gathered.
///
/// `allow_partial` is for tooling that tries one segment at a time; loading a format for use
/// refuses an incomplete pipeline, which could produce nothing.
pub fn check_pipelines_complete<E: ?Sized, F: ?Sized, D: ?Sized>(
    pipelines: &Vec<Pipeline<E, F, D>>,
    allow_partial: bool,
) -> (r: Result<(), LoadError>)
    ensures
        r is Ok <==> allow_partial || forall|i: int|
            0 <= i < pipelines.len() ==> complete(#[trigger] pipelines@[i]),
        r matches Err(e) ==> exists|i: int|
            first_incomplete_among(pipelines@, pipelines.len() as int, i) && e@ == (
            LoadErrorView::IncompletePipeline {
                pipeline: pipelines@[i].name@,
                missing: missing_text(pipelines@[i]),
            }),
{
    if allow_partial {
        return Ok(());
    }
    let ghost ps = pipelines@;
    let mut best: Option<usize> = None;
    let mut i: usize = 0;
    while i < pipelines.len()
        invariant
            ps == pipelines@,
            i <= pipelines.len(),
            best is None ==> forall|j: int| 0 <= j < i ==> complete(#[trigger] ps[j]),
            best matches Some(b) ==> first_incomplete_among(ps, i as int, b as int),
        decreases pipelines.len() - i,
    {
        if !pipelines[i].is_complete() {
            let better = match best {
                None => true,
                Some(b) => text_less(pipelines[i].name.as_str(), pipelines[b].name.as_str()),
            };
            proof {
                let ni = ps[i as int].name@;
                lemma_text_lt_irreflexive(ni);
                if let Some(b) = best {
                    let nb = ps[b as int].name@;
                    if better {
                        assert forall|j: int|
                            0 <= j < i + 1 && !complete(#[trigger] ps[j]) implies !text_lt(
                            ps[j].name@,
                            ni,
                        ) && (ps[j].name@ == ni ==> i <= j) by {
                            if j < i {
                                if text_lt(ps[j].name@, ni) {
                                    lemma_text_lt_transitive(ps[j].name@, ni, nb);
                                }
                            }
                        }
                    }
                }
            }
            if better {
                best = Some(i);
            }
        }
        i = i + 1;
    }
    match best {
        None => Ok(()),
        Some(b) => {
            let pipeline = &pipelines[b];
            Err(
                LoadError::IncompletePipeline {
                    pipeline: string_of(pipeline.name.as_str()),
                    missing: pipeline.missing_segments(),
                },
            )
        },
    }
}


/// The pipelines of each level, as sequences.
pub open spec fn level_seqs<E: ?Sized, F: ?Sized, D: ?Sized>(
    levels: Seq<Vec<Pipeline<E, F, D>>>,
) -> Seq<Seq<Pipeline<E, F, D>>> {
    levels.map_values(|v: Vec<Pipeline<E, F, D>>| v@)
}

/// Whether a pipeline bears the name `n`.
pub open spec fn bears<E: ?Sized, F: ?Sized, D: ?Sized>(n: Seq<char>) -> spec_fn(Pipeline<E, F, D>) -> bool {
    |q: Pipeline<E, F, D>| q.name@ == n
}

/// The names of the pipelines of `m`, in order.
pub open spec fn names_of<E: ?Sized, F: ?Sized, D: ?Sized>(m: Seq<Pipeline<E, F, D>>) -> Seq<Seq<char>> {
    m.map_values(|p: Pipeline<E, F, D>| p.name@)
}

/// The pipelines named `n`, level after level and, within a level, in order.
pub open spec fn named_in<E: ?Sized, F: ?Sized, D: ?Sized>(
    levels: Seq<Seq<Pipeline<E, F, D>>>,
    n: Seq<char>,
) -> Seq<Pipeline<E, F, D>>
    decreases levels.len(),
{
    if levels.len() == 0 {
        Seq::empty()
    } else {
        named_in(levels.drop_last(), n) + levels.last().filter(bears(n))
    }
}

/// `sums` are the running sums of the segments `parts`: the first as it is, each next one the
/// previous sum merged with the next part as `Segment::union` merges.
pub open spec fn sums_along<T>(sums: Seq<Seq<T>>, parts: Seq<Seq<T>>) -> bool {
    &&& parts.len() > 0
    &&& sums.len() == parts.len()
    &&& sums[0] == parts[0]
    &&& forall|k: int| 0 < k < parts.len() ==> union_of(#[trigger] sums[k], sums[k - 1], parts[k])
}

/// `r` is the sum, in order, of the segments `parts`.
pub open spec fn sum_of<T>(r: Seq<T>, parts: Seq<Seq<T>>) -> bool {
    exists|sums: Seq<Seq<T>>| #[trigger] sums_along(sums, parts) && sums.last() == r
}

/// The `pdf_extract` segments of `ps`.
pub open spec fn extract_segments<E: ?Sized, F: ?Sized, D: ?Sized>(ps: Seq<Pipeline<E, F, D>>) -> Seq<Seq<Arc<E>>> {
    ps.map_values(|p: Pipeline<E, F, D>| p.pdf_extract.pipes())
}

/// The `text_filter` segments of `ps`.
pub open spec fn filter_segments<E: ?Sized, F: ?Sized, D: ?Sized>(ps: Seq<Pipeline<E, F, D>>) -> Seq<Seq<Arc<F>>> {
    ps.map_values(|p: Pipeline<E, F, D>| p.text_filter.pipes())
}

/// The `deserialize` segments of `ps`.
pub open spec fn deserialize_segments<E: ?Sized, F: ?Sized, D: ?Sized>(ps: Seq<Pipeline<E, F, D>>) -> Seq<Seq<Arc<D>>> {
    ps.map_values(|p: Pipeline<E, F, D>| p.deserialize.pipes())
}

/// `p` is named `n` and is the sum of the pipelines `parts`, segment by segment, in order: what
/// adding them up one after the other with `Pipeline::add` gives.
pub open spec fn sum_pipeline<E: ?Sized, F: ?Sized, D: ?Sized>(
    p: Pipeline<E, F, D>,
    n: Seq<char>,
    parts: Seq<Pipeline<E, F, D>>,
) -> bool {
    &&& p.name@ == n
    &&& sum_of(p.pdf_extract.pipes(), extract_segments(parts))
    &&& sum_of(p.text_filter.pipes(), filter_segments(parts))
    &&& sum_of(p.deserialize.pipes(), deserialize_segments(parts))
}

/// `m` merges the pipelines of `levels` by name: one pipeline per name, in increasing order of
/// name, for exactly the names some pipeline bears, each the sum of the pipelines of its name.
pub open spec fn merges<E: ?Sized, F: ?Sized, D: ?Sized>(
    m: Seq<Pipeline<E, F, D>>,
    levels: Seq<Seq<Pipeline<E, F, D>>>,
) -> bool {
    &&& strictly_sorted(names_of(m))
    &&& forall|n: Seq<char>| #[trigger] names_of(m).contains(n) <==> named_in(levels, n).len() > 0
    &&& forall|k: int| 0 <= k < m.len() ==> sum_pipeline(#[trigger] m[k], m[k].name@, named_in(levels, m[k].name@))
}

/// Whether some pipeline of some level is named `n`.
pub open spec fn some_level_names<E: ?Sized, F: ?Sized, D: ?Sized>(
    levels: Seq<Seq<Pipeline<E, F, D>>>,
    n: Seq<char>,
) -> bool {
    exists|l: int, i: int| 0 <= l < levels.len() && 0 <= i < levels[l].len() && #[trigger] levels[l][i].name@ == n
}

/// The merge of the levels `levels`: one pipeline per name that some level holds, in increasing
/// order of name, each the sum, level after level, of the pipelines of its name.
pub open spec fn is_merge<E: ?Sized, F: ?Sized, D: ?Sized>(
    m: Seq<Pipeline<E, F, D>>,
    levels: Seq<Seq<Pipeline<E, F, D>>>,
) -> bool {
    &&& merges(m, levels)
    &&& forall|n: Seq<char>| #[trigger] names_of(m).contains(n) <==> some_level_names(levels, n)
}

proof fn lemma_sum_of_one<T>(x: Seq<T>)
    ensures
        sum_of(x, seq![x]),
{
    assert(sums_along(seq![x], seq![x]));
}

proof fn lemma_sum_of_push<T>(a: Seq<T>, parts: Seq<Seq<T>>, r: Seq<T>, b: Seq<T>)
    requires
        sum_of(a, parts),
        union_of(r, a, b),
    ensures
        sum_of(r, parts.push(b)),
{
    let sums = choose|sums: Seq<Seq<T>>| #[trigger] sums_along(sums, parts) && sums.last() == a;
    let s2 = sums.push(r);
    assert forall|k: int| 0 < k < parts.push(b).len() implies union_of(#[trigger] s2[k], s2[k - 1], parts.push(b)[k]) by {
        if k < parts.len() {
            assert(s2[k] == sums[k] && s2[k - 1] == sums[k - 1] && parts.push(b)[k] == parts[k]);
        }
    }
    assert(sums_along(s2, parts.push(b)));
}

proof fn lemma_named_in_step<E: ?Sized, F: ?Sized, D: ?Sized>(
    levels: Seq<Seq<Pipeline<E, F, D>>>,
    l: int,
    i: int,
    n: Seq<char>,
)
    requires
        0 <= l < levels.len(),
        0 <= i < levels[l].len(),
    ensures
        named_in(levels.take(l).push(levels[l].take(i + 1)), n) == (if levels[l][i].name@ == n {
            named_in(levels.take(l).push(levels[l].take(i)), n).push(levels[l][i])
        } else {
            named_in(levels.take(l).push(levels[l].take(i)), n)
        }),
{
    let before = levels.take(l).push(levels[l].take(i));
    let after = levels.take(l).push(levels[l].take(i + 1));
    assert(before.drop_last() =~= levels.take(l));
    assert(after.drop_last() =~= levels.take(l));
    assert(levels[l].take(i + 1) =~= levels[l].take(i).push(levels[l][i]));
    levels[l].take(i).lemma_filter_push(levels[l][i], bears(n));
}

proof fn lemma_named_in_level_start<E: ?Sized, F: ?Sized, D: ?Sized>(
    levels: Seq<Seq<Pipeline<E, F, D>>>,
    l: int,
    n: Seq<char>,
)
    requires
        0 <= l < levels.len(),
    ensures
        named_in(levels.take(l).push(levels[l].take(0)), n) == named_in(levels.take(l), n),
{
    let start = levels.take(l).push(levels[l].take(0));
    assert(start.drop_last() =~= levels.take(l));
    Seq::<Pipeline<E, F, D>>::empty().lemma_filter_len(bears(n));
    assert(levels[l].take(0) =~= Seq::<Pipeline<E, F, D>>::empty());
    assert(named_in(start, n) =~= named_in(levels.take(l), n));
}

proof fn lemma_named_in_level_end<E: ?Sized, F: ?Sized, D: ?Sized>(
    levels: Seq<Seq<Pipeline<E, F, D>>>,
    l: int,
    n: Seq<char>,
)
    requires
        0 <= l < levels.len(),
    ensures
        named_in(levels.take(l).push(levels[l].take(levels[l].len() as int)), n) == named_in(
            levels.take(l + 1),
            n,
        ),
{
    assert(levels[l].take(levels[l].len() as int) =~= levels[l]);
    assert(levels.take(l).push(levels[l]) =~= levels.take(l + 1));
}

proof fn lemma_merges_same_named<E: ?Sized, F: ?Sized, D: ?Sized>(
    m: Seq<Pipeline<E, F, D>>,
    a: Seq<Seq<Pipeline<E, F, D>>>,
    b: Seq<Seq<Pipeline<E, F, D>>>,
)
    requires
        merges(m, a),
        forall|n: Seq<char>| #[trigger] named_in(a, n) == named_in(b, n),
    ensures
        merges(m, b),
{
    assert forall|n: Seq<char>| #[trigger] names_of(m).contains(n) <==> named_in(b, n).len() > 0 by {
        assert(named_in(a, n) == named_in(b, n));
    }
    assert forall|k: int| 0 <= k < m.len() implies sum_pipeline(#[trigger] m[k], m[k].name@, named_in(b, m[k].name@)) by {
        assert(named_in(a, m[k].name@) == named_in(b, m[k].name@));
    }
}

proof fn lemma_named_in_nonempty<E: ?Sized, F: ?Sized, D: ?Sized>(
    levels: Seq<Seq<Pipeline<E, F, D>>>,
    n: Seq<char>,
)
    ensures
        named_in(levels, n).len() > 0 <==> some_level_names(levels, n),
    decreases levels.len(),
{
    if levels.len() > 0 {
        let prev = levels.drop_last();
        let last = levels.last();
        lemma_named_in_nonempty(prev, n);
        let f = last.filter(bears(n));
        if some_level_names(levels, n) {
            let (l, i) = choose|l: int, i: int|
                0 <= l < levels.len() && 0 <= i < levels[l].len() && #[trigger] levels[l][i].name@ == n;
            if l < levels.len() - 1 {
                assert(prev[l][i] == levels[l][i]);
            } else {
                last.lemma_filter_contains(bears(n), i);
            }
        }
        if f.len() > 0 {
            last.lemma_filter_pred(bears(n), 0);
            last.lemma_filter_contains_rev(bears(n), f[0]);
            let i = choose|i: int| 0 <= i < last.len() && last[i] == f[0];
            assert(levels[levels.len() - 1][i].name@ == n);
        }
        if some_level_names(prev, n) {
            let (l, i) = choose|l: int, i: int|
                0 <= l < prev.len() && 0 <= i < prev[l].len() && #[trigger] prev[l][i].name@ == n;
            assert(levels[l][i] == prev[l][i]);
        }
    }
}

/// Where the name `name` is, or would go, among the strictly increasing names of `m`: the index
/// of the first name not before it, and whether that name is `name` itself.
fn find_name<E: ?Sized, F: ?Sized, D: ?Sized>(m: &Vec<Pipeline<E, F, D>>, name: &str) -> (r: (usize, bool))
    requires
        strictly_sorted(names_of(m@)),
    ensures
        r.0 <= m.len(),
        forall|j: int| 0 <= j < r.0 ==> text_lt(#[trigger] names_of(m@)[j], name@),
        r.1 ==> r.0 < m.len() && names_of(m@)[r.0 as int] == name@,
        !r.1 ==> r.0 == m.len() || text_lt(name@, names_of(m@)[r.0 as int]),
        r.1 <==> names_of(m@).contains(name@),
{
    let ghost names = names_of(m@);
    let mut i: usize = 0;
    while i < m.len() && text_less(m[i].name.as_str(), name)
        invariant
            i <= m.len(),
            names == names_of(m@),
            forall|j: int| 0 <= j < i ==> text_lt(#[trigger] names[j], name@),
        decreases m.len() - i,
    {
        i = i + 1;
    }
    let found = i < m.len() && str_eq(m[i].name.as_str(), name);
    proof {
        lemma_text_lt_irreflexive(name@);
        if !found && i < m.len() {
            lemma_text_lt_total(names[i as int], name@);
        }
        if found {
            assert(names[i as int] == name@);
        } else {
            assert forall|j: int| 0 <= j < names.len() implies names[j] != name@ by {
                if j > i {
                    lemma_text_lt_transitive(name@, names[i as int], names[j]);
                }
            }
        }
    }
    (i, found)
}

/// Merges the pipelines of the levels, in level order: pipelines of the same name are summed
/// with `Pipeline::add`, the earlier level's on the left; a name found in one level only keeps
/// its pipeline as it is. The result holds one pipeline per name, in increasing order of name.
pub fn merge_levels<E: ?Sized, F: ?Sized, D: ?Sized>(levels: &Vec<Vec<Pipeline<E, F, D>>>) -> (r: Vec<Pipeline<E, F, D>>)
    ensures
        is_merge(r@, level_seqs(levels@)),
{
    let ghost lv = level_seqs(levels@);
    let mut result: Vec<Pipeline<E, F, D>> = Vec::new();
    proof {
        assert forall|n: Seq<char>| #[trigger] names_of(result@).contains(n) <==> named_in(lv.take(0), n).len() > 0 by {
            assert(lv.take(0).len() == 0);
        }
    }
    let mut l: usize = 0;
    while l < levels.len()
        invariant
            l <= levels.len(),
            lv == level_seqs(levels@),
            merges(result@, lv.take(l as int)),
        decreases levels.len() - l,
    {
        let level = &levels[l];
        assert(lv[l as int] == level@);
        proof {
            assert forall|n: Seq<char>| #[trigger] named_in(lv.take(l as int), n) == named_in(
                lv.take(l as int).push(lv[l as int].take(0)),
                n,
            ) by {
                lemma_named_in_level_start(lv, l as int, n);
            }
            lemma_merges_same_named(result@, lv.take(l as int), lv.take(l as int).push(lv[l as int].take(0)));
        }
        let mut i: usize = 0;
        while i < level.len()
            invariant
                l < levels.len(),
                i <= level.len(),
                lv == level_seqs(levels@),
                level@ == lv[l as int],
                merges(result@, lv.take(l as int).push(lv[l as int].take(i as int))),
            decreases level.len() - i,
        {
            let ghost before = result@;
            let ghost done = lv.take(l as int).push(lv[l as int].take(i as int));
            let ghost after = lv.take(l as int).push(lv[l as int].take(i + 1));
            let q = &level[i];
            let ghost n = q.name@;
            proof {
                assert(lv[l as int][i as int] == *q);
                assert forall|m: Seq<char>| #[trigger] named_in(after, m) == (if n == m {
                    named_in(done, m).push(*q)
                } else {
                    named_in(done, m)
                }) by {
                    lemma_named_in_step(lv, l as int, i as int, m);
                }
            }
            let (k, found) = find_name(&result, q.name.as_str());
            let copy = q.duplicate();
            if found {
                let existing = result.remove(k);
                assert(existing == before[k as int]);
                let summed = existing.add(copy);
                result.insert(k, summed);
                proof {
                    assert(result@ =~= before.update(k as int, summed));
                    assert(names_of(result@) =~= names_of(before));
                    let parts = named_in(done, n);
                    assert(extract_segments(parts.push(*q)) =~= extract_segments(parts).push(q.pdf_extract.pipes()));
                    assert(filter_segments(parts.push(*q)) =~= filter_segments(parts).push(q.text_filter.pipes()));
                    assert(deserialize_segments(parts.push(*q)) =~= deserialize_segments(parts).push(q.deserialize.pipes()));
                    lemma_sum_of_push(existing.pdf_extract.pipes(), extract_segments(parts), summed.pdf_extract.pipes(), q.pdf_extract.pipes());
                    lemma_sum_of_push(existing.text_filter.pipes(), filter_segments(parts), summed.text_filter.pipes(), q.text_filter.pipes());
                    lemma_sum_of_push(existing.deserialize.pipes(), deserialize_segments(parts), summed.deserialize.pipes(), q.deserialize.pipes());
                    assert forall|j: int| 0 <= j < result@.len() implies sum_pipeline(#[trigger] result@[j], result@[j].name@, named_in(after, result@[j].name@)) by {
                        if j != k {
                            assert(names_of(before)[j] != names_of(before)[k as int]) by {
                                if j < k {
                                    lemma_text_lt_irreflexive(names_of(before)[j]);
                                } else {
                                    lemma_text_lt_irreflexive(names_of(before)[k as int]);
                                }
                            }
                            assert(result@[j] == before[j]);
                        }
                    }
                    assert forall|m: Seq<char>| #[trigger] names_of(result@).contains(m) <==> named_in(after, m).len() > 0 by {
                        assert(names_of(before).contains(m) <==> named_in(done, m).len() > 0);
                    }
                }
            } else {
                result.insert(k, copy);
                proof {
                    assert(result@ =~= before.insert(k as int, copy));
                    let nb = names_of(before);
                    let na = names_of(result@);
                    assert(na =~= nb.insert(k as int, n));
                    assert(named_in(done, n).len() == 0);
                    assert(named_in(after, n) =~= seq![*q]);
                    assert(extract_segments(seq![*q]) =~= seq![q.pdf_extract.pipes()]);
                    assert(filter_segments(seq![*q]) =~= seq![q.text_filter.pipes()]);
                    assert(deserialize_segments(seq![*q]) =~= seq![q.deserialize.pipes()]);
                    lemma_sum_of_one(q.pdf_extract.pipes());
                    lemma_sum_of_one(q.text_filter.pipes());
                    lemma_sum_of_one(q.deserialize.pipes());
                    assert forall|a: int, b: int| 0 <= a < b < na.len() implies text_lt(#[trigger] na[a], #[trigger] na[b]) by {
                        if a < k && b < k {
                            assert(na[a] == nb[a] && na[b] == nb[b]);
                        } else if a < k && b == k {
                            assert(na[a] == nb[a]);
                        } else if a < k {
                            assert(na[a] == nb[a] && na[b] == nb[b - 1]);
                            assert(text_lt(nb[a], n));
                            if b - 1 > k {
                                lemma_text_lt_transitive(n, nb[k as int], nb[b - 1]);
                            }
                            lemma_text_lt_transitive(nb[a], n, nb[b - 1]);
                        } else if a == k {
                            assert(na[b] == nb[b - 1]);
                            if b - 1 > k {
                                lemma_text_lt_transitive(n, nb[k as int], nb[b - 1]);
                            }
                        } else {
                            assert(na[a] == nb[a - 1] && na[b] == nb[b - 1]);
                        }
                    }
                    assert forall|j: int| 0 <= j < result@.len() implies sum_pipeline(#[trigger] result@[j], result@[j].name@, named_in(after, result@[j].name@)) by {
                        if j < k {
                            assert(result@[j] == before[j]);
                            assert(nb[j] != n) by { lemma_text_lt_irreflexive(n); }
                        } else if j > k {
                            assert(result@[j] == before[j - 1]);
                            assert(nb[j - 1] != n) by {
                                lemma_text_lt_irreflexive(n);
                                if j - 1 > k {
                                    lemma_text_lt_transitive(n, nb[k as int], nb[j - 1]);
                                }
                            }
                        }
                    }
                    assert forall|m: Seq<char>| #[trigger] na.contains(m) <==> named_in(after, m).len() > 0 by {
                        assert(nb.contains(m) <==> named_in(done, m).len() > 0);
                        if m != n {
                            if na.contains(m) {
                                let j = choose|j: int| 0 <= j < na.len() && na[j] == m;
                                if j < k {
                                    assert(nb[j] == m);
                                } else {
                                    assert(j != k);
                                    assert(nb[j - 1] == m);
                                }
                            }
                            if nb.contains(m) {
                                let j = choose|j: int| 0 <= j < nb.len() && nb[j] == m;
                                if j < k {
                                    assert(na[j] == m);
                                } else {
                                    assert(na[j + 1] == m);
                                }
                            }
                        } else {
                            assert(na[k as int] == n);
                        }
                    }
                }
            }
            i = i + 1;
        }
        proof {
            assert forall|n: Seq<char>| #[trigger] named_in(lv.take(l as int).push(lv[l as int].take(level.len() as int)), n) == named_in(
                lv.take(l + 1),
                n,
            ) by {
                lemma_named_in_level_end(lv, l as int, n);
            }
            lemma_merges_same_named(result@, lv.take(l as int).push(lv[l as int].take(level.len() as int)), lv.take(l + 1));
        }
        l = l + 1;
    }
    proof {
        assert(lv.take(levels.len() as int) =~= lv);
        assert forall|n: Seq<char>| #[trigger] names_of(result@).contains(n) <==> some_level_names(lv, n) by {
            lemma_named_in_nonempty(lv, n);
        }
    }
    result
}

/// Adding up `parts` gives a complete pipeline: for each of the three segments, some part has a
/// pipe in it.
pub open spec fn adds_up_complete<E: ?Sized, F: ?Sized, D: ?Sized>(parts: Seq<Pipeline<E, F, D>>) -> bool {
    &&& exists|j: int| 0 <= j < parts.len() && (#[trigger] parts[j]).pdf_extract.pipes().len() > 0
    &&& exists|j: int| 0 <= j < parts.len() && (#[trigger] parts[j]).text_filter.pipes().len() > 0
    &&& exists|j: int| 0 <= j < parts.len() && (#[trigger] parts[j]).deserialize.pipes().len() > 0
}

proof fn lemma_sums_nonempty<T>(sums: Seq<Seq<T>>, parts: Seq<Seq<T>>, k: int)
    requires
        sums_along(sums, parts),
        0 <= k < parts.len(),
    ensures
        sums[k].len() > 0 <==> exists|j: int| 0 <= j <= k && (#[trigger] parts[j]).len() > 0,
    decreases k,
{
    if k > 0 {
        lemma_sums_nonempty(sums, parts, k - 1);
        assert(union_of(sums[k], sums[k - 1], parts[k]));
        if parts[k].len() > 0 {
            assert(sums[k].contains(parts[k][0]));
        }
        if sums[k].len() > 0 && sums[k - 1].len() == 0 {
            assert(parts[k].contains(sums[k][0]));
        }
        if exists|j: int| 0 <= j <= k - 1 && (#[trigger] parts[j]).len() > 0 {
            assert(sums[k - 1].len() > 0);
        }
    }
}

proof fn lemma_sum_nonempty<T>(r: Seq<T>, parts: Seq<Seq<T>>)
    requires
        sum_of(r, parts),
    ensures
        r.len() > 0 <==> exists|j: int| 0 <= j < parts.len() && (#[trigger] parts[j]).len() > 0,
{
    let sums = choose|sums: Seq<Seq<T>>| #[trigger] sums_along(sums, parts) && sums.last() == r;
    lemma_sums_nonempty(sums, parts, parts.len() - 1);
}

proof fn lemma_complete_sum<E: ?Sized, F: ?Sized, D: ?Sized>(
    p: Pipeline<E, F, D>,
    n: Seq<char>,
    parts: Seq<Pipeline<E, F, D>>,
)
    requires
        sum_pipeline(p, n, parts),
    ensures
        complete(p) <==> adds_up_complete(parts),
{
    lemma_sum_nonempty(p.pdf_extract.pipes(), extract_segments(parts));
    lemma_sum_nonempty(p.text_filter.pipes(), filter_segments(parts));
    lemma_sum_nonempty(p.deserialize.pipes(), deserialize_segments(parts));
    if exists|j: int| 0 <= j < parts.len() && (#[trigger] parts[j]).pdf_extract.pipes().len() > 0 {
        let j = choose|j: int| 0 <= j < parts.len() && (#[trigger] parts[j]).pdf_extract.pipes().len() > 0;
        assert(extract_segments(parts)[j].len() > 0);
    }
    if exists|j: int| 0 <= j < parts.len() && (#[trigger] parts[j]).text_filter.pipes().len() > 0 {
        let j = choose|j: int| 0 <= j < parts.len() && (#[trigger] parts[j]).text_filter.pipes().len() > 0;
        assert(filter_segments(parts)[j].len() > 0);
    }
    if exists|j: int| 0 <= j < parts.len() && (#[trigger] parts[j]).deserialize.pipes().len() > 0 {
        let j = choose|j: int| 0 <= j < parts.len() && (#[trigger] parts[j]).deserialize.pipes().len() > 0;
        assert(deserialize_segments(parts)[j].len() > 0);
    }
    if exists|j: int| 0 <= j < extract_segments(parts).len() && (#[trigger] extract_segments(parts)[j]).len() > 0 {
        let j = choose|j: int| 0 <= j < extract_segments(parts).len() && (#[trigger] extract_segments(parts)[j]).len() > 0;
        assert(parts[j].pdf_extract.pipes().len() > 0);
    }
    if exists|j: int| 0 <= j < filter_segments(parts).len() && (#[trigger] filter_segments(parts)[j]).len() > 0 {
        let j = choose|j: int| 0 <= j < filter_segments(parts).len() && (#[trigger] filter_segments(parts)[j]).len() > 0;
        assert(parts[j].text_filter.pipes().len() > 0);
    }
    if exists|j: int| 0 <= j < deserialize_segments(parts).len() && (#[trigger] deserialize_segments(parts)[j]).len() > 0 {
        let j = choose|j: int| 0 <= j < deserialize_segments(parts).len() && (#[trigger] deserialize_segments(parts)[j]).len() > 0;
        assert(parts[j].deserialize.pipes().len() > 0);
    }
}

/// Every pipeline of a format, with the levels already merged: the levels' pipelines summed by
/// name as [`merge_levels`] sums them, then, unless `allow_partial`, checked complete as
/// [`check_pipelines_complete`] checks them.
///
/// Success is owed exactly when `allow_partial` or, for every name some level holds, each of the
/// three segments has a pipe in some pipeline of that name.
pub fn load_pipelines_from<E: ?Sized, F: ?Sized, D: ?Sized>(
    levels: &Vec<Vec<Pipeline<E, F, D>>>,
    allow_partial: bool,
) -> (r: Result<Vec<Pipeline<E, F, D>>, LoadError>)
    ensures
        r is Ok <==> allow_partial || forall|n: Seq<char>|
            some_level_names(level_seqs(levels@), n) ==> #[trigger] adds_up_complete(
                named_in(level_seqs(levels@), n),
            ),
        r matches Ok(m) ==> is_merge(m@, level_seqs(levels@)),
        r matches Err(e) ==> exists|m: Seq<Pipeline<E, F, D>>|
            #[trigger] is_merge(m, level_seqs(levels@)) && exists|i: int|
                first_incomplete_among(m, m.len() as int, i) && e@ == (
                LoadErrorView::IncompletePipeline {
                    pipeline: m[i].name@,
                    missing: missing_text(m[i]),
                }),
{
    let merged = merge_levels(levels);
    let ghost lv = level_seqs(levels@);
    let ghost m = merged@;
    proof {
        let all_complete = forall|i: int| 0 <= i < m.len() ==> complete(#[trigger] m[i]);
        let sums_complete = forall|n: Seq<char>| some_level_names(lv, n) ==> #[trigger] adds_up_complete(named_in(lv, n));
        if all_complete {
            assert forall|n: Seq<char>| some_level_names(lv, n) implies #[trigger] adds_up_complete(named_in(lv, n)) by {
                assert(names_of(m).contains(n));
                let k = choose|k: int| 0 <= k < names_of(m).len() && names_of(m)[k] == n;
                assert(m[k].name@ == n);
                lemma_complete_sum(m[k], n, named_in(lv, n));
            }
        }
        if sums_complete {
            assert forall|i: int| 0 <= i < m.len() implies complete(#[trigger] m[i]) by {
                let n = m[i].name@;
                assert(names_of(m)[i] == n);
                assert(names_of(m).contains(n));
                assert(some_level_names(lv, n));
                lemma_complete_sum(m[i], n, named_in(lv, n));
            }
        }
    }
    match check_pipelines_complete(&merged, allow_partial) {
        Ok(()) => Ok(merged),
        Err(e) => Err(e),
    }
}

} // verus!
