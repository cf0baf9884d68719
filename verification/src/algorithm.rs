//! The decisions of a format's extraction algorithm: whether its configuration is consistent,
//! how the contributions of the classification pipelines become one class per page, how the
//! pages of a step group by class, and how results accumulate per page and per document.
//!
//! Classification happens per document, the schedule works on the union of every document's
//! pages, and when a page class appears in two steps the same page is processed twice: its
//! results accumulate rather than the later step overwriting the earlier one.

use vstd::prelude::*;

use crate::pipeline::PipelineName;
use crate::schedule::{class_names, named, PageClass, Schedule, ScheduleError, ScheduleErrorView, ScheduledPage};
use crate::text::{
    insert_text, insert_texts, lists, str_eq, strictly_sorted, string_of, text_difference, texts_of,
};

verus! {

/// Why an algorithm cannot be built or run, as plain values.
pub enum AlgorithmErrorView {
    Schedule(ScheduleErrorView),
    UnknownPageClassifyPipelines { unknown: Seq<Seq<char>> },
    ScheduleMappingMismatch { difference: Seq<Seq<char>> },
    PipelineNamesMismatch { unmapped: Seq<Seq<char>>, unused: Seq<Seq<char>> },
    ClassificationCountMismatch { document: Seq<char>, pages: nat, classifications: nat },
    NotAPageClassification { document: Seq<char>, page: u32, found: Seq<char> },
    UnmappedPageClass { class: Seq<char> },
}

/// Why an algorithm cannot be built or run.
#[derive(Debug)]
pub enum AlgorithmError {
    Schedule(ScheduleError),
    UnknownPageClassifyPipelines { unknown: Vec<PipelineName> },
    ScheduleMappingMismatch { difference: Vec<PageClass> },
    PipelineNamesMismatch { unmapped: Vec<PipelineName>, unused: Vec<PipelineName> },
    ClassificationCountMismatch { document: String, pages: usize, classifications: usize },
    NotAPageClassification { document: String, page: u32, found: String },
    UnmappedPageClass { class: PageClass },
}

/// The names of a sequence of pipeline names.
pub open spec fn pipeline_names(v: Seq<PipelineName>) -> Seq<Seq<char>> {
    v.map_values(|n: PipelineName| n@)
}

impl View for AlgorithmError {
    type V = AlgorithmErrorView;

    open spec fn view(&self) -> AlgorithmErrorView {
        match self {
            AlgorithmError::Schedule(e) => AlgorithmErrorView::Schedule(e@),
            AlgorithmError::UnknownPageClassifyPipelines { unknown } =>
                AlgorithmErrorView::UnknownPageClassifyPipelines {
                unknown: pipeline_names(unknown@),
            },
            AlgorithmError::ScheduleMappingMismatch { difference } =>
                AlgorithmErrorView::ScheduleMappingMismatch { difference: class_names(difference@) },
            AlgorithmError::PipelineNamesMismatch { unmapped, unused } =>
                AlgorithmErrorView::PipelineNamesMismatch {
                unmapped: pipeline_names(unmapped@),
                unused: pipeline_names(unused@),
            },
            AlgorithmError::ClassificationCountMismatch { document, pages, classifications } =>
                AlgorithmErrorView::ClassificationCountMismatch {
                document: document@,
                pages: *pages as nat,
                classifications: *classifications as nat,
            },
            AlgorithmError::NotAPageClassification { document, page, found } =>
                AlgorithmErrorView::NotAPageClassification {
                document: document@,
                page: *page,
                found: found@,
            },
            AlgorithmError::UnmappedPageClass { class } => AlgorithmErrorView::UnmappedPageClass {
                class: class@,
            },
        }
    }
}

/// The class names and pipeline names of a page-class-to-pipelines mapping.
pub open spec fn mapping_view(m: Seq<(PageClass, Vec<PipelineName>)>) -> Seq<(Seq<char>, Seq<Seq<char>>)> {
    m.map_values(|e: (PageClass, Vec<PipelineName>)| (e.0@, pipeline_names(e.1@)))
}

/// Whether some page class of the mapping is `class`.
pub open spec fn mapped(mapping: Seq<(Seq<char>, Seq<Seq<char>>)>, class: Seq<char>) -> bool {
    exists|i: int| 0 <= i < mapping.len() && #[trigger] mapping[i].0 == class
}

/// Whether some page class of the mapping uses the pipeline `name`.
pub open spec fn mapped_to(mapping: Seq<(Seq<char>, Seq<Seq<char>>)>, name: Seq<char>) -> bool {
    exists|i: int| 0 <= i < mapping.len() && #[trigger] mapping[i].1.contains(name)
}

/// What building an algorithm checks, in order: every classification pipeline has an
/// implementation; the page classes of the schedule and of the mapping coincide exactly; the
/// pipelines used (to classify or in the mapping) are exactly those implemented.
pub open spec fn configuration_checked(
    known: Seq<Seq<char>>,
    classify: Seq<Seq<char>>,
    schedule: Seq<Seq<Seq<char>>>,
    mapping: Seq<(Seq<char>, Seq<Seq<char>>)>,
    r: Result<(), AlgorithmErrorView>,
) -> bool {
    let classify_known = forall|x: Seq<char>| classify.contains(x) ==> known.contains(x);
    let classes_agree = forall|x: Seq<char>| named(schedule, x) == mapped(mapping, x);
    let names_agree = forall|x: Seq<char>|
        (classify.contains(x) || mapped_to(mapping, x)) == known.contains(x);
    match r {
        Ok(_) => classify_known && classes_agree && names_agree,
        Err(AlgorithmErrorView::UnknownPageClassifyPipelines { unknown }) => {
            &&& unknown.len() > 0
            &&& lists(unknown, |x: Seq<char>| classify.contains(x) && !known.contains(x))
        },
        Err(AlgorithmErrorView::ScheduleMappingMismatch { difference }) => {
            &&& classify_known
            &&& difference.len() > 0
            &&& lists(difference, |x: Seq<char>| named(schedule, x) != mapped(mapping, x))
        },
        Err(AlgorithmErrorView::PipelineNamesMismatch { unmapped, unused }) => {
            &&& classify_known
            &&& classes_agree
            &&& unmapped.len() > 0 || unused.len() > 0
            &&& lists(
                unmapped,
                |x: Seq<char>| (classify.contains(x) || mapped_to(mapping, x)) && !known.contains(x),
            )
            &&& lists(
                unused,
                |x: Seq<char>| known.contains(x) && !(classify.contains(x) || mapped_to(mapping, x)),
            )
        },
        _ => false,
    }
}

fn names_of(v: &Vec<PipelineName>) -> (r: Vec<String>)
    ensures
        texts_of(r@) == pipeline_names(v@),
{
    let mut out: Vec<String> = Vec::new();
    let mut i: usize = 0;
    while i < v.len()
        invariant
            i <= v.len(),
            texts_of(out@) == pipeline_names(v@).take(i as int),
        decreases v.len() - i,
    {
        let ghost before = texts_of(out@);
        let item = v[i].to_string();
        assert(item@ == pipeline_names(v@)[i as int]);
        out.push(item);
        assert(texts_of(out@) =~= before.push(item@));
        assert(pipeline_names(v@).take(i + 1) =~= pipeline_names(v@).take(i as int).push(
            pipeline_names(v@)[i as int],
        ));
        i = i + 1;
    }
    assert(pipeline_names(v@).take(v.len() as int) =~= pipeline_names(v@));
    out
}

fn as_pipeline_names(v: &Vec<String>) -> (r: Vec<PipelineName>)
    ensures
        pipeline_names(r@) == texts_of(v@),
{
    let mut out: Vec<PipelineName> = Vec::new();
    let mut i: usize = 0;
    while i < v.len()
        invariant
            i <= v.len(),
            pipeline_names(out@) == texts_of(v@).take(i as int),
        decreases v.len() - i,
    {
        let ghost before = pipeline_names(out@);
        let item = PipelineName::new(v[i].as_str());
        assert(item@ == texts_of(v@)[i as int]);
        out.push(item);
        assert(pipeline_names(out@) =~= before.push(item@));
        assert(texts_of(v@).take(i + 1) =~= texts_of(v@).take(i as int).push(texts_of(v@)[i as int]));
        i = i + 1;
    }
    assert(texts_of(v@).take(v.len() as int) =~= texts_of(v@));
    out
}

fn as_page_classes(v: &Vec<String>) -> (r: Vec<PageClass>)
    ensures
        class_names(r@) == texts_of(v@),
{
    let mut out: Vec<PageClass> = Vec::new();
    let mut i: usize = 0;
    while i < v.len()
        invariant
            i <= v.len(),
            class_names(out@) == texts_of(v@).take(i as int),
        decreases v.len() - i,
    {
        let ghost before = class_names(out@);
        let item = PageClass::new(v[i].as_str());
        assert(item@ == texts_of(v@)[i as int]);
        out.push(item);
        assert(class_names(out@) =~= before.push(item@));
        assert(texts_of(v@).take(i + 1) =~= texts_of(v@).take(i as int).push(texts_of(v@)[i as int]));
        i = i + 1;
    }
    assert(texts_of(v@).take(v.len() as int) =~= texts_of(v@));
    out
}

/// The texts of `items`, once each, in increasing order.
fn listing(items: &Vec<String>) -> (r: Vec<String>)
    ensures
        strictly_sorted(texts_of(r@)),
        forall|x: Seq<char>| #[trigger] texts_of(r@).contains(x) <==> texts_of(items@).contains(x),
{
    let mut out: Vec<String> = Vec::new();
    assert(texts_of(out@) =~= Seq::<Seq<char>>::empty());
    insert_texts(&mut out, items);
    out
}

/// Checks that a format's configuration is consistent before its algorithm is built: `known` are
/// the implemented pipelines, `classify` those that classify pages, `mapping` the pipelines of
/// each page class.
pub fn check_configuration(
    known: &Vec<PipelineName>,
    classify: &Vec<PipelineName>,
    schedule: &Schedule,
    mapping: &Vec<(PageClass, Vec<PipelineName>)>,
) -> (r: Result<(), AlgorithmError>)
    ensures
        configuration_checked(
            pipeline_names(known@),
            pipeline_names(classify@),
            schedule@,
            mapping_view(mapping@),
            match r {
                Ok(_) => Ok(()),
                Err(e) => Err(e@),
            },
        ),
{
    let ghost kv = pipeline_names(known@);
    let ghost cv = pipeline_names(classify@);
    let ghost mv = mapping_view(mapping@);
    let known_names = listing(&names_of(known));
    let classify_names = listing(&names_of(classify));
    let unknown = text_difference(&classify_names, &known_names);
    if unknown.len() > 0 {
        assert(texts_of(unknown@).contains(texts_of(unknown@)[0]));
        return Err(AlgorithmError::UnknownPageClassifyPipelines { unknown: as_pipeline_names(&unknown) });
    }
    assert forall|x: Seq<char>| cv.contains(x) implies kv.contains(x) by {
        assert(texts_of(classify_names@).contains(x));
        if !texts_of(known_names@).contains(x) {
            assert(texts_of(unknown@).contains(x));
        }
    }
    let scheduled_classes = schedule.page_classes();
    let mut scheduled: Vec<String> = Vec::new();
    let mut i: usize = 0;
    while i < scheduled_classes.len()
        invariant
            i <= scheduled_classes.len(),
            texts_of(scheduled@) == class_names(scheduled_classes@).take(i as int),
        decreases scheduled_classes.len() - i,
    {
        let ghost before = texts_of(scheduled@);
        let item = scheduled_classes[i].to_string();
        assert(item@ == class_names(scheduled_classes@)[i as int]);
        scheduled.push(item);
        assert(texts_of(scheduled@) =~= before.push(item@));
        assert(class_names(scheduled_classes@).take(i + 1) =~= class_names(scheduled_classes@).take(
            i as int,
        ).push(class_names(scheduled_classes@)[i as int]));
        i = i + 1;
    }
    assert(class_names(scheduled_classes@).take(scheduled_classes.len() as int) =~= class_names(
        scheduled_classes@,
    ));
    let mut mapped_classes: Vec<String> = Vec::new();
    let mut used = classify_names;
    let mut j: usize = 0;
    assert(texts_of(mapped_classes@) =~= Seq::<Seq<char>>::empty());
    while j < mapping.len()
        invariant
            j <= mapping.len(),
            mv == mapping_view(mapping@),
            strictly_sorted(texts_of(mapped_classes@)),
            strictly_sorted(texts_of(used@)),
            forall|x: Seq<char>|
                #[trigger] texts_of(mapped_classes@).contains(x) <==> mapped(mv.take(j as int), x),
            forall|x: Seq<char>|
                #[trigger] texts_of(used@).contains(x) <==> (cv.contains(x) || mapped_to(
                    mv.take(j as int),
                    x,
                )),
        decreases mapping.len() - j,
    {
        let ghost t0 = mv.take(j as int);
        let ghost t1 = mv.take(j + 1);
        assert(t1 =~= t0.push(mv[j as int]));
        assert(mv[j as int] == (mapping@[j as int].0@, pipeline_names(mapping@[j as int].1@)));
        insert_text(&mut mapped_classes, mapping[j].0.as_str());
        let names = names_of(&mapping[j].1);
        insert_texts(&mut used, &names);
        assert forall|x: Seq<char>| #[trigger] texts_of(mapped_classes@).contains(x) <==> mapped(t1, x) by {
            if mapped(t1, x) {
                let k = choose|k: int| 0 <= k < t1.len() && #[trigger] t1[k].0 == x;
                if k < j {
                    assert(t0[k].0 == x);
                }
            }
            if mapped(t0, x) {
                let k = choose|k: int| 0 <= k < t0.len() && #[trigger] t0[k].0 == x;
                assert(t1[k].0 == x);
            }
            if x == mv[j as int].0 {
                assert(t1[j as int].0 == x);
            }
        }
        assert forall|x: Seq<char>| #[trigger] texts_of(used@).contains(x) <==> (cv.contains(x)
            || mapped_to(t1, x)) by {
            if mapped_to(t1, x) {
                let k = choose|k: int| 0 <= k < t1.len() && #[trigger] t1[k].1.contains(x);
                if k < j {
                    assert(t0[k].1.contains(x));
                }
            }
            if mapped_to(t0, x) {
                let k = choose|k: int| 0 <= k < t0.len() && #[trigger] t0[k].1.contains(x);
                assert(t1[k].1.contains(x));
            }
            if mv[j as int].1.contains(x) {
                assert(t1[j as int].1.contains(x));
            }
        }
        j = j + 1;
    }
    assert(mv.take(mapping.len() as int) =~= mv);
    let only_scheduled = text_difference(&scheduled, &mapped_classes);
    let only_mapped = text_difference(&mapped_classes, &scheduled);
    if only_scheduled.len() > 0 || only_mapped.len() > 0 {
        let mut difference = listing(&only_scheduled);
        insert_texts(&mut difference, &only_mapped);
        proof {
            if only_scheduled.len() > 0 {
                assert(texts_of(only_scheduled@).contains(texts_of(only_scheduled@)[0]));
                assert(texts_of(difference@).contains(texts_of(only_scheduled@)[0]));
            } else {
                assert(texts_of(only_mapped@).contains(texts_of(only_mapped@)[0]));
                assert(texts_of(difference@).contains(texts_of(only_mapped@)[0]));
            }
        }
        return Err(AlgorithmError::ScheduleMappingMismatch { difference: as_page_classes(&difference) });
    }
    assert forall|x: Seq<char>| named(schedule@, x) == mapped(mv, x) by {
        if named(schedule@, x) && !mapped(mv, x) {
            assert(texts_of(only_scheduled@).contains(x));
        }
        if !named(schedule@, x) && mapped(mv, x) {
            assert(texts_of(only_mapped@).contains(x));
        }
    }
    let unmapped = text_difference(&used, &known_names);
    let unused = text_difference(&known_names, &used);
    if unmapped.len() > 0 || unused.len() > 0 {
        return Err(
            AlgorithmError::PipelineNamesMismatch {
                unmapped: as_pipeline_names(&unmapped),
                unused: as_pipeline_names(&unused),
            },
        );
    }
    assert forall|x: Seq<char>| (cv.contains(x) || mapped_to(mv, x)) == kv.contains(x) by {
        if (cv.contains(x) || mapped_to(mv, x)) && !kv.contains(x) {
            assert(texts_of(unmapped@).contains(x));
        }
        if !(cv.contains(x) || mapped_to(mv, x)) && kv.contains(x) {
            assert(texts_of(unused@).contains(x));
        }
    }
    Ok(())
}

/// One result of a classification pipeline, as far as classification reads it: a page class
/// (or none), or anything else, with its debug rendering for the error that names it.
#[derive(Debug)]
pub enum Contribution {
    PageClass(Option<PageClass>),
    Other(String),
}

/// What the classification pipelines made of one page: they failed on it, or they produced
/// contributions.
#[derive(Debug)]
pub enum PageContributions {
    Failed,
    Produced(Vec<Contribution>),
}

/// A class as plain values.
pub open spec fn class_view(c: Option<PageClass>) -> Option<Seq<char>> {
    match c {
        Some(p) => Some(p@),
        None => None,
    }
}

/// The classes of a sequence of optional classes.
pub open spec fn classes_view(v: Seq<Option<PageClass>>) -> Seq<Option<Seq<char>>> {
    v.map_values(|c: Option<PageClass>| class_view(c))
}

/// The contributions of a page, as classes until the first one that is not a class.
pub open spec fn contribution_classes(c: Seq<Contribution>) -> Seq<Option<Seq<char>>>
    decreases c.len(),
{
    if c.len() == 0 {
        Seq::empty()
    } else {
        match c[0] {
            Contribution::PageClass(p) => seq![class_view(p)] + contribution_classes(c.drop_first()),
            Contribution::Other(_) => Seq::empty(),
        }
    }
}

/// The first contribution that is not a page class, if any.
pub open spec fn first_other(c: Seq<Contribution>) -> Option<Seq<char>>
    decreases c.len(),
{
    if c.len() == 0 {
        None
    } else {
        match c[0] {
            Contribution::PageClass(_) => first_other(c.drop_first()),
            Contribution::Other(found) => Some(found@),
        }
    }
}

/// Adds what the classification pipelines made of page `page` of `document` to the raw
/// classification: no class for a page they failed on (it will enter no step), its classes
/// otherwise, and an error at the first contribution that is not a page class.
pub fn take_page_contributions(
    raw: &mut Vec<Option<PageClass>>,
    document: &str,
    page: u32,
    contributions: PageContributions,
) -> (r: Result<(), AlgorithmError>)
    ensures
        match contributions {
            PageContributions::Failed => r is Ok && classes_view(final(raw)@) == classes_view(
                old(raw)@,
            ).push(None),
            PageContributions::Produced(c) => match first_other(c@) {
                None => r is Ok && classes_view(final(raw)@) == classes_view(old(raw)@)
                    + contribution_classes(c@),
                Some(found) => r matches Err(e) && e@ == (AlgorithmErrorView::NotAPageClassification {
                    document: document@,
                    page,
                    found,
                }),
            },
        },
{
    match contributions {
        PageContributions::Failed => {
            let ghost before = classes_view(raw@);
            raw.push(None);
            assert(classes_view(raw@) =~= before.push(None));
            Ok(())
        },
        PageContributions::Produced(list) => {
            let ghost all = list@;
            let ghost start = classes_view(raw@);
            let total = list.len();
            let mut rest = list;
            let mut taken: usize = 0;
            assert(all.skip(0) =~= all);
            assert(contribution_classes(all).take(0) =~= Seq::<Option<Seq<char>>>::empty());
            assert(classes_view(raw@) =~= start + contribution_classes(all).take(0));
            while rest.len() > 0
                invariant
                    taken + rest@.len() == all.len(),
                    all.len() == total,
                    contributions is Produced,
                    contributions->Produced_0@ == all,
                    rest@ == all.skip(taken as int),
                    classes_view(raw@) == start + contribution_classes(all).take(taken as int),
                    contribution_classes(all).len() >= taken,
                    first_other(all) == first_other(all.skip(taken as int)),
                    contribution_classes(all) == contribution_classes(all).take(taken as int)
                        + contribution_classes(all.skip(taken as int)),
                decreases rest.len(),
            {
                let ghost tail = all.skip(taken as int);
                let item = rest.remove(0);
                assert(item == tail[0]);
                assert(tail.drop_first() =~= all.skip(taken + 1));
                assert(rest@ =~= all.skip(taken + 1));
                match item {
                    Contribution::PageClass(c) => {
                        let ghost before = classes_view(raw@);
                        let ghost cv = class_view(c);
                        raw.push(c);
                        assert(contribution_classes(tail) =~= seq![cv] + contribution_classes(
                            all.skip(taken + 1),
                        ));
                        assert(contribution_classes(all).take(taken + 1) =~= contribution_classes(
                            all,
                        ).take(taken as int).push(cv));
                        assert(classes_view(raw@) =~= before.push(cv));
                        assert(contribution_classes(all) =~= contribution_classes(all).take(
                            taken + 1,
                        ) + contribution_classes(all.skip(taken + 1)));
                    },
                    Contribution::Other(found) => {
                        assert(first_other(tail) == Some(found@));
                        return Err(
                            AlgorithmError::NotAPageClassification {
                                document: string_of(document),
                                page,
                                found,
                            },
                        );
                    },
                }
                taken = taken + 1;
            }
            assert(all.skip(taken as int) =~= Seq::<Contribution>::empty());
            assert(contribution_classes(all).take(taken as int) =~= contribution_classes(all));
            Ok(())
        },
    }
}

/// Checks that the finalized classification of `document` has one class per page.
pub fn check_classification_count(
    document: &str,
    pages: usize,
    classified: Vec<Option<PageClass>>,
) -> (r: Result<Vec<Option<PageClass>>, AlgorithmError>)
    ensures
        classified@.len() == pages ==> r == Ok::<Vec<Option<PageClass>>, AlgorithmError>(classified),
        classified@.len() != pages ==> (r matches Err(e) && e@ == (
        AlgorithmErrorView::ClassificationCountMismatch {
            document: document@,
            pages: pages as nat,
            classifications: classified@.len(),
        })),
{
    if classified.len() != pages {
        return Err(
            AlgorithmError::ClassificationCountMismatch {
                document: string_of(document),
                pages,
                classifications: classified.len(),
            },
        );
    }
    Ok(classified)
}

/// The classes of a sequence of scheduled pages.
pub open spec fn scheduled_classes(pages: Seq<ScheduledPage>) -> Seq<Seq<char>> {
    pages.map_values(|p: ScheduledPage| p.class@)
}

/// `groups` cuts `classes` into its maximal runs of one class, in order: each group a non-empty
/// `[start, end)` range of a single class, each starting where the previous one ends, and two
/// neighbouring groups of different classes.
pub open spec fn runs_of(classes: Seq<Seq<char>>, groups: Seq<(usize, usize)>) -> bool {
    &&& classes.len() == 0 <==> groups.len() == 0
    &&& groups.len() > 0 ==> groups[0].0 == 0 && groups.last().1 == classes.len()
    &&& forall|k: int| 0 <= k < groups.len() ==> #[trigger] groups[k].0 < groups[k].1
    &&& forall|k: int| 0 <= k < groups.len() - 1 ==> #[trigger] groups[k].1 == groups[k + 1].0
    &&& forall|k: int, i: int|
        0 <= k < groups.len() && groups[k].0 <= i < groups[k].1 ==> #[trigger] classes[i]
            == #[trigger] classes[groups[k].0 as int]
    &&& forall|k: int|
        0 <= k < groups.len() - 1 ==> classes[#[trigger] groups[k].1 - 1] != classes[groups[k].1 as int]
}

/// The pages of a step, already ordered class by class, cut into their groups of one class: the
/// pages of a group share their bundle and their filter data.
pub fn class_groups(pages: &Vec<ScheduledPage>) -> (r: Vec<(usize, usize)>)
    ensures
        runs_of(scheduled_classes(pages@), r@),
{
    let ghost cs = scheduled_classes(pages@);
    let mut groups: Vec<(usize, usize)> = Vec::new();
    if pages.len() == 0 {
        return groups;
    }
    let mut start: usize = 0;
    let mut i: usize = 1;
    while i < pages.len()
        invariant
            cs == scheduled_classes(pages@),
            0 <= start < i <= pages.len(),
            groups@.len() > 0 ==> groups@[0].0 == 0 && groups@.last().1 == start,
            groups@.len() == 0 ==> start == 0,
            forall|k: int| 0 <= k < groups@.len() ==> #[trigger] groups@[k].0 < groups@[k].1,
            forall|k: int| 0 <= k < groups@.len() - 1 ==> #[trigger] groups@[k].1 == groups@[k + 1].0,
            forall|k: int, m: int|
                0 <= k < groups@.len() && groups@[k].0 <= m < groups@[k].1 ==> #[trigger] cs[m]
                    == #[trigger] cs[groups@[k].0 as int],
            forall|k: int|
                0 <= k < groups@.len() ==> cs[#[trigger] groups@[k].1 - 1] != cs[groups@[k].1 as int],
            forall|m: int| start <= m < i ==> #[trigger] cs[m] == cs[start as int],
        decreases pages.len() - i,
    {
        assert(cs[i as int] == pages@[i as int].class@);
        assert(cs[i - 1] == pages@[i - 1].class@);
        if !pages[i].class.eq(&pages[i - 1].class) {
            let ghost before = groups@;
            groups.push((start, i));
            assert forall|k: int, m: int|
                0 <= k < groups@.len() && groups@[k].0 <= m < groups@[k].1 implies #[trigger] cs[m]
                    == #[trigger] cs[groups@[k].0 as int] by {
                if k < before.len() {
                    assert(groups@[k] == before[k]);
                }
            }
            assert forall|k: int|
                0 <= k < groups@.len() implies cs[#[trigger] groups@[k].1 - 1] != cs[groups@[k].1 as int] by {
                if k < before.len() {
                    assert(groups@[k] == before[k]);
                }
            }
            start = i;
        }
        i = i + 1;
    }
    let ghost before = groups@;
    groups.push((start, pages.len()));
    assert forall|k: int, m: int|
        0 <= k < groups@.len() && groups@[k].0 <= m < groups@[k].1 implies #[trigger] cs[m]
            == #[trigger] cs[groups@[k].0 as int] by {
        if k < before.len() {
            assert(groups@[k] == before[k]);
        }
    }
    assert forall|k: int|
        0 <= k < groups@.len() - 1 implies cs[#[trigger] groups@[k].1 - 1] != cs[groups@[k].1 as int] by {
        assert(groups@[k] == before[k]);
    }
    groups
}

/// The results gathered for one scheduled page: its number, the class it was first scheduled
/// under, and everything produced for it so far.
#[derive(Debug)]
pub struct PageEntry<R> {
    pub page: u32,
    pub class: PageClass,
    pub results: Vec<R>,
}

/// A page's results as plain values.
pub type EntryView<R> = (u32, Seq<char>, Seq<R>);

/// The views of a document's page entries.
pub open spec fn entry_views<R>(list: Seq<PageEntry<R>>) -> Seq<EntryView<R>> {
    list.map_values(|e: PageEntry<R>| (e.page, e.class@, e.results@))
}

/// Pages in strictly increasing order.
pub open spec fn pages_increasing<R>(list: Seq<EntryView<R>>) -> bool {
    forall|i: int, j: int| 0 <= i < j < list.len() ==> #[trigger] list[i].0 < #[trigger] list[j].0
}

/// `k` is where `page` belongs among the pages of `list`: after every smaller page, before every
/// larger one.
pub open spec fn slot<R>(list: Seq<EntryView<R>>, page: u32, k: int) -> bool {
    &&& 0 <= k <= list.len()
    &&& forall|m: int| 0 <= m < k ==> #[trigger] list[m].0 < page
    &&& forall|m: int| k <= m < list.len() ==> #[trigger] list[m].0 > page
}

/// A document's page entries after `results` came in for `page` under `class`: appended to the
/// page's results when the page is already there (keeping the class it came with), a new entry
/// at its place in page order otherwise.
pub open spec fn recorded<R>(list: Seq<EntryView<R>>, page: u32, class: Seq<char>, results: Seq<R>) -> Seq<
    EntryView<R>,
> {
    if exists|i: int| 0 <= i < list.len() && #[trigger] list[i].0 == page {
        let i = choose|i: int| 0 <= i < list.len() && #[trigger] list[i].0 == page;
        list.update(i, (page, list[i].1, list[i].2 + results))
    } else {
        let k = choose|k: int| #[trigger] slot(list, page, k);
        list.insert(k, (page, class, results))
    }
}

/// The results of every scheduled page, document by document, each document's pages in page
/// order.
#[derive(Debug)]
pub struct PageResults<R> {
    per_doc: Vec<Vec<PageEntry<R>>>,
}

impl<R> PageResults<R> {
    #[verifier::type_invariant]
    spec fn ordered(self) -> bool {
        forall|d: int|
            0 <= d < self.per_doc@.len() ==> pages_increasing(#[trigger] entry_views(self.per_doc@[d]@))
    }

    /// Each document's page entries.
    pub closed spec fn documents(self) -> Seq<Seq<EntryView<R>>> {
        self.per_doc@.map_values(|l: Vec<PageEntry<R>>| entry_views(l@))
    }

    /// No results yet, for `documents` documents.
    pub fn new(documents: usize) -> (r: Self)
        ensures
            r.documents().len() == documents,
            forall|d: int| 0 <= d < documents ==> (#[trigger] r.documents()[d]).len() == 0,
    {
        let mut per_doc: Vec<Vec<PageEntry<R>>> = Vec::new();
        let mut i: usize = 0;
        while i < documents
            invariant
                i <= documents,
                per_doc@.len() == i,
                forall|d: int| 0 <= d < i ==> (#[trigger] per_doc@[d])@.len() == 0,
            decreases documents - i,
        {
            per_doc.push(Vec::new());
            i = i + 1;
        }
        PageResults { per_doc }
    }

    /// Takes in what a step produced for page `page` of document `doc_index`, scheduled under
    /// `class`.
    pub fn record(&mut self, doc_index: usize, page: u32, class: &PageClass, results: Vec<R>)
        requires
            doc_index < old(self).documents().len(),
        ensures
            final(self).documents() == old(self).documents().update(
                doc_index as int,
                recorded(old(self).documents()[doc_index as int], page, class@, results@),
            ),
    {
        proof {
            use_type_invariant(&*self);
        }
        let ghost docs = self.documents();
        let mut all: Vec<Vec<PageEntry<R>>> = Vec::new();
        std::mem::swap(&mut all, &mut self.per_doc);
        let mut list = all.remove(doc_index);
        let ghost lv = entry_views(list@);
        assert(lv == docs[doc_index as int]);
        assert(pages_increasing(lv));
        let mut k: usize = 0;
        while k < list.len() && list[k].page < page
            invariant
                k <= list.len(),
                lv == entry_views(list@),
                forall|m: int| 0 <= m < k ==> #[trigger] lv[m].0 < page,
            decreases list.len() - k,
        {
            assert(lv[k as int].0 == list@[k as int].page);
            k = k + 1;
        }
        let ghost rv = results@;
        if k < list.len() && list[k].page == page {
            assert(lv[k as int].0 == page);
            let mut entry = list.remove(k);
            let mut more = results;
            entry.results.append(&mut more);
            list.insert(k, entry);
            proof {
                let i = choose|i: int| 0 <= i < lv.len() && #[trigger] lv[i].0 == page;
                if i < k {
                    assert(lv[i].0 < page);
                } else if i > k {
                    assert(lv[k as int].0 < lv[i].0);
                }
                assert(entry_views(list@) =~= lv.update(k as int, (page, lv[k as int].1, lv[k as int].2 + rv)));
                assert(entry_views(list@) == recorded(lv, page, class@, rv));
            }
        } else {
            let ghost cv = class@;
            list.insert(k, PageEntry { page, class: class.duplicate(), results });
            proof {
                assert forall|m: int| k <= m < lv.len() implies #[trigger] lv[m].0 > page by {
                    assert(lv[k as int].0 >= page);
                    assert(lv[k as int].0 != page);
                    if m > k {
                        assert(lv[k as int].0 < lv[m].0);
                    }
                }
                assert(!exists|i: int| 0 <= i < lv.len() && #[trigger] lv[i].0 == page) by {
                    if exists|i: int| 0 <= i < lv.len() && #[trigger] lv[i].0 == page {
                        let i = choose|i: int| 0 <= i < lv.len() && #[trigger] lv[i].0 == page;
                        if i < k {
                            assert(lv[i].0 < page);
                        } else {
                            assert(lv[i].0 > page);
                        }
                    }
                }
                assert(slot(lv, page, k as int));
                let c = choose|c: int| #[trigger] slot(lv, page, c);
                if c < k {
                    assert(lv[c].0 > page && lv[c].0 < page);
                } else if c > k {
                    assert(lv[k as int].0 < page && lv[k as int].0 > page);
                }
                assert(entry_views(list@) =~= lv.insert(k as int, (page, cv, rv)));
            }
        }
        let ghost nv = entry_views(list@);
        proof {
            assert(nv == recorded(lv, page, class@, rv));
            assert forall|i: int, j: int| 0 <= i < j < nv.len() implies #[trigger] nv[i].0 < #[trigger] nv[j].0 by {
                if exists|x: int| 0 <= x < lv.len() && #[trigger] lv[x].0 == page {
                    assert(nv[i].0 == lv[i].0 && nv[j].0 == lv[j].0);
                } else {
                    if j < k {
                        assert(nv[i] == lv[i] && nv[j] == lv[j]);
                    } else if j == k {
                        assert(nv[i] == lv[i]);
                    } else if i < k {
                        assert(nv[i] == lv[i] && nv[j] == lv[j - 1]);
                    } else if i == k {
                        assert(nv[j] == lv[j - 1]);
                    } else {
                        assert(nv[i] == lv[i - 1] && nv[j] == lv[j - 1]);
                    }
                }
            }
        }
        all.insert(doc_index, list);
        proof {
            let after = all@.map_values(|l: Vec<PageEntry<R>>| entry_views(l@));
            assert(after =~= docs.update(doc_index as int, nv));
            assert forall|d: int| 0 <= d < all@.len() implies pages_increasing(
                #[trigger] entry_views(all@[d]@),
            ) by {
                assert(entry_views(all@[d]@) == after[d]);
                if d != doc_index {
                    assert(after[d] == docs[d]);
                    assert(docs[d] == entry_views(old(self).per_doc@[d]@));
                }
            }
        }
        self.per_doc = all;
    }

    /// The results, document by document, each document's pages in page order.
    pub fn into_outcomes(self) -> (r: Vec<Vec<PageEntry<R>>>)
        ensures
            r@.map_values(|l: Vec<PageEntry<R>>| entry_views(l@)) == self.documents(),
            forall|d: int| 0 <= d < r@.len() ==> pages_increasing(#[trigger] entry_views(r@[d]@)),
    {
        proof {
            use_type_invariant(&self);
        }
        let PageResults { per_doc } = self;
        per_doc
    }
}


/// What the pages of a step filter against: the first step sees the target companies, every
/// later step the results of all the steps before it, not only of the last one.
pub enum StepData<'a, R> {
    TargetCompanies,
    Previous(&'a [R]),
}

impl<'a, R> StepData<'a, R> {
    /// The results of the earlier steps: none for the first step.
    pub fn previous(&self) -> (r: &'a [R])
        ensures
            match self {
                StepData::TargetCompanies => r@.len() == 0,
                StepData::Previous(s) => r@ == s@,
            },
    {
        match self {
            StepData::TargetCompanies => &[],
            StepData::Previous(s) => s,
        }
    }
}

/// What became of one scheduled page: the results its bundle produced, or a failure, which costs
/// that page and nothing else.
pub enum PageRun<R> {
    Produced(Vec<R>),
    Failed,
}

/// A run across the steps of a schedule: the results gathered page by page, the results of the
/// steps already finished, those of the step under way, and how many pages were skipped.
///
/// The pages of one step are independent: none of them sees what another page of the same step
/// produced, since a step's results join the filter data only once the step is finished.
pub struct StepRun<R> {
    results: PageResults<R>,
    previous: Vec<R>,
    produced: Vec<R>,
    step: usize,
    skipped: usize,
}

impl<R: Clone> StepRun<R> {
    /// Each document's page entries so far.
    pub closed spec fn documents(self) -> Seq<Seq<EntryView<R>>> {
        self.results.documents()
    }

    /// The results of the finished steps, in order.
    pub closed spec fn previous(self) -> Seq<R> {
        self.previous@
    }

    /// The results of the step under way, in order.
    pub closed spec fn produced(self) -> Seq<R> {
        self.produced@
    }

    /// The index of the step under way.
    pub closed spec fn step(self) -> nat {
        self.step as nat
    }

    /// How many pages were skipped so far.
    pub closed spec fn skipped_pages(self) -> nat {
        self.skipped as nat
    }

    /// A run over `documents` documents, before its first step.
    pub fn new(documents: usize) -> (r: Self)
        ensures
            r.documents().len() == documents,
            forall|d: int| 0 <= d < documents ==> (#[trigger] r.documents()[d]).len() == 0,
            r.previous().len() == 0,
            r.produced().len() == 0,
            r.step() == 0,
            r.skipped_pages() == 0,
    {
        StepRun {
            results: PageResults::new(documents),
            previous: Vec::new(),
            produced: Vec::new(),
            step: 0,
            skipped: 0,
        }
    }

    /// The filter data of the step under way.
    pub fn data(&self) -> (r: StepData<'_, R>)
        ensures
            self.step() == 0 ==> r is TargetCompanies,
            self.step() > 0 ==> (r matches StepData::Previous(s) && s@ == self.previous()),
    {
        if self.step == 0 {
            StepData::TargetCompanies
        } else {
            StepData::Previous(self.previous.as_slice())
        }
    }

    /// Takes in what became of page `page` of document `doc_index`, scheduled under `class` in
    /// the step under way: its results join the page's entry and the step's results; a failed
    /// page keeps an entry with nothing in it and counts as skipped. The filter data of the step
    /// does not change.
    pub fn take_page(&mut self, doc_index: usize, page: u32, class: &PageClass, outcome: PageRun<R>)
        requires
            doc_index < old(self).documents().len(),
        ensures
            final(self).previous() == old(self).previous(),
            final(self).step() == old(self).step(),
            match outcome {
                PageRun::Produced(results) => {
                    &&& final(self).documents() == old(self).documents().update(
                        doc_index as int,
                        recorded(old(self).documents()[doc_index as int], page, class@, results@),
                    )
                    &&& final(self).produced().len() == old(self).produced().len() + results@.len()
                    &&& final(self).produced().take(old(self).produced().len() as int) == old(
                        self,
                    ).produced()
                    &&& forall|i: int|
                        0 <= i < results@.len() ==> cloned(
                            results@[i],
                            #[trigger] final(self).produced()[old(self).produced().len() + i],
                        )
                    &&& final(self).skipped_pages() == old(self).skipped_pages()
                },
                PageRun::Failed => {
                    &&& final(self).documents() == old(self).documents().update(
                        doc_index as int,
                        recorded(old(self).documents()[doc_index as int], page, class@, Seq::empty()),
                    )
                    &&& final(self).produced() == old(self).produced()
                    &&& final(self).skipped_pages() == if old(self).skipped_pages() == usize::MAX {
                        0
                    } else {
                        old(self).skipped_pages() + 1
                    }
                },
            },
    {
        match outcome {
            PageRun::Produced(results) => {
                let ghost before = self.produced@;
                let ghost docs = self.results.documents();
                let ghost prior = self.previous@;
                let ghost step = self.step;
                let ghost skipped = self.skipped;
                let mut i: usize = 0;
                while i < results.len()
                    invariant
                        i <= results.len(),
                        self.results.documents() == docs,
                        self.previous@ == prior,
                        self.step == step,
                        self.skipped == skipped,
                        docs == old(self).documents(),
                        prior == old(self).previous(),
                        step == old(self).step(),
                        skipped == old(self).skipped_pages(),
                        doc_index < docs.len(),
                        self.produced@.len() == before.len() + i,
                        self.produced@.take(before.len() as int) == before,
                        forall|j: int|
                            0 <= j < i ==> cloned(results@[j], #[trigger] self.produced@[before.len() + j]),
                    decreases results.len() - i,
                {
                    let copy = results[i].clone();
                    let ghost prev = self.produced@;
                    self.produced.push(copy);
                    assert(self.produced@.take(before.len() as int) =~= prev.take(before.len() as int));
                    assert(self.produced@[before.len() + i] == copy);
                    assert forall|j: int| 0 <= j < i + 1 implies cloned(
                        results@[j],
                        #[trigger] self.produced@[before.len() + j],
                    ) by {
                        if j < i {
                            assert(self.produced@[before.len() + j] == prev[before.len() + j]);
                        }
                    }
                    i = i + 1;
                }
                self.results.record(doc_index, page, class, results);
            },
            PageRun::Failed => {
                self.results.record(doc_index, page, class, Vec::new());
                self.skipped = self.skipped.wrapping_add(1);
            },
        }
    }

    /// Ends the step under way: its results join those of the finished steps, and the next step
    /// begins.
    pub fn finish_step(&mut self)
        requires
            old(self).step() < usize::MAX,
        ensures
            final(self).previous() == old(self).previous() + old(self).produced(),
            final(self).produced().len() == 0,
            final(self).step() == old(self).step() + 1,
            final(self).documents() == old(self).documents(),
            final(self).skipped_pages() == old(self).skipped_pages(),
    {
        let mut done: Vec<R> = Vec::new();
        std::mem::swap(&mut done, &mut self.produced);
        self.previous.append(&mut done);
        self.step = self.step + 1;
    }

    /// How many pages were skipped so far.
    pub fn skipped(&self) -> (r: usize)
        ensures
            r == self.skipped_pages(),
    {
        self.skipped
    }

    /// The results, document by document, each document's pages in page order.
    pub fn into_outcomes(self) -> (r: Vec<Vec<PageEntry<R>>>)
        ensures
            r@.map_values(|l: Vec<PageEntry<R>>| entry_views(l@)) == self.documents(),
            forall|d: int| 0 <= d < r@.len() ==> pages_increasing(#[trigger] entry_views(r@[d]@)),
    {
        self.results.into_outcomes()
    }
}

} // verus!
