//! The schedule: ordered groups of [`PageClass`], and the assignment of pages to steps.
//!
//! A schedule is the sequence of passes the algorithm makes over the pages of one or more
//! documents. Each step names a set of page classes, and the pages carrying those classes are
//! processed in that step.
//!
//! Steps preserve insertion order and deduplicate, so the order in which pages are processed, and
//! with it the order of the output, is deterministic.
//!
//! An unclassified page is legitimate: it simply enters no step. A page classified with a class
//! that no step names is an error ([`ScheduleError::UnknownPageClass`]).

use vstd::prelude::*;
use vstd::std_specs::iter::IteratorSpec;

use crate::text::{decimal, push_decimal, str_eq, strictly_sorted, string_of, text_less, text_lt, lemma_text_lt_asymmetric, lemma_text_lt_total, lemma_text_lt_transitive, lemma_text_lt_irreflexive};

verus! {

/// The class of a page, for example `"investments"` or `"fund_info"`.
///
/// A newtype over `String` rather than a closed enum: page classes are defined by formats
/// repositories, so no enum in the library could list them.
#[derive(Debug, PartialOrd, Ord, Hash)]
pub struct PageClass(String);

impl View for PageClass {
    type V = Seq<char>;

    closed spec fn view(&self) -> Seq<char> {
        self.0@
    }
}

impl PageClass {
    pub fn new(name: &str) -> (r: Self)
        ensures
            r@ == name@,
    {
        PageClass(string_of(name))
    }

    pub fn as_str(&self) -> (r: &str)
        ensures
            r@ == self@,
    {
        self.0.as_str()
    }

    /// The class name, as it is displayed.
    pub fn to_string(&self) -> (r: String)
        ensures
            r@ == self@,
    {
        string_of(self.0.as_str())
    }

    /// A copy with the same name.
    pub fn duplicate(&self) -> (r: Self)
        ensures
            r@ == self@,
    {
        PageClass(string_of(self.0.as_str()))
    }
}

impl Clone for PageClass {
    fn clone(&self) -> (r: Self)
        ensures
            r@ == self@,
    {
        self.duplicate()
    }
}

impl PartialEq for PageClass {
    fn eq(&self, other: &Self) -> (r: bool) {
        str_eq(self.0.as_str(), other.0.as_str())
    }
}

impl vstd::std_specs::cmp::PartialEqSpecImpl for PageClass {
    open spec fn obeys_eq_spec() -> bool {
        true
    }

    open spec fn eq_spec(&self, other: &Self) -> bool {
        self@ == other@
    }
}

impl Eq for PageClass {
}

/// The names of a sequence of page classes.
pub open spec fn class_names(classes: Seq<PageClass>) -> Seq<Seq<char>> {
    classes.map_values(|c: PageClass| c@)
}

/// A group of page classes processed in the same pass: deduplicated, in insertion order.
///
/// An empty step is legal: it is what a format writes when it wants a pass that only filters what
/// the previous one produced.
#[derive(Debug)]
pub struct ScheduleStep(Vec<PageClass>);

impl View for ScheduleStep {
    type V = Seq<Seq<char>>;

    closed spec fn view(&self) -> Seq<Seq<char>> {
        class_names(self.0@)
    }
}

impl ScheduleStep {
    #[verifier::type_invariant]
    spec fn no_repetition(self) -> bool {
        class_names(self.0@).no_duplicates()
    }

    pub fn new() -> (r: Self)
        ensures
            r@ == Seq::<Seq<char>>::empty(),
    {
        let r = ScheduleStep(Vec::new());
        assert(r@ =~= Seq::<Seq<char>>::empty());
        r
    }

    /// Whether the step names `class`.
    pub fn contains(&self, class: &PageClass) -> (r: bool)
        ensures
            r == self@.contains(class@),
    {
        let mut i: usize = 0;
        while i < self.0.len()
            invariant
                i <= self.0.len(),
                forall|k: int| 0 <= k < i ==> self@[k] != class@,
            decreases self.0.len() - i,
        {
            assert(self@[i as int] == self.0@[i as int]@);
            if self.0[i].eq(class) {
                return true;
            }
            i = i + 1;
        }
        assert(!self@.contains(class@)) by {
            if self@.contains(class@) {
                let k = choose|k: int| 0 <= k < self@.len() && self@[k] == class@;
                assert(self@[k] != class@);
            }
        }
        false
    }

    /// Appends a page class unless it is already present. Returns whether it was actually added;
    /// a duplicate leaves the step, and the original's position, as they were.
    pub fn push(&mut self, class: &str) -> (added: bool)
        ensures
            added == !old(self)@.contains(class@),
            final(self)@ == (if added {
                old(self)@.push(class@)
            } else {
                old(self)@
            }),
    {
        let class = PageClass::new(class);
        if self.contains(&class) {
            return false;
        }
        proof {
            use_type_invariant(&*self);
        }
        let ghost before = self@;
        let mut items: Vec<PageClass> = Vec::new();
        std::mem::swap(&mut items, &mut self.0);
        items.push(class);
        assert(class_names(items@) =~= before.push(class@));
        self.0 = items;
        true
    }

    /// The classes of the step, in order.
    pub fn iter(&self) -> (r: std::slice::Iter<'_, PageClass>)
        ensures
            r.remaining().map_values(|c: &PageClass| c@) == self@,
    {
        let items = self.0.as_slice();
        let r = items.iter();
        proof {
            vstd::std_specs::slice::axiom_spec_slice_iter(items);
            assert(r.remaining().map_values(|c: &PageClass| c@) =~= self@);
        }
        r
    }

    /// The classes of the step, in order, as a slice.
    pub fn classes(&self) -> (r: &[PageClass])
        ensures
            class_names(r@) == self@,
    {
        self.0.as_slice()
    }

    pub fn len(&self) -> (r: usize)
        ensures
            r == self@.len(),
    {
        self.0.len()
    }

    pub fn is_empty(&self) -> (r: bool)
        ensures
            r == (self@.len() == 0),
    {
        self.0.len() == 0
    }
}

impl Default for ScheduleStep {
    fn default() -> (r: Self)
        ensures
            r@ == Seq::<Seq<char>>::empty(),
    {
        ScheduleStep::new()
    }
}

/// The classes named by a sequence of steps.
pub open spec fn step_views(steps: Seq<ScheduleStep>) -> Seq<Seq<Seq<char>>> {
    steps.map_values(|s: ScheduleStep| s@)
}

/// Whether some step of `schedule` names `class`.
pub open spec fn named(schedule: Seq<Seq<Seq<char>>>, class: Seq<char>) -> bool {
    exists|i: int| 0 <= i < schedule.len() && #[trigger] schedule[i].contains(class)
}

/// The ordered sequence of steps.
#[derive(Debug)]
pub struct Schedule(Vec<ScheduleStep>);

impl View for Schedule {
    type V = Seq<Seq<Seq<char>>>;

    closed spec fn view(&self) -> Seq<Seq<Seq<char>>> {
        step_views(self.0@)
    }
}

impl Default for Schedule {
    fn default() -> (r: Self)
        ensures
            r@ == Seq::<Seq<Seq<char>>>::empty(),
    {
        let r = Schedule(Vec::new());
        assert(r@ =~= Seq::<Seq<Seq<char>>>::empty());
        r
    }
}

impl Schedule {
    pub fn new(steps: Vec<ScheduleStep>) -> (r: Self)
        ensures
            r@ == step_views(steps@),
    {
        Schedule(steps)
    }

    pub fn steps(&self) -> (r: &[ScheduleStep])
        ensures
            step_views(r@) == self@,
    {
        self.0.as_slice()
    }

    pub fn len(&self) -> (r: usize)
        ensures
            r == self@.len(),
    {
        self.0.len()
    }

    pub fn is_empty(&self) -> (r: bool)
        ensures
            r == (self@.len() == 0),
    {
        self.0.len() == 0
    }

    /// Whether at least one step names this page class.
    pub fn contains(&self, class: &PageClass) -> (r: bool)
        ensures
            r == named(self@, class@),
    {
        let mut i: usize = 0;
        while i < self.0.len()
            invariant
                i <= self.0.len(),
                forall|k: int| 0 <= k < i ==> !(#[trigger] self@[k]).contains(class@),
            decreases self.0.len() - i,
        {
            assert(self@[i as int] == self.0@[i as int]@);
            if self.0[i].contains(class) {
                return true;
            }
            i = i + 1;
        }
        false
    }

    /// Every page class named by at least one step, once each, in increasing order.
    pub fn page_classes(&self) -> (r: Vec<PageClass>)
        ensures
            strictly_sorted(class_names(r@)),
            forall|c: Seq<char>| #[trigger] class_names(r@).contains(c) <==> named(self@, c),
    {
        let mut out: Vec<PageClass> = Vec::new();
        let mut i: usize = 0;
        while i < self.0.len()
            invariant
                i <= self.0.len(),
                strictly_sorted(class_names(out@)),
                forall|c: Seq<char>|
                    #[trigger] class_names(out@).contains(c) <==> named(self@.take(i as int), c),
            decreases self.0.len() - i,
        {
            let step = &self.0[i];
            let classes = step.classes();
            let ghost prefix = self@.take(i as int);
            let ghost next = self@.take(i + 1);
            assert(step@ == self@[i as int]);
            let mut j: usize = 0;
            while j < classes.len()
                invariant
                    i < self.0.len(),
                    j <= classes.len(),
                    class_names(classes@) == self@[i as int],
                    strictly_sorted(class_names(out@)),
                    forall|c: Seq<char>|
                        #[trigger] class_names(out@).contains(c) <==> (named(prefix, c)
                            || class_names(classes@).take(j as int).contains(c)),
                decreases classes.len() - j,
            {
                let ghost before = class_names(out@);
                let ghost names = class_names(classes@);
                assert(names.take(j + 1) =~= names.take(j as int).push(names[j as int]));
                insert_sorted(&mut out, &classes[j]);
                let ghost t0 = names.take(j as int);
                let ghost t1 = names.take(j + 1);
                assert forall|c: Seq<char>|
                    #[trigger] class_names(out@).contains(c) <==> (named(prefix, c)
                        || t1.contains(c)) by {
                    if t1.contains(c) && !t0.contains(c) {
                        let k = choose|k: int| 0 <= k < t1.len() && t1[k] == c;
                        if k < j {
                            assert(t0[k] == c);
                        }
                    }
                    if t0.contains(c) {
                        let k = choose|k: int| 0 <= k < t0.len() && t0[k] == c;
                        assert(t1[k] == c);
                    }
                    if c == names[j as int] {
                        assert(t1[j as int] == c);
                    }
                }
                j = j + 1;
            }
            assert(class_names(classes@).take(classes.len() as int) =~= class_names(classes@));
            assert forall|c: Seq<char>| #[trigger] named(next, c) <==> (named(prefix, c)
                || self@[i as int].contains(c)) by {
                if named(next, c) {
                    let k = choose|k: int| 0 <= k < next.len() && #[trigger] next[k].contains(c);
                    if k < i {
                        assert(prefix[k] == next[k]);
                    }
                }
                if named(prefix, c) {
                    let k = choose|k: int| 0 <= k < prefix.len() && #[trigger] prefix[k].contains(c);
                    assert(next[k] == prefix[k]);
                }
                if self@[i as int].contains(c) {
                    assert(next[i as int] == self@[i as int]);
                }
            }
            i = i + 1;
        }
        assert(self@.take(self.0.len() as int) =~= self@);
        out
    }
}

/// Inserts a copy of `class` at its place in the strictly increasing `out`, unless it is already
/// there.
fn insert_sorted(out: &mut Vec<PageClass>, class: &PageClass)
    requires
        strictly_sorted(class_names(old(out)@)),
    ensures
        strictly_sorted(class_names(final(out)@)),
        forall|c: Seq<char>|
            #[trigger] class_names(final(out)@).contains(c) <==> (class_names(old(out)@).contains(c)
                || c == class@),
{
    let ghost before = class_names(out@);
    let mut k: usize = 0;
    while k < out.len() && text_less(out[k].as_str(), class.as_str())
        invariant
            k <= out.len(),
            out@ == old(out)@,
            before == class_names(out@),
            forall|m: int| 0 <= m < k ==> text_lt(#[trigger] before[m], class@),
        decreases out.len() - k,
    {
        assert(out[k as int]@ == before[k as int]);
        k = k + 1;
    }
    if k < out.len() && str_eq(out[k].as_str(), class.as_str()) {
        assert(before[k as int] == class@);
        assert(before.contains(class@));
        return;
    }
    proof {
        if k < out.len() {
            assert(out[k as int]@ == before[k as int]);
            lemma_text_lt_total(before[k as int], class@);
        }
    }
    out.insert(k, class.duplicate());
    let ghost after = class_names(out@);
    assert(after =~= before.insert(k as int, class@));
    assert forall|a: int, b: int| 0 <= a < b < after.len() implies text_lt(
        #[trigger] after[a],
        #[trigger] after[b],
    ) by {
        if b < k {
            assert(after[a] == before[a] && after[b] == before[b]);
        } else if b == k {
            assert(after[a] == before[a]);
        } else if a < k {
            assert(after[a] == before[a] && after[b] == before[b - 1]);
            lemma_text_lt_transitive(before[a], class@, before[k as int]);
            if b - 1 > k {
                lemma_text_lt_transitive(before[a], before[k as int], before[b - 1]);
            }
        } else if a == k {
            assert(after[b] == before[b - 1]);
            if b - 1 > k {
                lemma_text_lt_transitive(class@, before[k as int], before[b - 1]);
            }
        } else {
            assert(after[a] == before[a - 1] && after[b] == before[b - 1]);
        }
    }
    assert forall|c: Seq<char>| #[trigger] after.contains(c) <==> (before.contains(c) || c
        == class@) by {
        if after.contains(c) {
            let m = choose|m: int| 0 <= m < after.len() && after[m] == c;
            if m < k {
                assert(before[m] == c);
            } else if m > k {
                assert(before[m - 1] == c);
            }
        }
        if before.contains(c) {
            let m = choose|m: int| 0 <= m < before.len() && before[m] == c;
            if m < k {
                assert(after[m] == c);
            } else {
                assert(after[m + 1] == c);
            }
        }
        if c == class@ {
            assert(after[k as int] == c);
        }
    }
}

/// What the schedule reads of a document: its identifier, for error messages, and how many pages
/// it holds.
#[derive(Debug)]
pub struct DocumentOutline {
    pub id: String,
    pub pages: usize,
}

/// A page assigned to a step: the position of its document in the slice handed to
/// [`Schedule::assign`], its position within that document, and the class that put it there.
#[derive(Debug)]
pub struct ScheduledPage {
    pub doc_index: usize,
    pub page_index: usize,
    pub class: PageClass,
}

/// A scheduled page as plain values: document position, page position, class name.
pub type Placement = (int, int, Seq<char>);

impl View for ScheduledPage {
    type V = Placement;

    open spec fn view(&self) -> Placement {
        (self.doc_index as int, self.page_index as int, self.class@)
    }
}

/// Why pages could not be assigned, as plain values.
pub enum ScheduleErrorView {
    ClassificationCountMismatch { documents: nat, classifications: nat },
    PageCountMismatch { document: Seq<char>, pages: nat, classifications: nat },
    UnknownPageClass { document: Seq<char>, class: Seq<char> },
}

/// Why pages could not be assigned to a schedule.
#[derive(Debug)]
pub enum ScheduleError {
    ClassificationCountMismatch { documents: usize, classifications: usize },
    PageCountMismatch { document: String, pages: usize, classifications: usize },
    UnknownPageClass { document: String, class: PageClass },
}

impl View for ScheduleError {
    type V = ScheduleErrorView;

    open spec fn view(&self) -> ScheduleErrorView {
        match self {
            ScheduleError::ClassificationCountMismatch { documents, classifications } =>
                ScheduleErrorView::ClassificationCountMismatch {
                documents: *documents as nat,
                classifications: *classifications as nat,
            },
            ScheduleError::PageCountMismatch { document, pages, classifications } =>
                ScheduleErrorView::PageCountMismatch {
                document: document@,
                pages: *pages as nat,
                classifications: *classifications as nat,
            },
            ScheduleError::UnknownPageClass { document, class } =>
                ScheduleErrorView::UnknownPageClass { document: document@, class: class@ },
        }
    }
}

/// The class names of one document's classifications; `None` is an unclassified page.
pub open spec fn row_view(row: Seq<Option<PageClass>>) -> Seq<Option<Seq<char>>> {
    row.map_values(
        |o: Option<PageClass>|
            match o {
                Some(c) => Some(c@),
                None => None,
            },
    )
}

/// The class names of every document's classifications.
pub open spec fn rows_view(rows: Seq<Vec<Option<PageClass>>>) -> Seq<Seq<Option<Seq<char>>>> {
    rows.map_values(|r: Vec<Option<PageClass>>| row_view(r@))
}

/// Identifier and page count of each document.
pub open spec fn outline_views(docs: Seq<DocumentOutline>) -> Seq<(Seq<char>, nat)> {
    docs.map_values(|d: DocumentOutline| (d.id@, d.pages as nat))
}

/// The first class, from position `p` on, that no step of `schedule` names.
pub open spec fn first_unknown(
    schedule: Seq<Seq<Seq<char>>>,
    row: Seq<Option<Seq<char>>>,
    p: int,
) -> Option<Seq<char>>
    decreases row.len() - p,
{
    if p < 0 || p >= row.len() {
        None
    } else if row[p] is Some && !named(schedule, row[p]->0) {
        row[p]
    } else {
        first_unknown(schedule, row, p + 1)
    }
}

/// What is wrong with one document's classifications, if anything: first the page count, then
/// the first class no step names.
pub open spec fn document_problem(
    schedule: Seq<Seq<Seq<char>>>,
    doc: (Seq<char>, nat),
    row: Seq<Option<Seq<char>>>,
) -> Option<ScheduleErrorView> {
    if row.len() != doc.1 {
        Some(
            ScheduleErrorView::PageCountMismatch {
                document: doc.0,
                pages: doc.1,
                classifications: row.len(),
            },
        )
    } else {
        match first_unknown(schedule, row, 0) {
            Some(c) => Some(ScheduleErrorView::UnknownPageClass { document: doc.0, class: c }),
            None => None,
        }
    }
}

/// The problem of the first document, from position `d` on, that has one.
pub open spec fn first_problem(
    schedule: Seq<Seq<Seq<char>>>,
    docs: Seq<(Seq<char>, nat)>,
    rows: Seq<Seq<Option<Seq<char>>>>,
    d: int,
) -> Option<ScheduleErrorView>
    decreases docs.len() - d,
{
    if d < 0 || d >= docs.len() {
        None
    } else {
        match document_problem(schedule, docs[d], rows[d]) {
            Some(e) => Some(e),
            None => first_problem(schedule, docs, rows, d + 1),
        }
    }
}

/// The pages, among the first `upto` of document `d`, classified as `class`, in page order.
pub open spec fn doc_pages(class: Seq<char>, d: int, row: Seq<Option<Seq<char>>>, upto: int) -> Seq<
    Placement,
>
    decreases upto,
{
    if upto <= 0 {
        Seq::empty()
    } else if row[upto - 1] == Some(class) {
        doc_pages(class, d, row, upto - 1).push((d, upto - 1, class))
    } else {
        doc_pages(class, d, row, upto - 1)
    }
}

/// The pages classified as `class`, among the first `upto` documents, in document order.
pub open spec fn class_pages(class: Seq<char>, rows: Seq<Seq<Option<Seq<char>>>>, upto: int) -> Seq<
    Placement,
>
    decreases upto,
{
    if upto <= 0 {
        Seq::empty()
    } else {
        class_pages(class, rows, upto - 1) + doc_pages(
            class,
            upto - 1,
            rows[upto - 1],
            rows[upto - 1].len() as int,
        )
    }
}

/// The pages of one step: for each of its first `upto` classes in the step's order, the pages of
/// that class.
pub open spec fn step_pages(step: Seq<Seq<char>>, rows: Seq<Seq<Option<Seq<char>>>>, upto: int) -> Seq<
    Placement,
>
    decreases upto,
{
    if upto <= 0 {
        Seq::empty()
    } else {
        step_pages(step, rows, upto - 1) + class_pages(step[upto - 1], rows, rows.len() as int)
    }
}

/// The pages of every step, step by step.
pub open spec fn schedule_pages(schedule: Seq<Seq<Seq<char>>>, rows: Seq<Seq<Option<Seq<char>>>>) -> Seq<
    Seq<Placement>,
> {
    Seq::new(schedule.len(), |s: int| step_pages(schedule[s], rows, schedule[s].len() as int))
}

/// What assigning gives: an error when the classifications do not fit the documents or name a
/// class no step names, otherwise the pages of every step.
pub open spec fn assignment(
    schedule: Seq<Seq<Seq<char>>>,
    docs: Seq<(Seq<char>, nat)>,
    rows: Seq<Seq<Option<Seq<char>>>>,
) -> Result<Seq<Seq<Placement>>, ScheduleErrorView> {
    if rows.len() != docs.len() {
        Err(
            ScheduleErrorView::ClassificationCountMismatch {
                documents: docs.len(),
                classifications: rows.len(),
            },
        )
    } else {
        match first_problem(schedule, docs, rows, 0) {
            Some(e) => Err(e),
            None => Ok(schedule_pages(schedule, rows)),
        }
    }
}

/// The placements of the scheduled pages, step by step.
pub open spec fn placements(steps: Seq<Vec<ScheduledPage>>) -> Seq<Seq<Placement>> {
    steps.map_values(|v: Vec<ScheduledPage>| v@.map_values(|p: ScheduledPage| p@))
}

/// Whether `o` is the class `class`.
fn is_class(o: &Option<PageClass>, class: &PageClass) -> (r: bool)
    ensures
        r == (match o {
            Some(c) => Some(c@),
            None => None,
        } == Some(class@)),
{
    match o {
        Some(c) => c.eq(class),
        None => false,
    }
}

impl Schedule {
    /// The first class of `row` that no step names, if any.
    fn find_unknown<'a>(&self, row: &'a Vec<Option<PageClass>>) -> (r: Option<&'a PageClass>)
        ensures
            match r {
                Some(c) => first_unknown(self@, row_view(row@), 0) == Some(c@),
                None => first_unknown(self@, row_view(row@), 0) is None,
            },
    {
        let ghost rv = row_view(row@);
        let mut p: usize = 0;
        while p < row.len()
            invariant
                p <= row.len(),
                rv == row_view(row@),
                first_unknown(self@, rv, 0) == first_unknown(self@, rv, p as int),
            decreases row.len() - p,
        {
            match &row[p] {
                Some(c) => {
                    if !self.contains(c) {
                        return Some(c);
                    }
                },
                None => {},
            }
            p = p + 1;
        }
        None
    }

    /// Distributes the pages of the given documents across the steps.
    ///
    /// `classifications[d][p]` is the class assigned to the page at position `p` of `docs[d]`;
    /// `None` means unclassified, which is not an error but keeps the page out of every step.
    ///
    /// For each step, the page classes in the step's own order; for each of those, the documents
    /// in the order given; for each document, its pages in document order.
    pub fn assign(&self, docs: &[DocumentOutline], classifications: &[Vec<Option<PageClass>>]) -> (r:
        Result<Vec<Vec<ScheduledPage>>, ScheduleError>)
        ensures
            match r {
                Ok(steps) => assignment(self@, outline_views(docs@), rows_view(classifications@))
                    == Ok::<Seq<Seq<Placement>>, ScheduleErrorView>(placements(steps@)),
                Err(e) => assignment(self@, outline_views(docs@), rows_view(classifications@))
                    == Err::<Seq<Seq<Placement>>, ScheduleErrorView>(e@),
            },
    {
        let ghost docs_v = outline_views(docs@);
        let ghost rows_v = rows_view(classifications@);
        if classifications.len() != docs.len() {
            return Err(
                ScheduleError::ClassificationCountMismatch {
                    documents: docs.len(),
                    classifications: classifications.len(),
                },
            );
        }
        let mut d: usize = 0;
        while d < docs.len()
            invariant
                d <= docs.len(),
                docs.len() == classifications.len(),
                docs_v == outline_views(docs@),
                rows_v == rows_view(classifications@),
                first_problem(self@, docs_v, rows_v, 0) == first_problem(
                    self@,
                    docs_v,
                    rows_v,
                    d as int,
                ),
            decreases docs.len() - d,
        {
            let doc = &docs[d];
            let classes = &classifications[d];
            assert(docs_v[d as int] == (doc.id@, doc.pages as nat));
            assert(rows_v[d as int] == row_view(classes@));
            if classes.len() != doc.pages {
                return Err(
                    ScheduleError::PageCountMismatch {
                        document: string_of(doc.id.as_str()),
                        pages: doc.pages,
                        classifications: classes.len(),
                    },
                );
            }
            match self.find_unknown(classes) {
                Some(c) => {
                    return Err(
                        ScheduleError::UnknownPageClass {
                            document: string_of(doc.id.as_str()),
                            class: c.duplicate(),
                        },
                    );
                },
                None => {},
            }
            d = d + 1;
        }
        let mut scheduled: Vec<Vec<ScheduledPage>> = Vec::new();
        let mut s: usize = 0;
        while s < self.0.len()
            invariant
                s <= self.0.len(),
                docs.len() == classifications.len(),
                rows_v == rows_view(classifications@),
                placements(scheduled@) == schedule_pages(self@, rows_v).take(s as int),
            decreases self.0.len() - s,
        {
            let step = &self.0[s];
            assert(step@ == self@[s as int]);
            let step_classes = step.classes();
            let mut step_out: Vec<ScheduledPage> = Vec::new();
            let mut k: usize = 0;
            while k < step_classes.len()
                invariant
                    k <= step_classes.len(),
                    class_names(step_classes@) == self@[s as int],
                    s < self.0.len(),
                    docs.len() == classifications.len(),
                    rows_v == rows_view(classifications@),
                    step_out@.map_values(|p: ScheduledPage| p@) == step_pages(
                        self@[s as int],
                        rows_v,
                        k as int,
                    ),
                decreases step_classes.len() - k,
            {
                let class = &step_classes[k];
                assert(class@ == self@[s as int][k as int]);
                let mut dd: usize = 0;
                let ghost before_class = step_out@.map_values(|p: ScheduledPage| p@);
                while dd < classifications.len()
                    invariant
                        dd <= classifications.len(),
                        rows_v == rows_view(classifications@),
                        step_out@.map_values(|p: ScheduledPage| p@) == before_class + class_pages(
                            class@,
                            rows_v,
                            dd as int,
                        ),
                    decreases classifications.len() - dd,
                {
                    let row = &classifications[dd];
                    assert(rows_v[dd as int] == row_view(row@));
                    let ghost before_doc = step_out@.map_values(|p: ScheduledPage| p@);
                    let mut p: usize = 0;
                    while p < row.len()
                        invariant
                            p <= row.len(),
                            dd < classifications.len(),
                            row == &classifications[dd as int],
                            rows_v == rows_view(classifications@),
                            step_out@.map_values(|p: ScheduledPage| p@) == before_doc + doc_pages(
                                class@,
                                dd as int,
                                rows_v[dd as int],
                                p as int,
                            ),
                        decreases row.len() - p,
                    {
                        let ghost prev = step_out@.map_values(|q: ScheduledPage| q@);
                        assert(rows_v[dd as int][p as int] == match row@[p as int] {
                            Some(c) => Some(c@),
                            None => None,
                        });
                        if is_class(&row[p], class) {
                            step_out.push(
                                ScheduledPage { doc_index: dd, page_index: p, class: class.duplicate() },
                            );
                            assert(step_out@.map_values(|q: ScheduledPage| q@) =~= prev.push(
                                (dd as int, p as int, class@),
                            ));
                        }
                        p = p + 1;
                    }
                    assert(before_class + class_pages(class@, rows_v, dd + 1) =~= before_class
                        + class_pages(class@, rows_v, dd as int) + doc_pages(
                        class@,
                        dd as int,
                        rows_v[dd as int],
                        rows_v[dd as int].len() as int,
                    ));
                    dd = dd + 1;
                }
                k = k + 1;
            }
            let ghost prev_steps = placements(scheduled@);
            scheduled.push(step_out);
            assert(placements(scheduled@) =~= schedule_pages(self@, rows_v).take(s + 1)) by {
                assert(placements(scheduled@) =~= prev_steps.push(
                    step_pages(self@[s as int], rows_v, self@[s as int].len() as int),
                ));
            }
            s = s + 1;
        }
        assert(schedule_pages(self@, rows_v).take(self.0.len() as int) =~= schedule_pages(
            self@,
            rows_v,
        ));
        Ok(scheduled)
    }
}

impl DocumentOutline {
    pub fn new(id: &str, pages: usize) -> (r: Self)
        ensures
            r.id@ == id@,
            r.pages == pages,
    {
        DocumentOutline { id: string_of(id), pages }
    }
}

/// The human-readable message of a scheduling error.
pub open spec fn schedule_error_message(e: ScheduleErrorView) -> Seq<char> {
    match e {
        ScheduleErrorView::ClassificationCountMismatch { documents, classifications } =>
            "expected one classification list per document: "@ + decimal(documents) + " documents, "@
            + decimal(classifications) + " lists"@,
        ScheduleErrorView::PageCountMismatch { document, pages, classifications } => "document `"@
            + document + "` has "@ + decimal(pages) + " pages but "@ + decimal(classifications)
            + " classifications: every page has to be classified"@,
        ScheduleErrorView::UnknownPageClass { document, class } =>
            "all pages have to enter the schedule at some point: `"@ + class + "` (document `"@
            + document + "`) is not part of it"@,
    }
}

impl ScheduleError {
    /// The human-readable message of the error.
    pub fn to_string(&self) -> (r: String)
        ensures
            r@ == schedule_error_message(self@),
    {
        match self {
            ScheduleError::ClassificationCountMismatch { documents, classifications } => {
                let mut out = string_of("expected one classification list per document: ");
                push_decimal(&mut out, *documents as u64);
                out.append(" documents, ");
                push_decimal(&mut out, *classifications as u64);
                out.append(" lists");
                proof {
                    reveal_strlit("expected one classification list per document: ");
                    reveal_strlit(" documents, ");
                    reveal_strlit(" lists");
                }
                out
            },
            ScheduleError::PageCountMismatch { document, pages, classifications } => {
                let mut out = string_of("document `");
                out.append(document.as_str());
                out.append("` has ");
                push_decimal(&mut out, *pages as u64);
                out.append(" pages but ");
                push_decimal(&mut out, *classifications as u64);
                out.append(" classifications: every page has to be classified");
                proof {
                    reveal_strlit("document `");
                    reveal_strlit("` has ");
                    reveal_strlit(" pages but ");
                    reveal_strlit(" classifications: every page has to be classified");
                }
                out
            },
            ScheduleError::UnknownPageClass { document, class } => {
                let mut out = string_of("all pages have to enter the schedule at some point: `");
                out.append(class.as_str());
                out.append("` (document `");
                out.append(document.as_str());
                out.append("`) is not part of it");
                proof {
                    reveal_strlit("all pages have to enter the schedule at some point: `");
                    reveal_strlit("` (document `");
                    reveal_strlit("`) is not part of it");
                }
                out
            },
        }
    }
}

impl PartialEq for ScheduleError {
    fn eq(&self, other: &Self) -> (r: bool) {
        match (self, other) {
            (
                ScheduleError::ClassificationCountMismatch { documents: a, classifications: b },
                ScheduleError::ClassificationCountMismatch { documents: c, classifications: d },
            ) => *a == *c && *b == *d,
            (
                ScheduleError::PageCountMismatch { document: a, pages: b, classifications: c },
                ScheduleError::PageCountMismatch { document: d, pages: e, classifications: f },
            ) => str_eq(a.as_str(), d.as_str()) && *b == *e && *c == *f,
            (
                ScheduleError::UnknownPageClass { document: a, class: b },
                ScheduleError::UnknownPageClass { document: c, class: d },
            ) => str_eq(a.as_str(), c.as_str()) && b.eq(d),
            _ => false,
        }
    }
}

impl vstd::std_specs::cmp::PartialEqSpecImpl for ScheduleError {
    open spec fn obeys_eq_spec() -> bool {
        true
    }

    open spec fn eq_spec(&self, other: &Self) -> bool {
        self@ == other@
    }
}

impl Eq for ScheduleError {
}

proof fn lemma_concat_contains<A>(a: Seq<A>, b: Seq<A>, x: A)
    ensures
        (a + b).contains(x) <==> (a.contains(x) || b.contains(x)),
{
    if (a + b).contains(x) {
        let k = choose|k: int| 0 <= k < (a + b).len() && (a + b)[k] == x;
        if k < a.len() {
            assert(a[k] == x);
        } else {
            assert(b[k - a.len()] == x);
        }
    }
    if a.contains(x) {
        let k = choose|k: int| 0 <= k < a.len() && a[k] == x;
        assert((a + b)[k] == x);
    }
    if b.contains(x) {
        let k = choose|k: int| 0 <= k < b.len() && b[k] == x;
        assert((a + b)[k + a.len()] == x);
    }
}

proof fn lemma_doc_pages(class: Seq<char>, d: int, row: Seq<Option<Seq<char>>>, upto: int, x: Placement)
    requires
        upto <= row.len(),
    ensures
        doc_pages(class, d, row, upto).contains(x) <==> (x.0 == d && 0 <= x.1 < upto && row[x.1]
            == Some(class) && x.2 == class),
    decreases upto,
{
    if upto > 0 {
        let prev = doc_pages(class, d, row, upto - 1);
        lemma_doc_pages(class, d, row, upto - 1, x);
        if row[upto - 1] == Some(class) {
            let y = (d, upto - 1, class);
            if prev.push(y).contains(x) {
                let k = choose|k: int| 0 <= k < prev.push(y).len() && prev.push(y)[k] == x;
                if k < prev.len() {
                    assert(prev[k] == x);
                }
            }
            if prev.contains(x) {
                let k = choose|k: int| 0 <= k < prev.len() && prev[k] == x;
                assert(prev.push(y)[k] == x);
            }
            if x == y {
                assert(prev.push(y)[prev.len() as int] == x);
            }
        }
    }
}

proof fn lemma_class_pages(class: Seq<char>, rows: Seq<Seq<Option<Seq<char>>>>, upto: int, x: Placement)
    requires
        upto <= rows.len(),
    ensures
        class_pages(class, rows, upto).contains(x) <==> (0 <= x.0 < upto && 0 <= x.1 < rows[x.0].len()
            && rows[x.0][x.1] == Some(class) && x.2 == class),
    decreases upto,
{
    if upto > 0 {
        let prev = class_pages(class, rows, upto - 1);
        let here = doc_pages(class, upto - 1, rows[upto - 1], rows[upto - 1].len() as int);
        lemma_class_pages(class, rows, upto - 1, x);
        lemma_doc_pages(class, upto - 1, rows[upto - 1], rows[upto - 1].len() as int, x);
        lemma_concat_contains(prev, here, x);
    }
}

proof fn lemma_step_pages(step: Seq<Seq<char>>, rows: Seq<Seq<Option<Seq<char>>>>, upto: int, x: Placement)
    requires
        0 <= upto <= step.len(),
    ensures
        step_pages(step, rows, upto).contains(x) <==> (step.take(upto).contains(x.2) && 0 <= x.0
            < rows.len() && 0 <= x.1 < rows[x.0].len() && rows[x.0][x.1] == Some(x.2)),
    decreases upto,
{
    if upto <= 0 {
        assert(step.take(upto) =~= Seq::<Seq<char>>::empty());
    } else {
        let prev = step_pages(step, rows, upto - 1);
        let here = class_pages(step[upto - 1], rows, rows.len() as int);
        lemma_step_pages(step, rows, upto - 1, x);
        lemma_class_pages(step[upto - 1], rows, rows.len() as int, x);
        lemma_concat_contains(prev, here, x);
        assert(step.take(upto) =~= step.take(upto - 1).push(step[upto - 1]));
        let t = step.take(upto);
        let t0 = step.take(upto - 1);
        if t.contains(x.2) && !t0.contains(x.2) {
            let k = choose|k: int| 0 <= k < t.len() && t[k] == x.2;
            if k < upto - 1 {
                assert(t0[k] == x.2);
            }
        }
        if t0.contains(x.2) {
            let k = choose|k: int| 0 <= k < t0.len() && t0[k] == x.2;
            assert(t[k] == x.2);
        }
        if x.2 == step[upto - 1] {
            assert(t[upto - 1] == x.2);
        }
    }
}

/// `x` comes before `y` in document order: an earlier document, or the same document and an
/// earlier page.
pub open spec fn placed_before(x: Placement, y: Placement) -> bool {
    x.0 < y.0 || (x.0 == y.0 && x.1 < y.1)
}

proof fn lemma_doc_pages_order(class: Seq<char>, d: int, row: Seq<Option<Seq<char>>>, upto: int)
    ensures
        forall|k: int|
            0 <= k < doc_pages(class, d, row, upto).len() ==> (#[trigger] doc_pages(class, d, row, upto)[k]).0
                == d && doc_pages(class, d, row, upto)[k].2 == class && 0 <= doc_pages(class, d, row, upto)[k].1
                < upto,
        forall|a: int, b: int|
            0 <= a < b < doc_pages(class, d, row, upto).len() ==> (#[trigger] doc_pages(class, d, row, upto)[a]).1
                < (#[trigger] doc_pages(class, d, row, upto)[b]).1,
    decreases upto,
{
    if upto > 0 {
        lemma_doc_pages_order(class, d, row, upto - 1);
        let prev = doc_pages(class, d, row, upto - 1);
        if row[upto - 1] == Some(class) {
            let r = prev.push((d, upto - 1, class));
            assert forall|k: int| 0 <= k < r.len() implies (#[trigger] r[k]).0 == d && r[k].2 == class && 0
                <= r[k].1 < upto by {
                if k < prev.len() {
                    assert(r[k] == prev[k]);
                }
            }
            assert forall|a: int, b: int| 0 <= a < b < r.len() implies (#[trigger] r[a]).1 < (
            #[trigger] r[b]).1 by {
                assert(r[a] == prev[a]);
                if b < prev.len() {
                    assert(r[b] == prev[b]);
                }
            }
        }
    }
}

proof fn lemma_class_pages_order(class: Seq<char>, rows: Seq<Seq<Option<Seq<char>>>>, upto: int)
    ensures
        forall|k: int|
            0 <= k < class_pages(class, rows, upto).len() ==> (#[trigger] class_pages(class, rows, upto)[k]).2
                == class && 0 <= class_pages(class, rows, upto)[k].0 < upto,
        forall|a: int, b: int|
            0 <= a < b < class_pages(class, rows, upto).len() ==> placed_before(
                #[trigger] class_pages(class, rows, upto)[a],
                #[trigger] class_pages(class, rows, upto)[b],
            ),
    decreases upto,
{
    if upto > 0 {
        lemma_class_pages_order(class, rows, upto - 1);
        let prev = class_pages(class, rows, upto - 1);
        let here = doc_pages(class, upto - 1, rows[upto - 1], rows[upto - 1].len() as int);
        lemma_doc_pages_order(class, upto - 1, rows[upto - 1], rows[upto - 1].len() as int);
        let r = prev + here;
        assert forall|k: int| 0 <= k < r.len() implies (#[trigger] r[k]).2 == class && 0 <= r[k].0
            < upto by {
            if k < prev.len() {
                assert(r[k] == prev[k]);
            } else {
                assert(r[k] == here[k - prev.len()]);
            }
        }
        assert forall|a: int, b: int| 0 <= a < b < r.len() implies placed_before(
            #[trigger] r[a],
            #[trigger] r[b],
        ) by {
            if b < prev.len() {
                assert(r[a] == prev[a] && r[b] == prev[b]);
            } else if a < prev.len() {
                assert(r[a] == prev[a] && r[b] == here[b - prev.len()]);
            } else {
                assert(r[a] == here[a - prev.len()] && r[b] == here[b - prev.len()]);
            }
        }
    }
}

proof fn lemma_step_pages_order(step: Seq<Seq<char>>, rows: Seq<Seq<Option<Seq<char>>>>, upto: int)
    requires
        step.no_duplicates(),
        0 <= upto <= step.len(),
    ensures
        forall|k: int|
            0 <= k < step_pages(step, rows, upto).len() ==> exists|c: int|
                0 <= c < upto && step[c] == (#[trigger] step_pages(step, rows, upto)[k]).2,
        forall|a: int, b: int|
            0 <= a < b < step_pages(step, rows, upto).len() ==> {
                let x = #[trigger] step_pages(step, rows, upto)[a];
                let y = #[trigger] step_pages(step, rows, upto)[b];
                &&& x.2 == y.2 ==> placed_before(x, y)
                &&& x.2 != y.2 ==> exists|cx: int, cy: int|
                    0 <= cx < cy < upto && step[cx] == x.2 && step[cy] == y.2
            },
    decreases upto,
{
    if upto > 0 {
        lemma_step_pages_order(step, rows, upto - 1);
        let prev = step_pages(step, rows, upto - 1);
        let c = step[upto - 1];
        let here = class_pages(c, rows, rows.len() as int);
        lemma_class_pages_order(c, rows, rows.len() as int);
        let r = prev + here;
        assert forall|k: int| 0 <= k < r.len() implies exists|cc: int|
            0 <= cc < upto && step[cc] == (#[trigger] r[k]).2 by {
            if k < prev.len() {
                assert(r[k] == prev[k]);
            } else {
                assert(r[k] == here[k - prev.len()]);
                assert(step[upto - 1] == r[k].2);
            }
        }
        assert forall|a: int, b: int| 0 <= a < b < r.len() implies {
            let x = #[trigger] r[a];
            let y = #[trigger] r[b];
            &&& x.2 == y.2 ==> placed_before(x, y)
            &&& x.2 != y.2 ==> exists|cx: int, cy: int|
                0 <= cx < cy < upto && step[cx] == x.2 && step[cy] == y.2
        } by {
            if b < prev.len() {
                assert(r[a] == prev[a] && r[b] == prev[b]);
            } else if a < prev.len() {
                assert(r[a] == prev[a] && r[b] == here[b - prev.len()]);
                let cx = choose|cx: int| 0 <= cx < upto - 1 && step[cx] == prev[a].2;
                assert(step[cx] != step[upto - 1]);
                assert(r[b].2 == step[upto - 1]);
                assert(0 <= cx < upto - 1 < upto && step[cx] == r[a].2 && step[upto - 1] == r[b].2);
            } else {
                assert(r[a] == here[a - prev.len()] && r[b] == here[b - prev.len()]);
            }
        }
    }
}

/// Within a step, pages come class by class in the step's order, and the pages of one class
/// document by document in the order given, each document's pages in page order: of two
/// scheduled pages of the same class, the earlier one belongs to an earlier document, or to the
/// same document at an earlier page; of two pages of different classes, the earlier one's class
/// comes earlier in the step.
pub proof fn law_step_pages_come_in_class_then_document_then_page_order(
    schedule: Seq<Seq<Seq<char>>>,
    docs: Seq<(Seq<char>, nat)>,
    rows: Seq<Seq<Option<Seq<char>>>>,
    s: int,
    i: int,
    j: int,
)
    requires
        assignment(schedule, docs, rows) is Ok,
        0 <= s < schedule.len(),
        schedule[s].no_duplicates(),
        0 <= i < j < assignment(schedule, docs, rows)->Ok_0[s].len(),
    ensures
        ({
            let x = assignment(schedule, docs, rows)->Ok_0[s][i];
            let y = assignment(schedule, docs, rows)->Ok_0[s][j];
            &&& x.2 == y.2 ==> x.0 < y.0 || (x.0 == y.0 && x.1 < y.1)
            &&& x.2 != y.2 ==> exists|cx: int, cy: int|
                0 <= cx < cy < schedule[s].len() && schedule[s][cx] == x.2 && schedule[s][cy] == y.2
        }),
{
    let step = schedule[s];
    lemma_step_pages_order(step, rows, step.len() as int);
    let pages = step_pages(step, rows, step.len() as int);
    assert(assignment(schedule, docs, rows)->Ok_0[s] == pages);
    let x = pages[i];
    let y = pages[j];
    assert(x.2 == y.2 ==> placed_before(x, y));
}

/// A page lands in a step exactly when it is classified with a class that step names: every
/// scheduled page carries its own classification and a class of its step, no classified page of
/// such a class is left out, and an unclassified page enters no step.
pub proof fn law_step_holds_exactly_its_classes_pages(
    schedule: Seq<Seq<Seq<char>>>,
    rows: Seq<Seq<Option<Seq<char>>>>,
    s: int,
    x: Placement,
)
    requires
        0 <= s < schedule.len(),
    ensures
        schedule_pages(schedule, rows)[s].contains(x) <==> (schedule[s].contains(x.2) && 0 <= x.0
            < rows.len() && 0 <= x.1 < rows[x.0].len() && rows[x.0][x.1] == Some(x.2)),
{
    lemma_step_pages(schedule[s], rows, schedule[s].len() as int, x);
    assert(schedule[s].take(schedule[s].len() as int) =~= schedule[s]);
}

} // verus!
