use freeports::schedule::{DocumentOutline, PageClass, Schedule, ScheduleError, ScheduleStep, ScheduledPage};

fn doc(id: &str, n_pages: usize) -> DocumentOutline {
    DocumentOutline::new(id, n_pages)
}

fn step(classes: &[&str]) -> ScheduleStep {
    let mut s = ScheduleStep::new();
    for class in classes {
        s.push(class);
    }
    s
}

/// `[a] -> [b]`: two steps, one class each.
fn two_step_schedule() -> Schedule {
    Schedule::new(vec![step(&["a"]), step(&["b"])])
}

fn class(name: &str) -> Option<PageClass> {
    Some(PageClass::new(name))
}

/// `(document id, page number)` for every scheduled page, step by step; page numbers are 1-based.
fn shape(docs: &[DocumentOutline], scheduled: &[Vec<ScheduledPage>]) -> Vec<Vec<(String, usize)>> {
    scheduled
        .iter()
        .map(|step| step.iter().map(|s| (docs[s.doc_index].id.clone(), s.page_index + 1)).collect())
        .collect()
}

#[test]
fn round_trips_through_its_accessor() {
    assert_eq!(PageClass::new("investments").as_str(), "investments");
}

#[test]
fn displays_as_its_bare_string() {
    assert_eq!(PageClass::new("investments").to_string(), "investments");
}

#[test]
fn schedule_is_built_from_both_str_and_string() {
    assert_eq!(PageClass::new("x"), PageClass::new(&"x".to_string()));
}

#[test]
fn keeps_insertion_order_rather_than_sorting() {
    let s = step(&["zulu", "alpha"]);
    let names: Vec<&str> = s.iter().map(PageClass::as_str).collect();
    assert_eq!(names, vec!["zulu", "alpha"]);
}

#[test]
fn deduplicates_and_reports_that_it_did() {
    let mut s = ScheduleStep::new();
    assert!(s.push("a"));
    assert!(!s.push("a"));
    assert_eq!(s.len(), 1);
}

#[test]
fn schedule_a_duplicate_does_not_move_the_original_to_the_back() {
    let mut s = step(&["a", "b"]);
    s.push("a");
    let names: Vec<&str> = s.iter().map(PageClass::as_str).collect();
    assert_eq!(names, vec!["a", "b"]);
}

#[test]
fn an_empty_step_is_legal() {
    let s = ScheduleStep::new();
    assert!(s.is_empty());
    assert_eq!(s.len(), 0);
}

#[test]
fn reports_whether_it_contains_a_class() {
    let s = step(&["a"]);
    assert!(s.contains(&PageClass::new("a")));
    assert!(!s.contains(&PageClass::new("b")));
}

#[test]
fn collects_the_page_classes_of_every_step() {
    let s = Schedule::new(vec![step(&["b", "a"]), step(&["c"])]);
    let page_classes = s.page_classes();
    let classes: Vec<&str> = page_classes.iter().map(PageClass::as_str).collect();
    assert_eq!(classes, vec!["a", "b", "c"]);
}

#[test]
fn a_class_repeated_across_steps_is_collected_once() {
    let s = Schedule::new(vec![step(&["a"]), step(&["a"])]);
    assert_eq!(s.page_classes().len(), 1);
}

#[test]
fn an_empty_schedule_has_no_page_classes() {
    let s = Schedule::default();
    assert!(s.is_empty());
    assert!(s.page_classes().is_empty());
}

#[test]
fn reports_whether_any_step_names_a_class() {
    let s = two_step_schedule();
    assert!(s.contains(&PageClass::new("b")));
    assert!(!s.contains(&PageClass::new("z")));
}

#[test]
fn each_page_lands_in_the_step_that_names_its_class() {
    let docs = vec![doc("d", 2)];
    let classes = vec![vec![class("a"), class("b")]];
    let scheduled = two_step_schedule().assign(&docs, &classes).unwrap();
    assert_eq!(shape(&docs, &scheduled), vec![vec![("d".into(), 1)], vec![("d".into(), 2)]]);
}

#[test]
fn an_unclassified_page_enters_no_step_and_is_not_an_error() {
    let docs = vec![doc("d", 2)];
    let classes = vec![vec![None, class("a")]];
    let scheduled = two_step_schedule().assign(&docs, &classes).unwrap();
    assert_eq!(shape(&docs, &scheduled), vec![vec![("d".into(), 2)], vec![]]);
}

#[test]
fn a_class_no_step_names_is_an_error() {
    let docs = vec![doc("d", 1)];
    let classes = vec![vec![class("zzz")]];
    let err = two_step_schedule().assign(&docs, &classes).unwrap_err();
    assert_eq!(
        err,
        ScheduleError::UnknownPageClass { document: "d".to_string(), class: PageClass::new("zzz") }
    );
}

#[test]
fn documents_are_visited_in_order_within_one_page_class() {
    let docs = vec![doc("first", 1), doc("second", 1)];
    let classes = vec![vec![class("a")], vec![class("a")]];
    let scheduled = Schedule::new(vec![step(&["a"])]).assign(&docs, &classes).unwrap();
    assert_eq!(shape(&docs, &scheduled), vec![vec![("first".into(), 1), ("second".into(), 1)]]);
}

#[test]
fn page_classes_are_visited_in_step_order_not_alphabetically() {
    let docs = vec![doc("d", 2)];
    let classes = vec![vec![class("alpha"), class("zulu")]];
    let schedule = Schedule::new(vec![step(&["zulu", "alpha"])]);
    let scheduled = schedule.assign(&docs, &classes).unwrap();
    assert_eq!(shape(&docs, &scheduled), vec![vec![("d".into(), 2), ("d".into(), 1)]]);
}

#[test]
fn a_class_named_by_two_steps_schedules_the_page_twice() {
    let docs = vec![doc("d", 1)];
    let classes = vec![vec![class("a")]];
    let schedule = Schedule::new(vec![step(&["a"]), step(&["a"])]);
    let scheduled = schedule.assign(&docs, &classes).unwrap();
    assert_eq!(shape(&docs, &scheduled), vec![vec![("d".into(), 1)], vec![("d".into(), 1)]]);
}

#[test]
fn an_empty_step_schedules_nothing_without_disturbing_the_others() {
    let docs = vec![doc("d", 1)];
    let classes = vec![vec![class("a")]];
    let schedule = Schedule::new(vec![ScheduleStep::new(), step(&["a"])]);
    let scheduled = schedule.assign(&docs, &classes).unwrap();
    assert_eq!(shape(&docs, &scheduled), vec![vec![], vec![("d".into(), 1)]]);
}

#[test]
fn the_scheduled_page_carries_the_class_that_selected_it() {
    let docs = vec![doc("d", 1)];
    let classes = vec![vec![class("a")]];
    let scheduled = two_step_schedule().assign(&docs, &classes).unwrap();
    assert_eq!(scheduled[0][0].class, PageClass::new("a"));
}

#[test]
fn the_scheduled_page_carries_the_position_of_its_document() {
    let docs = vec![doc("same", 1), doc("same", 1)];
    let classes = vec![vec![class("a")], vec![class("a")]];
    let scheduled = Schedule::new(vec![step(&["a"])]).assign(&docs, &classes).unwrap();
    let indexes: Vec<usize> = scheduled[0].iter().map(|s| s.doc_index).collect();
    assert_eq!(indexes, vec![0, 1]);
}

#[test]
fn one_classification_list_per_document_is_required() {
    let docs = vec![doc("a", 1), doc("b", 1)];
    let classes = vec![vec![class("a")]];
    let err = two_step_schedule().assign(&docs, &classes).unwrap_err();
    assert_eq!(err, ScheduleError::ClassificationCountMismatch { documents: 2, classifications: 1 });
}

#[test]
fn one_classification_per_page_is_required() {
    let docs = vec![doc("d", 3)];
    let classes = vec![vec![class("a")]];
    let err = two_step_schedule().assign(&docs, &classes).unwrap_err();
    assert_eq!(
        err,
        ScheduleError::PageCountMismatch { document: "d".to_string(), pages: 3, classifications: 1 }
    );
}

#[test]
fn a_page_count_problem_comes_before_an_unknown_class_of_the_same_document() {
    let docs = vec![doc("d", 2)];
    let classes = vec![vec![class("zzz")]];
    let err = two_step_schedule().assign(&docs, &classes).unwrap_err();
    assert_eq!(
        err,
        ScheduleError::PageCountMismatch { document: "d".to_string(), pages: 2, classifications: 1 }
    );
}

#[test]
fn no_documents_yields_one_empty_bucket_per_step() {
    let scheduled = two_step_schedule().assign(&[], &[]).unwrap();
    assert_eq!(shape(&[], &scheduled), vec![Vec::new(), Vec::new()]);
}

#[test]
fn an_unknown_page_class_names_both_class_and_document() {
    let err = ScheduleError::UnknownPageClass {
        document: "report".to_string(),
        class: PageClass::new("ghost"),
    };
    assert_eq!(
        err.to_string(),
        "all pages have to enter the schedule at some point: `ghost` (document `report`) is not part of it"
    );
}

#[test]
fn a_page_count_mismatch_reports_both_counts() {
    let err = ScheduleError::PageCountMismatch {
        document: "report".to_string(),
        pages: 3,
        classifications: 2,
    };
    assert_eq!(
        err.to_string(),
        "document `report` has 3 pages but 2 classifications: every page has to be classified"
    );
}

#[test]
fn schedule_a_classification_count_mismatch_reports_both_counts() {
    let err = ScheduleError::ClassificationCountMismatch { documents: 2, classifications: 1 };
    assert_eq!(err.to_string(), "expected one classification list per document: 2 documents, 1 lists");
}

#[test]
fn a_large_count_is_written_in_full() {
    let err = ScheduleError::ClassificationCountMismatch { documents: 1203, classifications: 0 };
    assert_eq!(err.to_string(), "expected one classification list per document: 1203 documents, 0 lists");
}
