use freeports::algorithm::{
    check_classification_count, check_configuration, class_groups, take_page_contributions,
    AlgorithmError, Contribution, PageContributions, PageResults, PageRun, StepData, StepRun,
};
use freeports::pipeline::PipelineName;
use freeports::schedule::{PageClass, Schedule, ScheduleStep, ScheduledPage};

fn names(list: &[&str]) -> Vec<PipelineName> {
    list.iter().map(|n| PipelineName::new(n)).collect()
}

fn step(classes: &[&str]) -> ScheduleStep {
    let mut step = ScheduleStep::new();
    for class in classes {
        step.push(class);
    }
    step
}

fn schedule(steps: &[&[&str]]) -> Schedule {
    Schedule::new(steps.iter().map(|s| step(s)).collect())
}

fn mapping(entries: &[(&str, &[&str])]) -> Vec<(PageClass, Vec<PipelineName>)> {
    entries.iter().map(|(class, pipelines)| (PageClass::new(class), names(pipelines))).collect()
}

fn as_strs(list: &[PipelineName]) -> Vec<&str> {
    list.iter().map(|n| n.as_str()).collect()
}

fn class(name: &str) -> Option<PageClass> {
    Some(PageClass::new(name))
}

fn scheduled(doc_index: usize, page_index: usize, class: &str) -> ScheduledPage {
    ScheduledPage { doc_index, page_index, class: PageClass::new(class) }
}

#[test]
fn a_consistent_configuration_is_accepted() {
    let r = check_configuration(
        &names(&["classify", "work"]),
        &names(&["classify"]),
        &schedule(&[&["a"]]),
        &mapping(&[("a", &["work"])]),
    );
    assert!(r.is_ok());
}

#[test]
fn a_page_classify_pipeline_without_implementation_is_rejected() {
    let r = check_configuration(
        &names(&["work"]),
        &names(&["ghost"]),
        &schedule(&[&["a"]]),
        &mapping(&[("a", &["work"])]),
    );
    match r {
        Err(AlgorithmError::UnknownPageClassifyPipelines { unknown }) => {
            assert_eq!(as_strs(&unknown), vec!["ghost"]);
        },
        other => panic!("unexpected {other:?}"),
    }
}

#[test]
fn a_page_class_in_the_schedule_but_not_in_the_mapping_is_rejected() {
    let r = check_configuration(
        &names(&["classify", "work"]),
        &names(&["classify"]),
        &schedule(&[&["a", "b"]]),
        &mapping(&[("a", &["work"])]),
    );
    match r {
        Err(AlgorithmError::ScheduleMappingMismatch { difference }) => {
            let classes: Vec<&str> = difference.iter().map(|c| c.as_str()).collect();
            assert_eq!(classes, vec!["b"]);
        },
        other => panic!("unexpected {other:?}"),
    }
}

#[test]
fn a_page_class_in_the_mapping_but_not_in_the_schedule_is_rejected() {
    let r = check_configuration(
        &names(&["classify", "work"]),
        &names(&["classify"]),
        &schedule(&[&["a"]]),
        &mapping(&[("a", &["work"]), ("b", &["work"])]),
    );
    match r {
        Err(AlgorithmError::ScheduleMappingMismatch { difference }) => {
            let classes: Vec<&str> = difference.iter().map(|c| c.as_str()).collect();
            assert_eq!(classes, vec!["b"]);
        },
        other => panic!("unexpected {other:?}"),
    }
}

#[test]
fn a_pipeline_implementation_nobody_uses_is_rejected() {
    let r = check_configuration(
        &names(&["classify", "idle", "work"]),
        &names(&["classify"]),
        &schedule(&[&["a"]]),
        &mapping(&[("a", &["work"])]),
    );
    match r {
        Err(AlgorithmError::PipelineNamesMismatch { unmapped, unused }) => {
            assert!(unmapped.is_empty());
            assert_eq!(as_strs(&unused), vec!["idle"]);
        },
        other => panic!("unexpected {other:?}"),
    }
}

#[test]
fn a_mapped_pipeline_without_implementation_is_rejected() {
    let r = check_configuration(
        &names(&["classify"]),
        &names(&["classify"]),
        &schedule(&[&["a"]]),
        &mapping(&[("a", &["ghost"])]),
    );
    match r {
        Err(AlgorithmError::PipelineNamesMismatch { unmapped, unused }) => {
            assert_eq!(as_strs(&unmapped), vec!["ghost"]);
            assert!(unused.is_empty());
        },
        other => panic!("unexpected {other:?}"),
    }
}

#[test]
fn a_pipeline_may_serve_both_classification_and_a_page_class() {
    let r = check_configuration(
        &names(&["both"]),
        &names(&["both"]),
        &schedule(&[&["a"]]),
        &mapping(&[("a", &["both"])]),
    );
    assert!(r.is_ok());
}

#[test]
fn the_checks_run_in_order_and_the_first_failure_is_reported() {
    // Both an unknown classifier and a schedule mismatch: the classifier is reported.
    let r = check_configuration(
        &names(&["work"]),
        &names(&["ghost"]),
        &schedule(&[&["a", "b"]]),
        &mapping(&[("a", &["work"])]),
    );
    assert!(matches!(r, Err(AlgorithmError::UnknownPageClassifyPipelines { .. })));
}

#[test]
fn a_page_whose_classification_failed_gets_no_class() {
    let mut raw = vec![class("a")];
    assert!(take_page_contributions(&mut raw, "d", 2, PageContributions::Failed).is_ok());
    assert_eq!(raw, vec![class("a"), None]);
}

#[test]
fn every_contribution_of_a_page_is_kept_in_order() {
    let mut raw = Vec::new();
    let contributions = PageContributions::Produced(vec![
        Contribution::PageClass(class("a")),
        Contribution::PageClass(None),
        Contribution::PageClass(class("b")),
    ]);
    assert!(take_page_contributions(&mut raw, "d", 1, contributions).is_ok());
    assert_eq!(raw, vec![class("a"), None, class("b")]);
}

#[test]
fn a_non_classification_result_from_a_classify_pipeline_is_an_error() {
    let mut raw = Vec::new();
    let contributions = PageContributions::Produced(vec![
        Contribution::PageClass(class("a")),
        Contribution::Other("Promises(..)".to_string()),
    ]);
    match take_page_contributions(&mut raw, "doc", 4, contributions) {
        Err(AlgorithmError::NotAPageClassification { document, page, found }) => {
            assert_eq!(document, "doc");
            assert_eq!(page, 4);
            assert_eq!(found, "Promises(..)");
        },
        other => panic!("unexpected {other:?}"),
    }
}

#[test]
fn one_classification_per_page_is_required_after_the_finalizer() {
    match check_classification_count("d", 2, vec![class("a")]) {
        Err(AlgorithmError::ClassificationCountMismatch { document, pages, classifications }) => {
            assert_eq!(document, "d");
            assert_eq!(pages, 2);
            assert_eq!(classifications, 1);
        },
        other => panic!("unexpected {other:?}"),
    }
}

#[test]
fn a_matching_count_hands_the_classification_back() {
    let classified = check_classification_count("d", 2, vec![class("a"), None]).unwrap();
    assert_eq!(classified, vec![class("a"), None]);
}

#[test]
fn a_document_with_no_pages_classifies_to_nothing() {
    assert_eq!(check_classification_count("d", 0, Vec::new()).unwrap(), Vec::<Option<PageClass>>::new());
}

#[test]
fn the_pages_of_a_step_group_by_contiguous_class() {
    let pages = vec![
        scheduled(0, 0, "a"),
        scheduled(1, 3, "a"),
        scheduled(0, 1, "b"),
        scheduled(0, 2, "a"),
    ];
    assert_eq!(class_groups(&pages), vec![(0, 2), (2, 3), (3, 4)]);
}

#[test]
fn an_empty_step_has_no_groups() {
    assert!(class_groups(&Vec::new()).is_empty());
}

#[test]
fn a_single_class_step_is_one_group() {
    let pages = vec![scheduled(0, 0, "a"), scheduled(0, 1, "a"), scheduled(0, 2, "a")];
    assert_eq!(class_groups(&pages), vec![(0, 3)]);
}

#[test]
fn the_pages_of_an_outcome_are_ordered_by_page_number() {
    let mut results: PageResults<u32> = PageResults::new(1);
    results.record(0, 5, &PageClass::new("a"), vec![50]);
    results.record(0, 2, &PageClass::new("b"), vec![20]);
    results.record(0, 9, &PageClass::new("a"), vec![90]);
    let outcomes = results.into_outcomes();
    let pages: Vec<u32> = outcomes[0].iter().map(|e| e.page).collect();
    assert_eq!(pages, vec![2, 5, 9]);
}

#[test]
fn a_page_class_named_by_two_steps_keeps_the_results_of_both() {
    let mut results: PageResults<u32> = PageResults::new(1);
    results.record(0, 1, &PageClass::new("a"), vec![1, 2]);
    results.record(0, 1, &PageClass::new("b"), vec![3]);
    let outcomes = results.into_outcomes();
    assert_eq!(outcomes[0].len(), 1);
    assert_eq!(outcomes[0][0].class, PageClass::new("a"));
    assert_eq!(outcomes[0][0].results, vec![1, 2, 3]);
}

#[test]
fn each_document_gets_its_own_outcome_in_input_order() {
    let mut results: PageResults<u32> = PageResults::new(3);
    results.record(2, 1, &PageClass::new("a"), vec![7]);
    results.record(0, 1, &PageClass::new("a"), vec![8]);
    let outcomes = results.into_outcomes();
    assert_eq!(outcomes.len(), 3);
    assert_eq!(outcomes[0][0].results, vec![8]);
    assert!(outcomes[1].is_empty());
    assert_eq!(outcomes[2][0].results, vec![7]);
}

#[test]
fn no_documents_yields_no_outcomes() {
    let results: PageResults<u32> = PageResults::new(0);
    assert!(results.into_outcomes().is_empty());
}

#[test]
fn a_page_that_produced_nothing_still_has_an_entry() {
    let mut results: PageResults<u32> = PageResults::new(1);
    results.record(0, 3, &PageClass::new("a"), Vec::new());
    let outcomes = results.into_outcomes();
    assert_eq!(outcomes[0].len(), 1);
    assert_eq!(outcomes[0][0].page, 3);
    assert!(outcomes[0][0].results.is_empty());
}

fn previous_of(run: &StepRun<u32>) -> Option<Vec<u32>> {
    match run.data() {
        StepData::TargetCompanies => None,
        StepData::Previous(results) => Some(results.to_vec()),
    }
}

#[test]
fn the_first_step_sees_the_target_companies_and_the_next_one_sees_the_results() {
    let mut run: StepRun<u32> = StepRun::new(1);
    assert_eq!(previous_of(&run), None);
    run.take_page(0, 1, &PageClass::new("a"), PageRun::Produced(vec![10, 11]));
    run.finish_step();
    assert_eq!(previous_of(&run), Some(vec![10, 11]));
}

#[test]
fn the_results_of_all_earlier_steps_accumulate_not_just_the_last_one() {
    let mut run: StepRun<u32> = StepRun::new(1);
    run.take_page(0, 1, &PageClass::new("a"), PageRun::Produced(vec![1]));
    run.finish_step();
    run.take_page(0, 2, &PageClass::new("b"), PageRun::Produced(vec![2]));
    run.finish_step();
    assert_eq!(previous_of(&run), Some(vec![1, 2]));
}

#[test]
fn pages_of_the_same_step_do_not_see_each_others_results() {
    let mut run: StepRun<u32> = StepRun::new(1);
    run.take_page(0, 1, &PageClass::new("a"), PageRun::Produced(vec![1]));
    run.finish_step();
    let before = previous_of(&run);
    run.take_page(0, 2, &PageClass::new("b"), PageRun::Produced(vec![2]));
    run.take_page(0, 3, &PageClass::new("b"), PageRun::Produced(vec![3]));
    assert_eq!(previous_of(&run), before);
}

#[test]
fn a_page_failure_is_absorbed_and_the_page_keeps_an_empty_outcome() {
    let mut run: StepRun<u32> = StepRun::new(1);
    run.take_page(0, 1, &PageClass::new("a"), PageRun::Failed);
    run.take_page(0, 2, &PageClass::new("a"), PageRun::Produced(vec![5]));
    run.finish_step();
    assert_eq!(run.skipped(), 1);
    assert_eq!(previous_of(&run), Some(vec![5]));
    let outcomes = run.into_outcomes();
    assert_eq!(outcomes[0].len(), 2);
    assert_eq!(outcomes[0][0].page, 1);
    assert!(outcomes[0][0].results.is_empty());
    assert_eq!(outcomes[0][1].results, vec![5]);
}

#[test]
fn a_document_whose_every_page_fails_still_produces_an_outcome() {
    let mut run: StepRun<u32> = StepRun::new(2);
    run.take_page(1, 1, &PageClass::new("a"), PageRun::Failed);
    run.take_page(1, 2, &PageClass::new("a"), PageRun::Failed);
    run.finish_step();
    assert_eq!(run.skipped(), 2);
    let outcomes = run.into_outcomes();
    assert_eq!(outcomes.len(), 2);
    assert!(outcomes[0].is_empty());
    assert_eq!(outcomes[1].len(), 2);
}

#[test]
fn the_first_step_sees_no_previous_results_and_a_later_one_sees_them() {
    let mut run: StepRun<u32> = StepRun::new(1);
    assert!(run.data().previous().is_empty());
    run.take_page(0, 1, &PageClass::new("a"), PageRun::Produced(vec![4]));
    run.finish_step();
    assert_eq!(run.data().previous(), &[4]);
}
