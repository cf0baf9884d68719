use freeports::parallelism::Parallelism;

#[test]
fn sequential_is_one_page_at_a_time() {
    assert_eq!(Parallelism::sequential().pages, 1);
    assert_eq!(Parallelism::default(), Parallelism::sequential());
}

#[test]
fn auto_is_never_zero() {
    assert!(Parallelism::auto(None).pages >= 1);
    assert!(Parallelism::auto(Some(0)).pages >= 1);
    assert_eq!(Parallelism::auto(Some(8)).pages, 8);
}

#[test]
fn zero_pages_means_sequential_not_zero_threads() {
    assert_eq!(Parallelism::pages(0), Parallelism::sequential());
}

#[test]
fn a_positive_request_is_kept_as_it_is() {
    assert_eq!(Parallelism::pages(4).pages, 4);
}

#[test]
fn sequential_never_distributes_however_much_work_there_is() {
    assert!(!Parallelism::sequential().is_worth_it(10_000));
}

#[test]
fn a_single_unit_of_work_is_never_distributed() {
    assert!(!Parallelism::pages(8).is_worth_it(1));
    assert!(!Parallelism::pages(8).is_worth_it(0));
}

#[test]
fn more_than_one_unit_with_more_than_one_thread_is_distributed() {
    assert!(Parallelism::pages(2).is_worth_it(2));
}
