use freeports::formats_repo::{
    check_known_format, check_pipelines_complete, load_pipelines_from, merge_levels, LoadError,
};
use freeports::pipeline::Pipeline;
use std::sync::Arc;

/// A stand-in pipe: only its name matters here.
#[derive(Debug)]
struct Pipe(&'static str);

type TestPipeline = Pipeline<Pipe, Pipe, Pipe>;

fn pipeline(name: &str, extract: bool, filter: bool, deserialize: bool) -> TestPipeline {
    let mut p = Pipeline::new(name);
    if extract {
        p.pdf_extract.push(Arc::new(Pipe("extract")));
    }
    if filter {
        p.text_filter.push(Arc::new(Pipe("filter")));
    }
    if deserialize {
        p.deserialize.push(Arc::new(Pipe("deserialize")));
    }
    p
}

fn formats(names: &[&str]) -> Vec<String> {
    names.iter().map(|n| n.to_string()).collect()
}

#[test]
fn a_declared_format_is_accepted() {
    assert!(check_known_format(&formats(&["anima", "eurizon"]), "eurizon").is_ok());
}

#[test]
fn an_undeclared_format_is_refused_with_the_count_of_declared_ones() {
    match check_known_format(&formats(&["anima", "eurizon", "fideuram"]), "kairos") {
        Err(LoadError::UnknownFormat { format, known }) => {
            assert_eq!(format, "kairos");
            assert_eq!(known, 3);
        }
        other => panic!("unexpected {other:?}"),
    }
    let err = check_known_format(&Vec::new(), "anima").unwrap_err();
    assert_eq!(err.to_string(), "unknown format 'anima'; the repository declares 0 format(s)");
}

#[test]
fn the_format_name_is_matched_exactly() {
    assert!(check_known_format(&formats(&["anima"]), "Anima").is_err());
    assert!(check_known_format(&formats(&["anima"]), "anima ").is_err());
}

#[test]
fn complete_pipelines_pass() {
    let ps = vec![pipeline("a", true, true, true), pipeline("", true, true, true)];
    assert!(check_pipelines_complete(&ps, false).is_ok());
    assert!(check_pipelines_complete(&Vec::<TestPipeline>::new(), false).is_ok());
}

#[test]
fn the_incomplete_pipeline_reported_is_the_first_by_name() {
    let ps = vec![
        pipeline("zeta", true, false, true),
        pipeline("beta", false, true, false),
        pipeline("alpha", true, true, true),
        pipeline("gamma", true, true, false),
    ];
    match check_pipelines_complete(&ps, false) {
        Err(LoadError::IncompletePipeline { pipeline, missing }) => {
            assert_eq!(pipeline, "beta");
            assert_eq!(missing, "pdf_extract, deserialize");
        }
        other => panic!("unexpected {other:?}"),
    }
    let err = check_pipelines_complete(&ps, false).unwrap_err();
    assert_eq!(err.to_string(), "pipeline 'beta' is incomplete: missing the pdf_extract, deserialize segment(s)");
}

#[test]
fn partial_pipelines_are_let_through_when_allowed() {
    let ps = vec![pipeline("only_extract", true, false, false)];
    assert!(check_pipelines_complete(&ps, true).is_ok());
    assert!(check_pipelines_complete(&ps, false).is_err());
}

fn segment_names<P: std::ops::Deref<Target = Pipe>>(pipes: impl Iterator<Item = P>) -> Vec<&'static str> {
    pipes.map(|p| p.0).collect()
}

fn with_pipes(name: &str, extract: &[&'static str], filter: &[&'static str], deserialize: &[&'static str]) -> TestPipeline {
    let mut p = Pipeline::new(name);
    for e in extract {
        p.pdf_extract.push(Arc::new(Pipe(e)));
    }
    for f in filter {
        p.text_filter.push(Arc::new(Pipe(f)));
    }
    for d in deserialize {
        p.deserialize.push(Arc::new(Pipe(d)));
    }
    p
}

#[test]
fn the_levels_add_up_by_name_in_level_order() {
    let structured = vec![with_pipes("holdings", &["table"], &[], &[]), with_pipes("fund", &["header"], &["strip"], &["name"])];
    let semistructured = vec![with_pipes("holdings", &["yaml_extract"], &["rows", "totals"], &[])];
    let unstructured = vec![with_pipes("holdings", &[], &[], &["python"]), with_pipes("appendix", &["x"], &["y"], &["z"])];
    let merged = merge_levels(&vec![structured, semistructured, unstructured]);
    let names: Vec<&str> = merged.iter().map(|p| p.name.as_str()).collect();
    assert_eq!(names, vec!["appendix", "fund", "holdings"]);
    let holdings = &merged[2];
    assert_eq!(segment_names(holdings.pdf_extract.iter().cloned()), vec!["table", "yaml_extract"]);
    assert_eq!(segment_names(holdings.text_filter.iter().cloned()), vec!["rows", "totals"]);
    assert_eq!(segment_names(holdings.deserialize.iter().cloned()), vec!["python"]);
    assert_eq!(segment_names(merged[1].pdf_extract.iter().cloned()), vec!["header"]);
}

#[test]
fn a_pipe_shared_by_two_levels_runs_once() {
    let shared = Arc::new(Pipe("shared"));
    let mut a = Pipeline::new("p");
    a.pdf_extract.push(shared.clone());
    let mut b = Pipeline::new("p");
    b.pdf_extract.push(Arc::new(Pipe("other")));
    b.pdf_extract.push(shared);
    let merged: Vec<TestPipeline> = merge_levels(&vec![vec![a], vec![b]]);
    assert_eq!(merged.len(), 1);
    assert_eq!(segment_names(merged[0].pdf_extract.iter().cloned()), vec!["shared", "other"]);
}

#[test]
fn loading_merges_then_checks_completeness() {
    let levels = vec![
        vec![with_pipes("a", &["e"], &[], &[])],
        vec![with_pipes("a", &[], &["f"], &[])],
        vec![with_pipes("a", &[], &[], &["d"]), with_pipes("b", &["e"], &[], &[])],
    ];
    match load_pipelines_from(&levels, false) {
        Err(LoadError::IncompletePipeline { pipeline, missing }) => {
            assert_eq!(pipeline, "b");
            assert_eq!(missing, "text_filter, deserialize");
        }
        _ => panic!("expected the incomplete pipeline b"),
    }
    let partial = load_pipelines_from(&levels, true).unwrap();
    assert_eq!(partial.len(), 2);
    let only_a: Vec<Vec<TestPipeline>> = levels
        .iter()
        .map(|level| level.iter().filter(|p| p.name.as_str() == "a").map(|p| p.duplicate()).collect())
        .collect();
    let complete = load_pipelines_from(&only_a, false).unwrap();
    assert_eq!(complete.len(), 1);
    assert!(complete[0].is_complete());
}

#[test]
fn union_keeps_the_order_of_the_appended_pipes() {
    let mut left = Pipeline::<Pipe, Pipe, Pipe>::new("p");
    left.text_filter.push(Arc::new(Pipe("first")));
    let mut right = Pipeline::new("q");
    right.text_filter.push(Arc::new(Pipe("second")));
    right.text_filter.push(Arc::new(Pipe("third")));
    right.text_filter.push(Arc::new(Pipe("fourth")));
    let sum = left.add(right);
    assert_eq!(sum.name.as_str(), "p");
    assert_eq!(segment_names(sum.text_filter.iter().cloned()), vec!["first", "second", "third", "fourth"]);
}
