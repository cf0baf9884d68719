use freeports::tracing_setup::fields::{fields_seen, CapturedFields, CoordsRecord, FieldVisitor, RecordVisitor};
use freeports::tracing_setup::format::{
    activity_path, format_event_field, quote_value, SpanLabel, SpanLabelVisitor, SpanValueFields,
    SpanPathFormat,
};
use freeports::tracing_setup::rows::{
    parse_u64, sort_rows, strip_csv_header, PageKey, PendingRow, CSV_HEADER,
};
use freeports::tracing_setup::{
    table_coords, ErrorRecord, EventLevelFilter, LogLevel, Verbosity, MAX_ERROR_DEPTH, SPAN_LEVEL,
};

fn values(items: &[&str]) -> Vec<String> {
    items.iter().map(|s| s.to_string()).collect()
}

fn pairs(items: &[(&str, &str)]) -> Vec<(String, String)> {
    items.iter().map(|(a, b)| (a.to_string(), b.to_string())).collect()
}

/// A stderr line without colors for an event `marker` under the given spans, with these fields.
fn line(spans: &[(&str, &[&str])], fields: &[(&str, &str)]) -> String {
    let spans: Vec<(String, String)> =
        spans.iter().map(|(name, v)| (name.to_string(), SpanValueFields.format_fields(&values(v)))).collect();
    SpanPathFormat::new(false).format_event(LogLevel::Warn, &spans, Some("marker"), &pairs(fields))
}

fn tail(output: &str) -> String {
    output.split_once("marker").expect("the message is on the line").1.trim_end().to_string()
}

fn captured(items: &[(&str, &str)]) -> CapturedFields {
    let mut fields = CapturedFields::new();
    for (name, value) in items {
        fields.insert(name, value.to_string());
    }
    fields
}

fn row(items: &[(&str, &str)], sequence: u64) -> PendingRow {
    PendingRow::from_fields(&captured(items), String::new(), LogLevel::Warn, sequence).expect("a tagged event")
}

#[test]
fn zero_and_zero_is_exactly_warn() {
    assert_eq!(Verbosity::from_verbose_and_quiet_counts(0, 0), Verbosity::Warn);
}

#[test]
fn decreasing_verbosity() {
    for (quiet, expected) in [(1, Verbosity::ErrorOnly), (2, Verbosity::Silent), (3, Verbosity::Silent), (u8::MAX, Verbosity::Silent)] {
        assert_eq!(Verbosity::from_verbose_and_quiet_counts(0, quiet), expected, "quiet {quiet}");
    }
}

#[test]
fn increasing_verbosity() {
    for (verbose, expected) in [
        (1, Verbosity::Info),
        (2, Verbosity::Debug),
        (3, Verbosity::Trace),
        (4, Verbosity::Trace),
        (u8::MAX, Verbosity::Trace),
    ] {
        assert_eq!(Verbosity::from_verbose_and_quiet_counts(verbose, 0), expected, "verbose {verbose}");
    }
}

#[test]
fn net_positive_offset_moves_up_from_warn() {
    assert_eq!(Verbosity::from_verbose_and_quiet_counts(2, 1), Verbosity::Info);
}

#[test]
fn net_negative_offset_clamps_at_silent_instead_of_going_out_of_bounds() {
    assert_eq!(Verbosity::from_verbose_and_quiet_counts(1, 3), Verbosity::Silent);
}

#[test]
fn equal_verbose_and_quiet_counts_cancel_out_to_the_default() {
    assert_eq!(Verbosity::from_verbose_and_quiet_counts(5, 5), Verbosity::Warn);
}

#[test]
fn maximal_verbose_and_quiet_together_clamps_to_the_default() {
    assert_eq!(Verbosity::from_verbose_and_quiet_counts(u8::MAX, u8::MAX), Verbosity::Warn);
}

#[test]
fn order_is_increasing_verbosity() {
    assert_eq!(
        Verbosity::order(),
        vec![
            Verbosity::Silent,
            Verbosity::ErrorOnly,
            Verbosity::Warn,
            Verbosity::Info,
            Verbosity::Debug,
            Verbosity::Trace,
        ]
    );
}

#[test]
fn default_index_points_at_warn() {
    assert_eq!(Verbosity::order()[Verbosity::DEFAULT_INDEX], Verbosity::Warn);
}

#[test]
fn the_csv_never_goes_above_warn_but_follows_quiet() {
    assert_eq!(Verbosity::Trace.csv_ceiling(), Verbosity::Warn);
    assert_eq!(Verbosity::Warn.csv_ceiling(), Verbosity::Warn);
    assert_eq!(Verbosity::ErrorOnly.csv_ceiling(), Verbosity::ErrorOnly);
    assert_eq!(Verbosity::Silent.csv_ceiling(), Verbosity::Silent);
}

#[test]
fn a_single_field_span_renders_its_value_bare() {
    let output = line(&[("job", &["AMUNDI-EN24"])], &[]);
    assert!(output.contains("job[AMUNDI-EN24]"), "expected a bare value in:\n{output}");
}

#[test]
fn a_multi_field_span_quotes_every_value() {
    let output = line(&[("investment", &["EXXON MOBIL CORP - 110.00 - 16.08.24 PUT", "row 12", "col 6"])], &[]);
    assert!(
        output.contains("investment[\"EXXON MOBIL CORP - 110.00 - 16.08.24 PUT\",\"row 12\",\"col 6\"]"),
        "expected every value quoted in:\n{output}"
    );
}

#[test]
fn a_quote_inside_a_value_is_doubled() {
    let output = line(&[("investment", &["SOCIETE \"GENERALE\" SA", "row 3"])], &[]);
    assert!(
        output.contains("investment[\"SOCIETE \"\"GENERALE\"\" SA\",\"row 3\"]"),
        "expected the inner quotes doubled in:\n{output}"
    );
}

#[test]
fn a_display_recorded_value_keeps_its_accents() {
    let output = line(&[("document", &["Société Générale"])], &[]);
    assert!(output.contains("document[Société Générale]"), "expected the text unescaped in:\n{output}");
}

#[test]
fn a_span_with_no_fields_renders_no_brackets() {
    let output = line(&[("deserialize", &[])], &[]);
    assert!(output.contains("deserialize:"), "expected a bare span name in:\n{output}");
    assert!(!output.contains("deserialize["), "unexpected brackets in:\n{output}");
}

#[test]
fn the_whole_line_without_colors() {
    let output = line(&[("run", &[]), ("job", &["EURIZON-EN23"]), ("page", &["353"])], &[("page", "353")]);
    assert_eq!(output, " WARN run/job[EURIZON-EN23]/page[353]: marker page=353\n");
    let bare = SpanPathFormat::new(false).format_event(LogLevel::Error, &Vec::new(), None, &Vec::new());
    assert_eq!(bare, "ERROR \n");
}

#[test]
fn colors_wrap_each_part_of_the_line() {
    let spans = pairs(&[("page", "3")]);
    let output = SpanPathFormat::new(true).format_event(LogLevel::Info, &spans, Some("m"), &Vec::new());
    assert_eq!(
        output,
        "\x1b[32m INFO\x1b[0m \x1b[36mpage\x1b[0m\x1b[90m[\x1b[0m\x1b[95m3\x1b[0m\x1b[90m]\x1b[0m\x1b[90m:\x1b[0m m\x1b[2m\x1b[0m\n"
    );
}

#[test]
fn a_value_containing_spaces_is_quoted() {
    let output = line(&[], &[("coord_ref_1", "Leonardo Spa Az Nom"), ("coord_ref_2", "Leonardo")]);
    assert_eq!(tail(&output), " coord_ref_1=\"Leonardo Spa Az Nom\" coord_ref_2=Leonardo");
}

#[test]
fn a_value_without_spaces_stays_bare() {
    let output = line(&[], &[("page", "53")]);
    assert_eq!(tail(&output), " page=53");
}

#[test]
fn message_and_error_never_reach_the_tail() {
    let output = line(&[], &[("message", "marker"), ("error", "boom"), ("page", "7")]);
    assert_eq!(tail(&output), " page=7");
    assert_eq!(format_event_field("error", "boom"), "");
}

#[test]
fn quote_value_doubles_inner_quotes() {
    assert_eq!(quote_value("a\"b"), "\"a\"\"b\"");
    assert_eq!(quote_value(""), "\"\"");
}

#[test]
fn span_values_render_bare_quoted_or_not_at_all() {
    assert_eq!(SpanValueFields.format_fields(&Vec::new()), "");
    assert_eq!(SpanValueFields.format_fields(&values(&["a b"])), "a b");
    assert_eq!(SpanValueFields.format_fields(&values(&["a", "b"])), "\"a\",\"b\"");
}

#[test]
fn a_span_label_keeps_only_the_first_non_empty_value() {
    assert_eq!(SpanLabel::build("page", &values(&["353"])).0, "page[353]");
    assert_eq!(SpanLabel::build("pipeline", &values(&[""])).0, "pipeline");
    assert_eq!(SpanLabel::build("investment", &values(&["", "ACME", "row 1"])).0, "investment[ACME]");
    assert_eq!(SpanLabel::build("classify", &Vec::new()).0, "classify");
    let mut visitor = SpanLabelVisitor::new();
    visitor.keep_first(String::new());
    visitor.keep_first("x".to_string());
    visitor.keep_first("y".to_string());
    assert_eq!(visitor.0, Some("x".to_string()));
}

#[test]
fn the_activity_is_the_slash_joined_path_outermost_first() {
    assert_eq!(activity_path(&Vec::new()), "");
    assert_eq!(activity_path(&values(&["run"])), "run");
    assert_eq!(activity_path(&values(&["run", "job[A]", "page[3]"])), "run/job[A]/page[3]");
}

#[test]
fn header_matches_the_documented_column_order() {
    assert_eq!(
        CSV_HEADER,
        "Report,Page,Activity,First coord ref,Second coord ref,First coord,Second coord,Level,Message\n"
    );
}

#[test]
fn an_event_without_a_tagged_field_makes_no_row() {
    let fields = captured(&[("message", "hello"), ("report", "R")]);
    assert!(!fields.has_any_tagged_field());
    assert!(PendingRow::from_fields(&fields, "run".into(), LogLevel::Error, 0).is_none());
}

#[test]
fn an_event_with_a_tagged_field_makes_a_row_with_every_column() {
    let fields = captured(&[
        ("report", "R"),
        ("page", "4"),
        ("coord_ref_1", "ACME SPA"),
        ("coord_ref_2", "Acme"),
        ("coord_1", "row 2"),
        ("coord_2", "col 3"),
        ("message", "cast failed"),
    ]);
    let r = PendingRow::from_fields(&fields, "run/page[4]".into(), LogLevel::Warn, 9).unwrap();
    assert_eq!(r.cells, values(&["R", "4", "run/page[4]", "ACME SPA", "Acme", "row 2", "col 3", "WARN", "cast failed"]));
    assert_eq!(r.order_key.page, PageKey::Numbered(4));
    assert_eq!(r.order_key.sequence, 9);
}

#[test]
fn a_page_that_is_not_a_number_sorts_as_unnumbered() {
    let r = row(&[("page", "iv")], 0);
    assert_eq!(r.order_key.page, PageKey::Unnumbered);
}

#[test]
fn the_event_beats_every_span_and_the_inner_span_beats_the_outer() {
    let mut merged = CapturedFields::new();
    merged.merge_from(&captured(&[("page", "1"), ("report", "outer")]));
    merged.merge_from(&captured(&[("report", "inner")]));
    merged.merge_from(&captured(&[("page", "2")]));
    assert_eq!(merged.get("page"), "2");
    assert_eq!(merged.get("report"), "inner");
    assert_eq!(merged.get("coord_1"), "");
}

#[test]
fn rows_are_written_by_page_then_arrival_with_unnumbered_pages_last() {
    let rows = vec![
        row(&[("page", "3")], 0),
        row(&[("coord_1", "row 1")], 1),
        row(&[("page", "1")], 2),
        row(&[("page", "3")], 3),
        row(&[("page", "2")], 4),
    ];
    let sorted = sort_rows(rows);
    let order: Vec<u64> = sorted.iter().map(|r| r.order_key.sequence).collect();
    assert_eq!(order, vec![2, 4, 0, 3, 1]);
}

#[test]
fn only_the_kept_fields_reach_a_column() {
    assert!(FieldVisitor::keeps("message"));
    assert!(FieldVisitor::keeps("page"));
    assert!(FieldVisitor::keeps("report"));
    assert!(!FieldVisitor::keeps("pipe"));
    let mut visitor = FieldVisitor::new();
    visitor.record("page", "5".into());
    assert_eq!(visitor.0.get("page"), "5");
}

#[test]
fn coordinates_are_present_only_when_non_empty() {
    let coords = CoordsRecord::from_fields(&captured(&[("page", "7"), ("coord_1", "")]));
    assert_eq!(coords.page, Some("7".to_string()));
    assert_eq!(coords.first, None);
    assert!(!coords.is_empty());
    assert!(CoordsRecord::from_fields(&CapturedFields::new()).is_empty());
}

#[test]
fn a_record_files_message_coordinates_and_other_fields_apart() {
    let mut visitor = RecordVisitor::new();
    visitor.put("message", "hello".into());
    visitor.put("page", "3".into());
    visitor.put("format", "FMT".into());
    assert_eq!(visitor.message, "hello");
    assert_eq!(visitor.fields.get("format"), "FMT");
    assert!(!visitor.fields.contains_key("page"));
}

#[test]
fn the_cause_chain_stops_at_its_bound() {
    let mut record = ErrorRecord::from_error("Debug".into(), "display".into());
    let mut walked = 0;
    loop {
        walked += 1;
        if !record.record_cause(format!("cause {walked}")) {
            break;
        }
    }
    assert_eq!(record.source.len(), MAX_ERROR_DEPTH);
    assert_eq!(walked, 32);
    assert_eq!(record.source[0], "cause 1");
}

#[test]
fn table_coordinates_count_from_one() {
    assert_eq!(table_coords(0, 5), ("row 1".to_string(), "col 6".to_string()));
    assert_eq!(table_coords(-3, 9), ("row -2".to_string(), "col 10".to_string()));
}

#[test]
fn a_worker_csv_loses_its_header_line_only() {
    assert_eq!(strip_csv_header(b"H1,H2\nA,B\nC,D\n"), b"A,B\nC,D\n".to_vec());
    assert_eq!(strip_csv_header(b"only a header"), Vec::<u8>::new());
    assert_eq!(strip_csv_header(b""), Vec::<u8>::new());
}

#[test]
fn a_page_number_reads_as_u64_from_str_reads_it() {
    assert_eq!(parse_u64("353"), Some(353));
    assert_eq!(parse_u64("+7"), Some(7));
    assert_eq!(parse_u64("18446744073709551615"), Some(u64::MAX));
    assert_eq!(parse_u64("18446744073709551616"), None);
    assert_eq!(parse_u64(""), None);
    assert_eq!(parse_u64("+"), None);
    assert_eq!(parse_u64("-1"), None);
    assert_eq!(parse_u64("1a"), None);
}

const LEVELS: [LogLevel; 5] = [LogLevel::Error, LogLevel::Warn, LogLevel::Info, LogLevel::Debug, LogLevel::Trace];

/// The levels of the five marker events that a verbosity lets through.
fn shown(verbosity: Verbosity) -> Vec<LogLevel> {
    LEVELS.iter().copied().filter(|level| verbosity.shows(*level)).collect()
}

#[test]
fn warn_shows_warn_and_error_but_not_info() {
    assert_eq!(shown(Verbosity::Warn), vec![LogLevel::Error, LogLevel::Warn]);
}

#[test]
fn error_only_shows_only_error() {
    assert_eq!(shown(Verbosity::ErrorOnly), vec![LogLevel::Error]);
}

#[test]
fn silent_shows_nothing_at_all_not_even_error() {
    assert!(shown(Verbosity::Silent).is_empty());
}

#[test]
fn trace_shows_every_level() {
    assert_eq!(shown(Verbosity::Trace), LEVELS.to_vec());
}

#[test]
fn spans_always_pass_the_event_filter_and_events_go_by_level() {
    let filter = EventLevelFilter::new(Verbosity::Warn);
    assert!(filter.enabled(true, LogLevel::Trace));
    assert!(filter.enabled(false, LogLevel::Warn));
    assert!(!filter.enabled(false, LogLevel::Info));
    assert!(EventLevelFilter::new(Verbosity::Silent).enabled(true, LogLevel::Info));
    assert!(!EventLevelFilter::new(Verbosity::Silent).enabled(false, LogLevel::Error));
}

#[test]
fn max_level_hint_never_drops_below_the_span_level() {
    for level in [Verbosity::ErrorOnly, Verbosity::Warn, Verbosity::Info] {
        assert_eq!(EventLevelFilter::new(level).max_level_hint(), SPAN_LEVEL, "at {level:?}");
    }
}

#[test]
fn max_level_hint_follows_the_event_level_above_the_span_level() {
    for level in [Verbosity::Debug, Verbosity::Trace] {
        assert_eq!(EventLevelFilter::new(level).max_level_hint(), level);
    }
}

#[test]
fn off_stays_off_spans_included() {
    assert_eq!(EventLevelFilter::new(Verbosity::Silent).max_level_hint(), Verbosity::Silent);
}

#[test]
fn a_warning_writes_warn() {
    let r = PendingRow::from_fields(&captured(&[("page", "3"), ("message", "dropped a field")]), String::new(), LogLevel::Warn, 0)
        .unwrap();
    assert_eq!(r.cells, values(&["", "3", "", "", "", "", "", "WARN", "dropped a field"]));
}

#[test]
fn an_error_writes_error() {
    let r = PendingRow::from_fields(&captured(&[("page", "3"), ("message", "lost the holding")]), String::new(), LogLevel::Error, 0)
        .unwrap();
    assert_eq!(r.cells, values(&["", "3", "", "", "", "", "", "ERROR", "lost the holding"]));
}

#[test]
fn an_event_keeps_its_own_level_inside_a_span_of_another_level() {
    let mut merged = CapturedFields::new();
    merged.merge_from(&captured(&[("coord_ref_1", "ALROSA CJSC")]));
    merged.merge_from(&captured(&[("page", "12"), ("message", "the report writes a dash here")]));
    let activity = SpanLabel::build("investment", &values(&["ALROSA CJSC"])).0;
    let r = PendingRow::from_fields(&merged, activity, LogLevel::Warn, 0).unwrap();
    assert_eq!(
        r.cells,
        values(&[
            "",
            "12",
            "investment[ALROSA CJSC]",
            "ALROSA CJSC",
            "",
            "",
            "",
            "WARN",
            "the report writes a dash here"
        ])
    );
}

#[test]
fn a_level_alone_selects_no_row() {
    let fields = captured(&[("message", "no page, no coordinate, no row")]);
    assert!(PendingRow::from_fields(&fields, String::new(), LogLevel::Error, 0).is_none());
}

#[test]
fn an_event_sees_inner_spans_over_outer_ones_and_its_own_fields_over_all() {
    let outer = captured(&[("page", "1"), ("report", "outer"), ("coord_1", "A")]);
    let inner = captured(&[("report", "inner"), ("coord_2", "B")]);
    let own = captured(&[("page", "2")]);
    let seen = fields_seen(&vec![&outer, &inner], &own);
    assert_eq!(seen.get("page"), "2");
    assert_eq!(seen.get("report"), "inner");
    assert_eq!(seen.get("coord_1"), "A");
    assert_eq!(seen.get("coord_2"), "B");
    assert_eq!(seen.get("coord_ref_1"), "");
    let alone = fields_seen(&Vec::new(), &own);
    assert_eq!(alone.get("page"), "2");
    assert_eq!(alone.get("report"), "");
}
