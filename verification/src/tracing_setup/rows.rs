//! The rows of `.log.csv`: which events make one, what its nine cells hold, and the order rows
//! are written in.
//!
//! Rows are accumulated, then sorted by page (numbered pages first, in increasing order) and by
//! arrival, and only then written.

use vstd::prelude::*;

use crate::text::string_of;
use crate::tracing_setup::fields::CapturedFields;
use crate::tracing_setup::{level_name, LogLevel};

verus! {

broadcast use vstd::multiset::group_multiset_axioms, vstd::seq_lib::to_multiset_build, vstd::seq_lib::to_multiset_insert;

/// The header row of `.log.csv`, in column order.
pub const CSV_HEADER: &'static str =
    "Report,Page,Activity,First coord ref,Second coord ref,First coord,Second coord,Level,Message\n";

/// A decimal digit.
pub open spec fn is_digit(c: char) -> bool {
    '0' <= c <= '9'
}

/// The value of a run of decimal digits.
pub open spec fn digits_value(d: Seq<char>) -> nat
    decreases d.len(),
{
    if d.len() == 0 {
        0
    } else {
        digits_value(d.drop_last()) * 10 + ((d.last() as nat) - ('0' as nat)) as nat
    }
}

/// The digits of a number as `u64::from_str` reads it: an optional leading `+`, then digits.
pub open spec fn unsigned_digits(s: Seq<char>) -> Seq<char> {
    if s.len() > 0 && s[0] == '+' {
        s.drop_first()
    } else {
        s
    }
}

/// What `u64::from_str` reads in `s`: a number when `s` is an optional `+` followed by at least
/// one digit and nothing else, and the value fits.
pub open spec fn parsed_u64(s: Seq<char>) -> Option<u64> {
    let d = unsigned_digits(s);
    if d.len() > 0 && (forall|k: int| 0 <= k < d.len() ==> is_digit(#[trigger] d[k]))
        && digits_value(d) <= u64::MAX {
        Some(digits_value(d) as u64)
    } else {
        None
    }
}

proof fn lemma_digits_value_grows(d: Seq<char>, k: int)
    requires
        0 <= k <= d.len(),
        forall|m: int| 0 <= m < d.len() ==> is_digit(#[trigger] d[m]),
    ensures
        digits_value(d.take(k)) <= digits_value(d),
    decreases d.len(),
{
    if k == d.len() {
        assert(d.take(k) =~= d);
    } else {
        let t = d.drop_last();
        assert forall|m: int| 0 <= m < t.len() implies is_digit(#[trigger] t[m]) by {
            assert(t[m] == d[m]);
        }
        lemma_digits_value_grows(t, k);
        assert(t.take(k) =~= d.take(k));
        assert(is_digit(d[d.len() - 1]));
    }
}

/// Reads `s` as `u64::from_str` does.
pub fn parse_u64(s: &str) -> (r: Option<u64>)
    ensures
        r == parsed_u64(s@),
{
    let n = s.unicode_len();
    let mut start: usize = 0;
    if n > 0 && s.get_char(0) == '+' {
        start = 1;
    }
    let ghost d = unsigned_digits(s@);
    assert(d =~= s@.skip(start as int));
    if start >= n {
        return None;
    }
    let mut value: u64 = 0;
    let mut i: usize = start;
    assert(d.take(0) =~= Seq::<char>::empty());
    while i < n
        invariant
            start <= i <= n,
            n == s@.len(),
            d == s@.skip(start as int),
            d == unsigned_digits(s@),
            forall|k: int| 0 <= k < i - start ==> is_digit(#[trigger] d[k]),
            value == digits_value(d.take(i - start)),
        decreases n - i,
    {
        let c = s.get_char(i);
        assert(d[i - start] == c);
        if !('0' <= c && c <= '9') {
            assert(!is_digit(d[i - start]));
            return None;
        }
        let ghost t = d.take(i - start + 1);
        assert(t.drop_last() =~= d.take(i - start));
        assert(t.last() == c);
        let digit: u64 = (c as u32 - '0' as u32) as u64;
        assert(digit == (c as nat) - ('0' as nat));
        assert(digits_value(t) == value * 10 + digit);
        let overflow = match value.checked_mul(10) {
            Some(tens) => match tens.checked_add(digit) {
                Some(next) => {
                    value = next;
                    false
                },
                None => true,
            },
            None => true,
        };
        if overflow {
            proof {
                assert(value * 10 + digit > u64::MAX);
                assert(digits_value(t) > u64::MAX);
                if forall|k: int| 0 <= k < d.len() ==> is_digit(#[trigger] d[k]) {
                    lemma_digits_value_grows(d, i - start + 1);
                }
            }
            return None;
        }
        i = i + 1;
    }
    assert(d.take(n - start) =~= d);
    Some(value)
}

/// Where a row sorts by page: rows with a numbered page come first, in page order.
#[derive(Debug, Clone, Copy, PartialEq, Eq, Structural)]
pub enum PageKey {
    Numbered(u64),
    Unnumbered,
}

/// The ordering key of a row: its page, then its arrival.
#[derive(Debug, Clone, Copy, PartialEq, Eq, Structural)]
pub struct RowOrderKey {
    pub page: PageKey,
    pub sequence: u64,
}

/// `a` sorts strictly before `b`.
pub open spec fn key_lt(a: RowOrderKey, b: RowOrderKey) -> bool {
    match (a.page, b.page) {
        (PageKey::Numbered(x), PageKey::Numbered(y)) => x < y || (x == y && a.sequence < b.sequence),
        (PageKey::Numbered(_), PageKey::Unnumbered) => true,
        (PageKey::Unnumbered, PageKey::Numbered(_)) => false,
        (PageKey::Unnumbered, PageKey::Unnumbered) => a.sequence < b.sequence,
    }
}

/// Whether `a` sorts strictly before `b`.
pub fn key_less(a: &RowOrderKey, b: &RowOrderKey) -> (r: bool)
    ensures
        r == key_lt(*a, *b),
{
    match (a.page, b.page) {
        (PageKey::Numbered(x), PageKey::Numbered(y)) => x < y || (x == y && a.sequence < b.sequence),
        (PageKey::Numbered(_), PageKey::Unnumbered) => true,
        (PageKey::Unnumbered, PageKey::Numbered(_)) => false,
        (PageKey::Unnumbered, PageKey::Unnumbered) => a.sequence < b.sequence,
    }
}

/// A row waiting to be written: its ordering key and its nine cells.
#[derive(Debug)]
pub struct PendingRow {
    pub order_key: RowOrderKey,
    pub cells: Vec<String>,
}

/// The value of a captured field, or the empty text.
pub open spec fn field_or_empty(fields: Map<Seq<char>, Seq<char>>, name: Seq<char>) -> Seq<char> {
    if fields.dom().contains(name) {
        fields[name]
    } else {
        Seq::empty()
    }
}

/// The nine cells of a row, in column order: report, page, activity, the two coordinate
/// references, the two coordinates, the event's level and its message.
pub open spec fn row_cells(fields: Map<Seq<char>, Seq<char>>, activity: Seq<char>, level: LogLevel) -> Seq<
    Seq<char>,
> {
    seq![
        field_or_empty(fields, "report"@),
        field_or_empty(fields, "page"@),
        activity,
        field_or_empty(fields, "coord_ref_1"@),
        field_or_empty(fields, "coord_ref_2"@),
        field_or_empty(fields, "coord_1"@),
        field_or_empty(fields, "coord_2"@),
        level_name(level),
        field_or_empty(fields, "message"@),
    ]
}

/// The page key of a row: numbered when the `page` field reads as a number.
pub open spec fn page_key_of(fields: Map<Seq<char>, Seq<char>>) -> PageKey {
    match parsed_u64(field_or_empty(fields, "page"@)) {
        Some(p) => PageKey::Numbered(p),
        None => PageKey::Unnumbered,
    }
}

/// Whether the merged fields of an event carry one of the five tagged fields.
pub open spec fn selects_row(fields: Map<Seq<char>, Seq<char>>) -> bool {
    fields.dom().contains("page"@) || fields.dom().contains("coord_ref_1"@) || fields.dom().contains(
        "coord_ref_2"@,
    ) || fields.dom().contains("coord_1"@) || fields.dom().contains("coord_2"@)
}

/// `row` is the row made of these fields, activity, level and arrival number.
pub open spec fn row_made_of(
    row: PendingRow,
    fields: Map<Seq<char>, Seq<char>>,
    activity: Seq<char>,
    level: LogLevel,
    sequence: u64,
) -> bool {
    &&& row.order_key == (RowOrderKey { page: page_key_of(fields), sequence })
    &&& row.cells@.map_values(|c: String| c@) == row_cells(fields, activity, level)
}

impl PendingRow {
    /// The row an event makes from its merged fields, the path of its spans, its level and its
    /// arrival number; none when no tagged field is present.
    pub fn from_fields(
        merged: &CapturedFields,
        activity: String,
        level: LogLevel,
        sequence: u64,
    ) -> (r: Option<PendingRow>)
        ensures
            (r is Some) == selects_row(merged@),
            r matches Some(row) ==> row_made_of(row, merged@, activity@, level, sequence),
    {
        if !merged.has_any_tagged_field() {
            return None;
        }
        let page = match parse_u64(merged.get("page")) {
            Some(p) => PageKey::Numbered(p),
            None => PageKey::Unnumbered,
        };
        let ghost act = activity@;
        let cells = vec![
            string_of(merged.get("report")),
            string_of(merged.get("page")),
            activity,
            string_of(merged.get("coord_ref_1")),
            string_of(merged.get("coord_ref_2")),
            string_of(merged.get("coord_1")),
            string_of(merged.get("coord_2")),
            string_of(level.as_str()),
            string_of(merged.get("message")),
        ];
        assert(cells@.map_values(|c: String| c@) =~= row_cells(merged@, act, level));
        Some(PendingRow { order_key: RowOrderKey { page, sequence }, cells })
    }
}

/// The keys of a sequence of rows.
pub open spec fn row_keys(rows: Seq<PendingRow>) -> Seq<RowOrderKey> {
    rows.map_values(|r: PendingRow| r.order_key)
}

/// Keys in non-decreasing order.
pub open spec fn keys_in_order(keys: Seq<RowOrderKey>) -> bool {
    forall|i: int, j: int| 0 <= i < j < keys.len() ==> !key_lt(#[trigger] keys[j], #[trigger] keys[i])
}

/// How rows sort: a row with a numbered page before every row without one, numbered pages in
/// increasing page number, and rows on the same page (or both without one) in arrival order.
pub proof fn law_row_order_is_page_then_arrival(a: RowOrderKey, b: RowOrderKey)
    ensures
        a.page == b.page && a.sequence < b.sequence ==> key_lt(a, b),
        a.page is Numbered && b.page is Unnumbered ==> key_lt(a, b),
        a.page is Numbered && b.page is Numbered && a.page->Numbered_0 < b.page->Numbered_0
            ==> key_lt(a, b),
        key_lt(a, b) ==> !key_lt(b, a),
        a != b ==> key_lt(a, b) || key_lt(b, a) || (a.page == b.page && a.sequence == b.sequence),
{
}

/// Written rows come by page, then by arrival: wherever a row comes after another, a numbered
/// page never follows a row without one, page numbers do not decrease, and on the same page (or
/// with no page at all) the later row did not arrive earlier.
pub proof fn law_written_rows_are_by_page_then_arrival(keys: Seq<RowOrderKey>, i: int, j: int)
    requires
        keys_in_order(keys),
        0 <= i < j < keys.len(),
    ensures
        keys[j].page is Numbered ==> keys[i].page is Numbered && keys[i].page->Numbered_0
            <= keys[j].page->Numbered_0,
        keys[i].page == keys[j].page ==> keys[i].sequence <= keys[j].sequence,
{
    assert(!key_lt(keys[j], keys[i]));
}

/// The rows in the order they are written: by page, numbered pages first, then by arrival. The
/// same rows, nothing added or lost.
pub fn sort_rows(rows: Vec<PendingRow>) -> (r: Vec<PendingRow>)
    ensures
        keys_in_order(row_keys(r@)),
        r@.to_multiset() == rows@.to_multiset(),
{
    let mut rest = rows;
    let mut out: Vec<PendingRow> = Vec::new();
    proof {
        vstd::seq_lib::to_multiset_len(out@);
        vstd::multiset::lemma_multiset_empty_len(out@.to_multiset());
        assert(out@.to_multiset().add(rest@.to_multiset()) =~= rows@.to_multiset());
    }
    while rest.len() > 0
        invariant
            keys_in_order(row_keys(out@)),
            out@.to_multiset().add(rest@.to_multiset()) == rows@.to_multiset(),
        decreases rest.len(),
    {
        let ghost before_rest = rest@;
        let row = rest.pop().unwrap();
        assert(before_rest =~= rest@.push(row));
        let mut k: usize = 0;
        while k < out.len() && key_less(&out[k].order_key, &row.order_key)
            invariant
                k <= out.len(),
                forall|m: int| 0 <= m < k ==> key_lt(#[trigger] out@[m].order_key, row.order_key),
            decreases out.len() - k,
        {
            k = k + 1;
        }
        let ghost before = out@;
        let ghost moved = row;
        out.insert(k, row);
        proof {
            vstd::seq_lib::to_multiset_insert(before, k as int, moved);
            vstd::seq_lib::to_multiset_build(rest@, moved);
            assert(out@.to_multiset().add(rest@.to_multiset()) =~= rows@.to_multiset());
            let keys = row_keys(out@);
            let old_keys = row_keys(before);
            assert(keys =~= old_keys.insert(k as int, row.order_key));
            assert forall|i: int, j: int| 0 <= i < j < keys.len() implies !key_lt(
                #[trigger] keys[j],
                #[trigger] keys[i],
            ) by {
                if j < k {
                    assert(keys[i] == old_keys[i] && keys[j] == old_keys[j]);
                } else if j == k {
                    assert(keys[i] == old_keys[i]);
                    assert(key_lt(before[i].order_key, row.order_key));
                } else if i < k {
                    assert(keys[i] == old_keys[i] && keys[j] == old_keys[j - 1]);
                    assert(key_lt(before[i].order_key, row.order_key));
                    if k < before.len() {
                        assert(!key_lt(before[k as int].order_key, row.order_key));
                        assert(!key_lt(old_keys[j - 1], old_keys[k as int]) || j - 1 == k);
                    }
                } else if i == k {
                    assert(keys[j] == old_keys[j - 1]);
                    assert(!key_lt(before[k as int].order_key, row.order_key));
                    assert(!key_lt(old_keys[j - 1], old_keys[k as int]) || j - 1 == k);
                } else {
                    assert(keys[i] == old_keys[i - 1] && keys[j] == old_keys[j - 1]);
                }
            }
        }
    }
    proof {
        vstd::seq_lib::to_multiset_len(rest@);
        vstd::multiset::lemma_multiset_empty_len(rest@.to_multiset());
        assert(out@.to_multiset() =~= out@.to_multiset().add(rest@.to_multiset()));
    }
    out
}

/// The bytes after the first line: the data rows of a `.log.csv` read back, without its header.
/// Nothing when there is no line break at all.
pub open spec fn after_header(bytes: Seq<u8>) -> Seq<u8> {
    if exists|i: int| 0 <= i < bytes.len() && bytes[i] == 10u8 {
        let i = choose|i: int|
            0 <= i < bytes.len() && bytes[i] == 10u8 && forall|k: int|
                0 <= k < i ==> #[trigger] bytes[k] != 10u8;
        bytes.skip(i + 1)
    } else {
        Seq::empty()
    }
}

/// Drops the header line of a `.log.csv` read back from disk, leaving only data rows.
pub fn strip_csv_header(bytes: &[u8]) -> (r: Vec<u8>)
    ensures
        r@ == after_header(bytes@),
{
    let mut i: usize = 0;
    while i < bytes.len() && bytes[i] != 10u8
        invariant
            i <= bytes.len(),
            forall|k: int| 0 <= k < i ==> #[trigger] bytes@[k] != 10u8,
        decreases bytes.len() - i,
    {
        i = i + 1;
    }
    let mut out: Vec<u8> = Vec::new();
    if i == bytes.len() {
        return out;
    }
    let ghost first = i as int;
    proof {
        let c = choose|c: int|
            0 <= c < bytes@.len() && bytes@[c] == 10u8 && forall|k: int|
                0 <= k < c ==> #[trigger] bytes@[k] != 10u8;
        assert(bytes@[first] == 10u8);
        if c < first {
            assert(bytes@[c] != 10u8);
        } else if c > first {
            assert(bytes@[first] != 10u8);
        }
        assert(c == first);
    }
    let mut j: usize = i + 1;
    while j < bytes.len()
        invariant
            first + 1 <= j <= bytes.len(),
            0 <= first < bytes@.len(),
            bytes@.len() == bytes.len(),
            out@ == bytes@.subrange(first + 1, j as int),
        decreases bytes.len() - j,
    {
        let b = bytes[j];
        assert(b == bytes@[j as int]);
        out.push(b);
        assert(out@ =~= bytes@.subrange(first + 1, j + 1));
        j = j + 1;
    }
    assert(bytes@.subrange(first + 1, bytes.len() as int) =~= bytes@.skip(first + 1));
    out
}

} // verus!
