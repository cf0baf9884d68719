//! The fields an event carries into `.log.csv` and `freeports.log.jsonl`.
//!
//! Five tagged fields place an event on a page or at a coordinate, and only those put a row in
//! `.log.csv`; `report` fills its column without ever selecting a row; `message` always feeds the
//! message column. An event inherits the fields of every active span, outermost first, an inner
//! span beating an outer one and the event's own fields beating every span.

use vstd::prelude::*;

use crate::text::{str_eq, string_of};

verus! {

/// The fields that select a `.log.csv` row.
pub open spec fn tagged_field(name: Seq<char>) -> bool {
    name == "page"@ || name == "coord_ref_1"@ || name == "coord_ref_2"@ || name == "coord_1"@
        || name == "coord_2"@
}

/// The fields that fill a column without ever selecting a row.
pub open spec fn column_only_field(name: Seq<char>) -> bool {
    name == "report"@
}

/// Whether `name` is one of the tagged fields.
pub fn is_tagged_field(name: &str) -> (r: bool)
    ensures
        r == tagged_field(name@),
{
    str_eq(name, "page") || str_eq(name, "coord_ref_1") || str_eq(name, "coord_ref_2") || str_eq(
        name,
        "coord_1",
    ) || str_eq(name, "coord_2")
}

/// Whether `name` is a field that fills a column without selecting a row.
pub fn is_column_only_field(name: &str) -> (r: bool)
    ensures
        r == column_only_field(name@),
{
    str_eq(name, "report")
}

/// The map a list of `(name, value)` entries stands for, later entries overriding earlier ones.
pub open spec fn entries_map(s: Seq<(Seq<char>, Seq<char>)>) -> Map<Seq<char>, Seq<char>>
    decreases s.len(),
{
    if s.len() == 0 {
        Map::empty()
    } else {
        entries_map(s.drop_last()).insert(s.last().0, s.last().1)
    }
}

/// No name twice.
pub open spec fn distinct_names(s: Seq<(Seq<char>, Seq<char>)>) -> bool {
    forall|i: int, j: int| 0 <= i < j < s.len() ==> #[trigger] s[i].0 != #[trigger] s[j].0
}

/// Names and values of a list of entries.
pub open spec fn entry_views(s: Seq<(String, String)>) -> Seq<(Seq<char>, Seq<char>)> {
    s.map_values(|e: (String, String)| (e.0@, e.1@))
}

proof fn lemma_entries_map_dom(s: Seq<(Seq<char>, Seq<char>)>, k: Seq<char>)
    ensures
        entries_map(s).dom().contains(k) <==> exists|i: int| 0 <= i < s.len() && #[trigger] s[i].0 == k,
    decreases s.len(),
{
    if s.len() > 0 {
        let t = s.drop_last();
        lemma_entries_map_dom(t, k);
        if exists|i: int| 0 <= i < t.len() && #[trigger] t[i].0 == k {
            let i = choose|i: int| 0 <= i < t.len() && #[trigger] t[i].0 == k;
            assert(s[i].0 == k);
        }
        if exists|i: int| 0 <= i < s.len() && #[trigger] s[i].0 == k {
            let i = choose|i: int| 0 <= i < s.len() && #[trigger] s[i].0 == k;
            if i < t.len() {
                assert(t[i].0 == k);
            }
        }
    }
}

proof fn lemma_entries_map_value(s: Seq<(Seq<char>, Seq<char>)>, i: int)
    requires
        distinct_names(s),
        0 <= i < s.len(),
    ensures
        entries_map(s).dom().contains(s[i].0),
        entries_map(s)[s[i].0] == s[i].1,
    decreases s.len(),
{
    let t = s.drop_last();
    if i < s.len() - 1 {
        assert(t[i] == s[i]);
        assert(s[i].0 != s[s.len() - 1].0);
        lemma_entries_map_value(t, i);
    }
}

proof fn lemma_entries_map_update(s: Seq<(Seq<char>, Seq<char>)>, i: int, v: Seq<char>)
    requires
        distinct_names(s),
        0 <= i < s.len(),
    ensures
        distinct_names(s.update(i, (s[i].0, v))),
        entries_map(s.update(i, (s[i].0, v))) == entries_map(s).insert(s[i].0, v),
    decreases s.len(),
{
    let u = s.update(i, (s[i].0, v));
    assert forall|a: int, b: int| 0 <= a < b < u.len() implies #[trigger] u[a].0 != #[trigger] u[b].0 by {
        assert(u[a].0 == s[a].0 && u[b].0 == s[b].0);
    }
    let t = s.drop_last();
    if i == s.len() - 1 {
        assert(u.drop_last() =~= t);
        assert(entries_map(u) =~= entries_map(s).insert(s[i].0, v));
    } else {
        assert(u.drop_last() =~= t.update(i, (t[i].0, v)));
        lemma_entries_map_update(t, i, v);
        assert(s[i].0 != s.last().0);
        assert(entries_map(u) =~= entries_map(s).insert(s[i].0, v));
    }
}

/// Field values collected from one event or span, restricted to the fields that reach a column.
#[derive(Debug)]
pub struct CapturedFields {
    entries: Vec<(String, String)>,
}

impl View for CapturedFields {
    type V = Map<Seq<char>, Seq<char>>;

    closed spec fn view(&self) -> Map<Seq<char>, Seq<char>> {
        entries_map(entry_views(self.entries@))
    }
}

impl CapturedFields {
    #[verifier::type_invariant]
    spec fn names_distinct(self) -> bool {
        distinct_names(entry_views(self.entries@))
    }

    pub fn new() -> (r: Self)
        ensures
            r@ == Map::<Seq<char>, Seq<char>>::empty(),
    {
        let r = CapturedFields { entries: Vec::new() };
        assert(entry_views(r.entries@) =~= Seq::<(Seq<char>, Seq<char>)>::empty());
        r
    }

    /// The position of the entry named `name`, if any.
    fn position(&self, name: &str) -> (r: Option<usize>)
        ensures
            match r {
                Some(i) => i < self.entries@.len() && self.entries@[i as int].0@ == name@,
                None => !self@.dom().contains(name@),
            },
    {
        let ghost ev = entry_views(self.entries@);
        let mut i: usize = 0;
        while i < self.entries.len()
            invariant
                i <= self.entries.len(),
                ev == entry_views(self.entries@),
                forall|k: int| 0 <= k < i ==> #[trigger] ev[k].0 != name@,
            decreases self.entries.len() - i,
        {
            assert(ev[i as int].0 == self.entries@[i as int].0@);
            if str_eq(self.entries[i].0.as_str(), name) {
                return Some(i);
            }
            i = i + 1;
        }
        proof {
            lemma_entries_map_dom(ev, name@);
        }
        None
    }

    /// Whether a field named `name` was captured.
    /// The captured fields, each name once, in the order they were first captured.
    pub fn entries(&self) -> (r: &[(String, String)])
        ensures
            entries_map(entry_views(r@)) == self@,
            distinct_names(entry_views(r@)),
    {
        proof {
            use_type_invariant(self);
        }
        self.entries.as_slice()
    }

    pub fn contains_key(&self, name: &str) -> (r: bool)
        ensures
            r == self@.dom().contains(name@),
    {
        proof {
            use_type_invariant(self);
        }
        match self.position(name) {
            Some(i) => {
                proof {
                    lemma_entries_map_value(entry_views(self.entries@), i as int);
                }
                true
            },
            None => false,
        }
    }

    /// The value of the field named `name`, or the empty text when it was not captured.
    pub fn get(&self, name: &str) -> (r: &str)
        ensures
            r@ == if self@.dom().contains(name@) {
                self@[name@]
            } else {
                Seq::<char>::empty()
            },
    {
        proof {
            use_type_invariant(self);
        }
        match self.position(name) {
            Some(i) => {
                proof {
                    lemma_entries_map_value(entry_views(self.entries@), i as int);
                }
                self.entries[i].1.as_str()
            },
            None => {
                proof {
                    reveal_strlit("");
                }
                ""
            },
        }
    }

    /// Records `value` under `name`, replacing any earlier value.
    pub fn insert(&mut self, name: &str, value: String)
        ensures
            final(self)@ == old(self)@.insert(name@, value@),
    {
        proof {
            use_type_invariant(&*self);
        }
        let ghost before = entry_views(self.entries@);
        let found = self.position(name);
        let mut items: Vec<(String, String)> = Vec::new();
        std::mem::swap(&mut items, &mut self.entries);
        match found {
            Some(i) => {
                let ghost v = value@;
                items.set(i, (string_of(name), value));
                proof {
                    lemma_entries_map_update(before, i as int, v);
                    assert(entry_views(items@) =~= before.update(i as int, (before[i as int].0, v)));
                }
            },
            None => {
                let ghost v = value@;
                items.push((string_of(name), value));
                proof {
                    assert(entry_views(items@) =~= before.push((name@, v)));
                    assert(entry_views(items@).drop_last() =~= before);
                    lemma_entries_map_dom(before, name@);
                    let ev = entry_views(items@);
                    assert forall|a: int, b: int| 0 <= a < b < ev.len() implies #[trigger] ev[a].0
                        != #[trigger] ev[b].0 by {
                        if b == ev.len() - 1 {
                            assert(ev[a] == before[a]);
                        } else {
                            assert(ev[a] == before[a] && ev[b] == before[b]);
                        }
                    }
                }
            },
        }
        self.entries = items;
    }

    /// Overwrites this set with every field present in `other`: an inner span's fields over an
    /// outer one's, an event's own fields over every span's.
    pub fn merge_from(&mut self, other: &CapturedFields)
        ensures
            final(self)@ == old(self)@.union_prefer_right(other@),
    {
        let ghost ov = entry_views(other.entries@);
        let ghost start = self@;
        let mut j: usize = 0;
        assert(ov.take(0) =~= Seq::<(Seq<char>, Seq<char>)>::empty());
        assert(start.union_prefer_right(entries_map(ov.take(0))) =~= start);
        while j < other.entries.len()
            invariant
                j <= other.entries.len(),
                ov == entry_views(other.entries@),
                self@ == start.union_prefer_right(entries_map(ov.take(j as int))),
            decreases other.entries.len() - j,
        {
            let ghost t = ov.take(j + 1);
            assert(t.drop_last() =~= ov.take(j as int));
            assert(t.last() == (other.entries@[j as int].0@, other.entries@[j as int].1@));
            self.insert(other.entries[j].0.as_str(), string_of(other.entries[j].1.as_str()));
            assert(self@ =~= start.union_prefer_right(entries_map(t)));
            j = j + 1;
        }
        assert(ov.take(other.entries.len() as int) =~= ov);
    }

    /// Whether at least one of the five tagged fields was captured.
    pub fn has_any_tagged_field(&self) -> (r: bool)
        ensures
            r == (self@.dom().contains("page"@) || self@.dom().contains("coord_ref_1"@)
                || self@.dom().contains("coord_ref_2"@) || self@.dom().contains("coord_1"@)
                || self@.dom().contains("coord_2"@)),
    {
        self.contains_key("page") || self.contains_key("coord_ref_1") || self.contains_key(
            "coord_ref_2",
        ) || self.contains_key("coord_1") || self.contains_key("coord_2")
    }
}

/// Collects the fields of an event or a span that reach a column.
#[derive(Debug)]
pub struct FieldVisitor(pub CapturedFields);

impl FieldVisitor {
    pub fn new() -> (r: Self)
        ensures
            r.0@ == Map::<Seq<char>, Seq<char>>::empty(),
    {
        FieldVisitor(CapturedFields::new())
    }

    /// The tagged fields, the column-only ones and `message` are the only fields that ever reach
    /// a column.
    pub fn keeps(name: &str) -> (r: bool)
        ensures
            r == (name@ == "message"@ || tagged_field(name@) || column_only_field(name@)),
    {
        str_eq(name, "message") || is_tagged_field(name) || is_column_only_field(name)
    }

    /// Records a kept field's value.
    pub fn record(&mut self, name: &str, value: String)
        ensures
            final(self).0@ == old(self).0@.insert(name@, value@),
    {
        self.0.insert(name, value);
    }
}

/// Where a record happened: the fields `.log.csv` puts in columns, each present when non-empty.
#[derive(Debug, PartialEq, Eq)]
pub struct CoordsRecord {
    pub report: Option<String>,
    pub page: Option<String>,
    pub first_ref: Option<String>,
    pub second_ref: Option<String>,
    pub first: Option<String>,
    pub second: Option<String>,
}

/// A coordinate as a record carries it: the captured value when it is non-empty.
pub open spec fn coord_of(fields: Map<Seq<char>, Seq<char>>, name: Seq<char>) -> Option<Seq<char>> {
    if fields.dom().contains(name) && fields[name].len() > 0 {
        Some(fields[name])
    } else {
        None
    }
}

/// The text of an optional text.
pub open spec fn opt_view(o: Option<String>) -> Option<Seq<char>> {
    match o {
        Some(s) => Some(s@),
        None => None,
    }
}

fn coord(fields: &CapturedFields, name: &str) -> (r: Option<String>)
    ensures
        opt_view(r) == coord_of(fields@, name@),
{
    let value = fields.get(name);
    if value.unicode_len() == 0 {
        None
    } else {
        Some(string_of(value))
    }
}

impl CoordsRecord {
    /// The coordinates of a record, read from its merged fields.
    pub fn from_fields(fields: &CapturedFields) -> (r: Self)
        ensures
            opt_view(r.report) == coord_of(fields@, "report"@),
            opt_view(r.page) == coord_of(fields@, "page"@),
            opt_view(r.first_ref) == coord_of(fields@, "coord_ref_1"@),
            opt_view(r.second_ref) == coord_of(fields@, "coord_ref_2"@),
            opt_view(r.first) == coord_of(fields@, "coord_1"@),
            opt_view(r.second) == coord_of(fields@, "coord_2"@),
    {
        CoordsRecord {
            report: coord(fields, "report"),
            page: coord(fields, "page"),
            first_ref: coord(fields, "coord_ref_1"),
            second_ref: coord(fields, "coord_ref_2"),
            first: coord(fields, "coord_1"),
            second: coord(fields, "coord_2"),
        }
    }

    /// Whether none of the coordinates is present.
    pub fn is_empty(&self) -> (r: bool)
        ensures
            r == (self.report is None && self.page is None && self.first_ref is None
                && self.second_ref is None && self.first is None && self.second is None),
    {
        self.report.is_none() && self.page.is_none() && self.first_ref.is_none()
            && self.second_ref.is_none() && self.first.is_none() && self.second.is_none()
    }
}

/// Collects what one event carries besides its coordinates: the message, the error if one was
/// recorded, and every field that has no column of its own.
#[derive(Debug)]
pub struct RecordVisitor {
    pub message: String,
    pub error: Option<crate::tracing_setup::ErrorRecord>,
    pub fields: CapturedFields,
}

impl RecordVisitor {
    pub fn new() -> (r: Self)
        ensures
            r.message@.len() == 0,
            r.error is None,
            r.fields@ == Map::<Seq<char>, Seq<char>>::empty(),
    {
        RecordVisitor { message: String::new(), error: None, fields: CapturedFields::new() }
    }

    /// Files one field: `message` becomes the message, a field with a column of its own is left
    /// to the coordinates, any other is kept under its name.
    pub fn put(&mut self, name: &str, value: String)
        ensures
            final(self).error == old(self).error,
            name@ == "message"@ ==> final(self).message@ == value@,
            name@ == "message"@ ==> final(self).fields@ == old(self).fields@,
            name@ != "message"@ ==> final(self).message@ == old(self).message@,
            name@ != "message"@ && (tagged_field(name@) || column_only_field(name@))
                ==> final(self).fields@ == old(self).fields@,
            name@ != "message"@ && !tagged_field(name@) && !column_only_field(name@)
                ==> final(self).fields@ == old(self).fields@.insert(name@, value@),
    {
        proof {
            reveal_strlit("message");
        }
        if str_eq(name, "message") {
            self.message = value;
        } else if is_tagged_field(name) || is_column_only_field(name) {
        } else {
            self.fields.insert(name, value);
        }
    }
}

/// The fields seen through nested layers, outermost first: each layer's fields over those of the
/// layers around it.
pub open spec fn layered(layers: Seq<Map<Seq<char>, Seq<char>>>) -> Map<Seq<char>, Seq<char>>
    decreases layers.len(),
{
    if layers.len() == 0 {
        Map::empty()
    } else {
        layered(layers.drop_last()).union_prefer_right(layers.last())
    }
}

/// The field maps of a sequence of captured field sets.
pub open spec fn field_maps(layers: Seq<&CapturedFields>) -> Seq<Map<Seq<char>, Seq<char>>> {
    layers.map_values(|c: &CapturedFields| c@)
}

/// The fields an event sees: those of its spans, outermost first, then its own; an inner span's
/// fields over an outer one's, the event's own over every span's.
pub fn fields_seen(spans: &Vec<&CapturedFields>, own: &CapturedFields) -> (r: CapturedFields)
    ensures
        r@ == layered(field_maps(spans@).push(own@)),
{
    let ghost views = field_maps(spans@);
    let mut merged = CapturedFields::new();
    assert(views.take(0) =~= Seq::<Map<Seq<char>, Seq<char>>>::empty());
    let mut i: usize = 0;
    while i < spans.len()
        invariant
            i <= spans.len(),
            views == field_maps(spans@),
            merged@ == layered(views.take(i as int)),
        decreases spans.len() - i,
    {
        merged.merge_from(spans[i]);
        assert(views.take(i + 1).drop_last() =~= views.take(i as int));
        assert(views[i as int] == spans@[i as int]@);
        i = i + 1;
    }
    merged.merge_from(own);
    assert(views.take(spans.len() as int) =~= views);
    assert(views.push(own@).drop_last() =~= views);
    merged
}

} // verus!
