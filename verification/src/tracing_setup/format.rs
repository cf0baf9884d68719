//! The layout of a line of stderr and of the labels that name where an event happened.
//!
//! A span renders as `name[value]`, spans are joined with `/`, and a value is quoted only where
//! leaving it bare would be ambiguous. Quoting follows CSV's convention (doubling inner quotes),
//! never `Debug`'s, so that a company printed `Sté Générale` reaches the terminal as written.

use vstd::prelude::*;

use crate::text::{contains_char, join, join_strings, push_char, str_eq, string_of};
use crate::tracing_setup::{level_name, LogLevel};

verus! {

/// `s` with every `"` doubled.
pub open spec fn doubled_quotes(s: Seq<char>) -> Seq<char>
    decreases s.len(),
{
    if s.len() == 0 {
        s
    } else if s.last() == '"' {
        doubled_quotes(s.drop_last()) + seq!['"', '"']
    } else {
        doubled_quotes(s.drop_last()).push(s.last())
    }
}

/// `s` between double quotes, inner quotes doubled.
pub open spec fn quoted(s: Seq<char>) -> Seq<char> {
    seq!['"'] + doubled_quotes(s) + seq!['"']
}

/// Wraps `value` in `"` and doubles any `"` inside it.
pub fn quote_value(value: &str) -> (r: String)
    ensures
        r@ == quoted(value@),
{
    let n = value.unicode_len();
    let mut out = String::new();
    push_char(&mut out, '"');
    let mut i: usize = 0;
    assert(value@.take(0) =~= Seq::<char>::empty());
    while i < n
        invariant
            n == value@.len(),
            i <= n,
            out@ == seq!['"'] + doubled_quotes(value@.take(i as int)),
        decreases n - i,
    {
        let c = value.get_char(i);
        assert(value@.take(i + 1).drop_last() =~= value@.take(i as int));
        push_char(&mut out, c);
        if c == '"' {
            push_char(&mut out, '"');
        }
        assert(out@ =~= seq!['"'] + doubled_quotes(value@.take(i + 1)));
        i = i + 1;
    }
    assert(value@.take(n as int) =~= value@);
    push_char(&mut out, '"');
    out
}

/// The values of a span's fields as stderr shows them: nothing for none, one bare, several quoted
/// and comma-separated.
pub open spec fn span_values_text(values: Seq<Seq<char>>) -> Seq<char> {
    if values.len() == 0 {
        Seq::empty()
    } else if values.len() == 1 {
        values[0]
    } else {
        join(values.map_values(|v: Seq<char>| quoted(v)), seq![','])
    }
}

/// Renders a span's fields as values only, with no `key=` prefix: `class[investments]` rather
/// than `class{class=investments}`. One field renders bare, several quoted and comma-separated,
/// since a value copied out of a report may itself hold the separator.
#[derive(Debug, Default, Clone, Copy)]
pub struct SpanValueFields;

impl SpanValueFields {
    /// The rendering of the values of a span's fields, in declaration order.
    pub fn format_fields(&self, values: &Vec<String>) -> (r: String)
        ensures
            r@ == span_values_text(values@.map_values(|v: String| v@)),
    {
        let ghost views = values@.map_values(|v: String| v@);
        if values.len() == 0 {
            return String::new();
        }
        if values.len() == 1 {
            assert(views[0] == values@[0]@);
            return string_of(values[0].as_str());
        }
        let mut quoted_values: Vec<String> = Vec::new();
        let mut i: usize = 0;
        while i < values.len()
            invariant
                i <= values.len(),
                views == values@.map_values(|v: String| v@),
                quoted_values@.map_values(|v: String| v@) == views.take(i as int).map_values(
                    |v: Seq<char>| quoted(v),
                ),
            decreases values.len() - i,
        {
            let ghost before = quoted_values@.map_values(|v: String| v@);
            let q = quote_value(values[i].as_str());
            assert(views[i as int] == values@[i as int]@);
            assert(q@ == quoted(views[i as int]));
            quoted_values.push(q);
            assert(quoted_values@.map_values(|v: String| v@) =~= before.push(q@));
            assert(views.take(i + 1).map_values(|v: Seq<char>| quoted(v)) =~= views.take(
                i as int,
            ).map_values(|v: Seq<char>| quoted(v)).push(quoted(views[i as int])));
            i = i + 1;
        }
        assert(views.take(values.len() as int) =~= views);
        let r = join_strings(&quoted_values, ",");
        proof {
            reveal_strlit(",");
            assert(","@ =~= seq![',']);
        }
        r
    }
}

/// An event's own field as stderr shows it after the message: ` name=value`, the value quoted when
/// it holds a space or a quote; nothing for `message` and `error`, which the line already carries.
pub open spec fn event_field_text(name: Seq<char>, value: Seq<char>) -> Seq<char> {
    if name == "message"@ || name == "error"@ {
        Seq::empty()
    } else {
        seq![' '] + name + seq!['='] + (if value.contains(' ') || value.contains('"') {
            quoted(value)
        } else {
            value
        })
    }
}

/// Renders one of an event's own fields for the tail of a stderr line.
pub fn format_event_field(name: &str, value: &str) -> (r: String)
    ensures
        r@ == event_field_text(name@, value@),
{
    proof {
        reveal_strlit("message");
        reveal_strlit("error");
    }
    if str_eq(name, "message") || str_eq(name, "error") {
        return String::new();
    }
    let mut out = String::new();
    push_char(&mut out, ' ');
    out.append(name);
    push_char(&mut out, '=');
    if contains_char(value, ' ') || contains_char(value, '"') {
        let q = quote_value(value);
        out.append(q.as_str());
    } else {
        out.append(value);
    }
    out
}

/// The first non-empty value, in order.
pub open spec fn first_nonempty(values: Seq<Seq<char>>) -> Option<Seq<char>>
    decreases values.len(),
{
    if values.len() == 0 {
        None
    } else if values[0].len() > 0 {
        Some(values[0])
    } else {
        first_nonempty(values.drop_first())
    }
}

/// Keeps the first non-empty value it is handed.
#[derive(Debug)]
pub struct SpanLabelVisitor(pub Option<String>);

impl SpanLabelVisitor {
    pub fn new() -> (r: Self)
        ensures
            r.0 is None,
    {
        SpanLabelVisitor(None)
    }

    /// Takes `value` unless a value is already kept or `value` is empty.
    pub fn keep_first(&mut self, value: String)
        ensures
            match old(self).0 {
                Some(kept) => final(self).0 == Some(kept),
                None => if value@.len() > 0 {
                    final(self).0 == Some(value)
                } else {
                    final(self).0 is None
                },
            },
    {
        if self.0.is_none() && value.as_str().unicode_len() != 0 {
            self.0 = Some(value);
        }
    }
}

/// A span's label: `name` when it has no non-empty field value, `name[value]` with the first
/// one otherwise.
pub open spec fn span_label(name: Seq<char>, values: Seq<Seq<char>>) -> Seq<char> {
    match first_nonempty(values) {
        None => name,
        Some(v) => name + seq!['['] + v + seq![']'],
    }
}

/// The `name[value]` rendering of one span.
#[derive(Debug)]
pub struct SpanLabel(pub String);

impl SpanLabel {
    /// The label of a span named `name` whose fields hold `values`, in declaration order.
    pub fn build(name: &str, values: &Vec<String>) -> (r: Self)
        ensures
            r.0@ == span_label(name@, values@.map_values(|v: String| v@)),
    {
        let ghost views = values@.map_values(|v: String| v@);
        let mut visitor = SpanLabelVisitor::new();
        let mut i: usize = 0;
        assert(views.skip(0) =~= views);
        while i < values.len()
            invariant
                i <= values.len(),
                views == values@.map_values(|v: String| v@),
                first_nonempty(views) == match visitor.0 {
                    Some(v) => Some(v@),
                    None => first_nonempty(views.skip(i as int)),
                },
            decreases values.len() - i,
        {
            assert(views.skip(i as int).drop_first() =~= views.skip(i + 1));
            assert(views.skip(i as int)[0] == values@[i as int]@);
            visitor.keep_first(string_of(values[i].as_str()));
            i = i + 1;
        }
        assert(views.skip(values.len() as int) =~= Seq::<Seq<char>>::empty());
        assert(views.skip(0) =~= views);
        match visitor.0 {
            None => SpanLabel(string_of(name)),
            Some(value) => {
                let mut out = string_of(name);
                push_char(&mut out, '[');
                out.append(value.as_str());
                push_char(&mut out, ']');
                SpanLabel(out)
            },
        }
    }
}

/// The `/`-separated path of the active spans' labels, outermost first; empty with no span.
pub fn activity_path(labels: &Vec<String>) -> (r: String)
    ensures
        r@ == join(labels@.map_values(|l: String| l@), "/"@),
{
    join_strings(labels, "/")
}

/// Reset sequence closing every colored run.
pub const ANSI_RESET: &'static str = "\x1b[0m";

/// Cyan: the names of the spans, the skeleton of the path.
pub const ANSI_ACTIVITY: &'static str = "\x1b[36m";

/// Bright magenta: the values inside the brackets.
pub const ANSI_PARAM: &'static str = "\x1b[95m";

/// Dark grey: the punctuation holding the path together.
pub const ANSI_SEPARATOR: &'static str = "\x1b[90m";

/// Dim: the `key=value` tail of an event's own fields.
pub const ANSI_FIELDS: &'static str = "\x1b[2m";

/// The color code of a level.
pub open spec fn level_color_code(level: LogLevel) -> Seq<char> {
    match level {
        LogLevel::Error => "\x1b[31m"@,
        LogLevel::Warn => "\x1b[33m"@,
        LogLevel::Info => "\x1b[32m"@,
        LogLevel::Debug => "\x1b[34m"@,
        LogLevel::Trace => "\x1b[35m"@,
    }
}

/// `text` in `color` when colors are on, bare otherwise.
pub open spec fn painted(ansi: bool, color: Seq<char>, text: Seq<char>) -> Seq<char> {
    if ansi {
        color + text + ANSI_RESET@
    } else {
        text
    }
}

/// A level's name right-aligned on five columns.
pub open spec fn padded_level(level: LogLevel) -> Seq<char> {
    if level_name(level).len() < 5 {
        seq![' '] + level_name(level)
    } else {
        level_name(level)
    }
}

/// One span of the path: its name, and its field values in brackets when there are any.
pub open spec fn span_segment(ansi: bool, name: Seq<char>, values: Seq<char>) -> Seq<char> {
    painted(ansi, ANSI_ACTIVITY@, name) + if values.len() > 0 {
        painted(ansi, ANSI_SEPARATOR@, seq!['[']) + painted(ansi, ANSI_PARAM@, values) + painted(
            ansi,
            ANSI_SEPARATOR@,
            seq![']'],
        )
    } else {
        Seq::empty()
    }
}

/// The spans, outermost first, joined with `/`.
pub open spec fn span_path(ansi: bool, spans: Seq<(Seq<char>, Seq<char>)>) -> Seq<char>
    decreases spans.len(),
{
    if spans.len() == 0 {
        Seq::empty()
    } else if spans.len() == 1 {
        span_segment(ansi, spans[0].0, spans[0].1)
    } else {
        span_path(ansi, spans.drop_last()) + painted(ansi, ANSI_SEPARATOR@, seq!['/']) + span_segment(
            ansi,
            spans.last().0,
            spans.last().1,
        )
    }
}

/// The event's own fields, each as `event_field_text` renders it, in order.
pub open spec fn fields_tail(fields: Seq<(Seq<char>, Seq<char>)>) -> Seq<char>
    decreases fields.len(),
{
    if fields.len() == 0 {
        Seq::empty()
    } else {
        fields_tail(fields.drop_last()) + event_field_text(fields.last().0, fields.last().1)
    }
}

/// One line of stderr: the padded level, the span path followed by `: ` when there is one, the
/// message, the event's own fields, and a newline.
pub open spec fn event_line(
    ansi: bool,
    level: LogLevel,
    spans: Seq<(Seq<char>, Seq<char>)>,
    message: Option<Seq<char>>,
    fields: Seq<(Seq<char>, Seq<char>)>,
) -> Seq<char> {
    painted(ansi, level_color_code(level), padded_level(level)) + seq![' '] + span_path(ansi, spans)
        + (if spans.len() > 0 {
        painted(ansi, ANSI_SEPARATOR@, seq![':']) + seq![' ']
    } else {
        Seq::empty()
    }) + (match message {
        Some(m) => m,
        None => Seq::empty(),
    }) + painted(ansi, ANSI_FIELDS@, fields_tail(fields)) + seq!['\n']
}

/// The names and values of a sequence of pairs of texts.
pub open spec fn pair_views(pairs: Seq<(String, String)>) -> Seq<(Seq<char>, Seq<char>)> {
    pairs.map_values(|p: (String, String)| (p.0@, p.1@))
}

/// The event format of stderr: `DEBUG run/job[EURIZON-EN23]/page[353]: message key=value`.
#[derive(Debug, Clone, Copy)]
pub struct SpanPathFormat {
    pub ansi: bool,
}

impl SpanPathFormat {
    /// `ansi` colors the line.
    pub fn new(ansi: bool) -> (r: Self)
        ensures
            r.ansi == ansi,
    {
        SpanPathFormat { ansi }
    }

    /// The color code of a level.
    pub fn level_color(level: LogLevel) -> (r: &'static str)
        ensures
            r@ == level_color_code(level),
    {
        match level {
            LogLevel::Error => "\x1b[31m",
            LogLevel::Warn => "\x1b[33m",
            LogLevel::Info => "\x1b[32m",
            LogLevel::Debug => "\x1b[34m",
            LogLevel::Trace => "\x1b[35m",
        }
    }

    /// `(prefix, suffix)` for one colored run: both empty when colors are off.
    pub fn paint(&self, color: &'static str) -> (r: (&'static str, &'static str))
        ensures
            r.0@ + r.1@ == (if self.ansi {
                color@ + ANSI_RESET@
            } else {
                Seq::empty()
            }),
            self.ansi ==> r.0@ == color@ && r.1@ == ANSI_RESET@,
            !self.ansi ==> r.0@.len() == 0 && r.1@.len() == 0,
    {
        proof {
            reveal_strlit("");
        }
        if self.ansi {
            (color, ANSI_RESET)
        } else {
            ("", "")
        }
    }

    fn push_painted(&self, out: &mut String, color: &'static str, text: &str)
        ensures
            final(out)@ == old(out)@ + painted(self.ansi, color@, text@),
    {
        let (on, off) = self.paint(color);
        out.append(on);
        out.append(text);
        out.append(off);
        assert(final(out)@ =~= old(out)@ + painted(self.ansi, color@, text@));
    }

    fn push_segment(&self, out: &mut String, name: &str, values: &str)
        ensures
            final(out)@ == old(out)@ + span_segment(self.ansi, name@, values@),
    {
        let ghost start = out@;
        self.push_painted(out, ANSI_ACTIVITY, name);
        if values.unicode_len() > 0 {
            self.push_painted(out, ANSI_SEPARATOR, "[");
            self.push_painted(out, ANSI_PARAM, values);
            self.push_painted(out, ANSI_SEPARATOR, "]");
            proof {
                reveal_strlit("[");
                reveal_strlit("]");
                assert("["@ =~= seq!['[']);
                assert("]"@ =~= seq![']']);
            }
        }
        assert(out@ =~= start + span_segment(self.ansi, name@, values@));
    }

    fn push_level(&self, out: &mut String, level: LogLevel)
        ensures
            final(out)@ == old(out)@ + painted(self.ansi, level_color_code(level), padded_level(level)),
    {
        let name = level.as_str();
        let mut padded = String::new();
        if name.unicode_len() < 5 {
            push_char(&mut padded, ' ');
        }
        padded.append(name);
        assert(padded@ =~= padded_level(level));
        self.push_painted(out, Self::level_color(level), padded.as_str());
    }

    fn push_spans(&self, out: &mut String, spans: &Vec<(String, String)>)
        ensures
            final(out)@ == old(out)@ + span_path(self.ansi, pair_views(spans@)),
    {
        let ghost sv = pair_views(spans@);
        let ghost head = out@;
        let mut i: usize = 0;
        assert(sv.take(0) =~= Seq::<(Seq<char>, Seq<char>)>::empty());
        assert(out@ =~= head + span_path(self.ansi, sv.take(0)));
        while i < spans.len()
            invariant
                i <= spans.len(),
                sv == pair_views(spans@),
                out@ == head + span_path(self.ansi, sv.take(i as int)),
            decreases spans.len() - i,
        {
            let ghost t = sv.take(i + 1);
            assert(t.drop_last() =~= sv.take(i as int));
            assert(t.last() == (spans@[i as int].0@, spans@[i as int].1@));
            if i > 0 {
                self.push_painted(out, ANSI_SEPARATOR, "/");
                proof {
                    reveal_strlit("/");
                    assert("/"@ =~= seq!['/']);
                }
            } else {
                assert(t =~= seq![t[0]]);
            }
            self.push_segment(out, spans[i].0.as_str(), spans[i].1.as_str());
            assert(out@ =~= head + span_path(self.ansi, t));
            i = i + 1;
        }
        assert(sv.take(spans.len() as int) =~= sv);
    }

    fn fields_text(fields: &Vec<(String, String)>) -> (r: String)
        ensures
            r@ == fields_tail(pair_views(fields@)),
    {
        let ghost fv = pair_views(fields@);
        let mut tail = String::new();
        let mut j: usize = 0;
        assert(fv.take(0) =~= Seq::<(Seq<char>, Seq<char>)>::empty());
        while j < fields.len()
            invariant
                j <= fields.len(),
                fv == pair_views(fields@),
                tail@ == fields_tail(fv.take(j as int)),
            decreases fields.len() - j,
        {
            let ghost t = fv.take(j + 1);
            assert(t.drop_last() =~= fv.take(j as int));
            assert(t.last() == (fields@[j as int].0@, fields@[j as int].1@));
            let piece = format_event_field(fields[j].0.as_str(), fields[j].1.as_str());
            tail.append(piece.as_str());
            j = j + 1;
        }
        assert(fv.take(fields.len() as int) =~= fv);
        tail
    }

    /// Lays out one line of stderr from an event's level, the active spans (outermost first, each
    /// with its name and its rendered field values), its message and its own fields.
    pub fn format_event(
        &self,
        level: LogLevel,
        spans: &Vec<(String, String)>,
        message: Option<&str>,
        fields: &Vec<(String, String)>,
    ) -> (r: String)
        ensures
            r@ == event_line(
                self.ansi,
                level,
                pair_views(spans@),
                match message {
                    Some(m) => Some(m@),
                    None => None,
                },
                pair_views(fields@),
            ),
    {
        let mut out = String::new();
        self.push_level(&mut out, level);
        push_char(&mut out, ' ');
        let ghost a = out@;
        self.push_spans(&mut out, spans);
        let ghost b = out@;
        if spans.len() > 0 {
            self.push_painted(&mut out, ANSI_SEPARATOR, ":");
            push_char(&mut out, ' ');
            proof {
                reveal_strlit(":");
                assert(":"@ =~= seq![':']);
            }
        }
        let ghost c = out@;
        match message {
            Some(m) => out.append(m),
            None => {},
        }
        let ghost d = out@;
        let tail = Self::fields_text(fields);
        self.push_painted(&mut out, ANSI_FIELDS, tail.as_str());
        push_char(&mut out, '\n');
        let ghost msg = match message {
            Some(m) => Some(m@),
            None => None,
        };
        assert(out@ =~= event_line(self.ansi, level, pair_views(spans@), msg, pair_views(fields@)));
        out
    }
}

} // verus!
