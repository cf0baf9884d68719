//! String normalisation for comparing fund and company names.
//!
//! Three functions of increasing aggressiveness, there to recognise as "the same name" spellings
//! that differ only by accents, punctuation, case or spacing. None of them can fail.

use vstd::prelude::*;

use crate::text::{join, push_char, string_of};

verus! {

/// The Unicode `White_Space` property, the definition `char::is_whitespace`, `str::trim` and
/// `str::split_whitespace` go by.
pub open spec fn white_space(c: char) -> bool {
    ||| '\u{9}' <= c <= '\u{d}'
    ||| c == ' '
    ||| c == '\u{85}'
    ||| c == '\u{a0}'
    ||| c == '\u{1680}'
    ||| '\u{2000}' <= c <= '\u{200a}'
    ||| c == '\u{2028}'
    ||| c == '\u{2029}'
    ||| c == '\u{202f}'
    ||| c == '\u{205f}'
    ||| c == '\u{3000}'
}

/// Whether `c` is white space.
pub fn is_white_space(c: char) -> (r: bool)
    ensures
        r == white_space(c),
{
    ('\u{9}' <= c && c <= '\u{d}') || c == ' ' || c == '\u{85}' || c == '\u{a0}' || c == '\u{1680}'
        || ('\u{2000}' <= c && c <= '\u{200a}') || c == '\u{2028}' || c == '\u{2029}' || c == '\u{202f}'
        || c == '\u{205f}' || c == '\u{3000}'
}

/// What `str::to_lowercase` returns for a text: its lowercase equivalent, as defined by the Unicode
/// `Lowercase` property.
pub uninterp spec fn lowercase_of(s: Seq<char>) -> Seq<char>;

/// `str::to_lowercase`. Claimed: the result depends on the characters of `s` alone and is
/// [`lowercase_of`] of them; which characters it holds is left unsaid, Unicode's case tables being
/// too long to state here.
#[verifier::external_body]
fn lowercase(s: &str) -> (r: String)
    ensures
        r@ == lowercase_of(s@),
{
    s.to_lowercase()
}

/// Punctuation that separates two words: it becomes a space.
pub open spec fn separating(c: char) -> bool {
    c == ',' || c == '-' || c == '–' || c == '+'
}

/// Punctuation that is noise: it disappears, or becomes a space when it is read as a separator.
pub open spec fn noise(c: char) -> bool {
    ||| c == '!'
    ||| c == '?'
    ||| c == '{'
    ||| c == '}'
    ||| c == '['
    ||| c == ']'
    ||| c == '('
    ||| c == ')'
    ||| c == '"'
    ||| c == '\''
    ||| c == '’'
    ||| c == '/'
    ||| c == '.'
}

/// `t` with every noise punctuation character replaced by a space.
pub open spec fn noise_spaced(t: Seq<char>) -> Seq<char> {
    t.map_values(|c: char| if noise(c) { ' ' } else { c })
}

/// The characters the translation rewrites.
pub open spec fn rewritten(c: char) -> bool {
    ||| c == 'é' || c == 'è' || c == 'ê' || c == 'ë'
    ||| c == 'á' || c == 'à' || c == 'â' || c == 'ä'
    ||| c == 'í' || c == 'ì' || c == 'î' || c == 'ï'
    ||| c == 'ó' || c == 'ò' || c == 'ô' || c == 'ö'
    ||| c == 'ú' || c == 'ù' || c == 'û' || c == 'ü'
    ||| c == 'ñ' || c == 'ç' || c == 'ß' || c == 'å' || c == 'ø' || c == 'œ' || c == 'æ' || c == '&'
    ||| separating(c)
    ||| noise(c)
}

/// The normalised replacement of one already-lowercased character: accented Latin letters
/// collapse onto their ASCII equivalent, a few expand (`ß` -> `ss`, `œ` -> `oe`, `æ` -> `ae`,
/// `&` -> `and`), separating punctuation becomes a space, noise punctuation disappears (or becomes
/// a space when `punctuation_separates`), everything else passes through.
pub open spec fn translated(c: char, punctuation_separates: bool) -> Seq<char> {
    if c == 'é' || c == 'è' || c == 'ê' || c == 'ë' {
        seq!['e']
    } else if c == 'á' || c == 'à' || c == 'â' || c == 'ä' || c == 'å' {
        seq!['a']
    } else if c == 'í' || c == 'ì' || c == 'î' || c == 'ï' {
        seq!['i']
    } else if c == 'ó' || c == 'ò' || c == 'ô' || c == 'ö' || c == 'ø' {
        seq!['o']
    } else if c == 'ú' || c == 'ù' || c == 'û' || c == 'ü' {
        seq!['u']
    } else if c == 'ñ' {
        seq!['n']
    } else if c == 'ç' {
        seq!['c']
    } else if c == 'ß' {
        seq!['s', 's']
    } else if c == 'œ' {
        seq!['o', 'e']
    } else if c == 'æ' {
        seq!['a', 'e']
    } else if c == '&' {
        seq!['a', 'n', 'd']
    } else if separating(c) {
        seq![' ']
    } else if noise(c) {
        if punctuation_separates {
            seq![' ']
        } else {
            Seq::empty()
        }
    } else {
        seq![c]
    }
}

/// Every character translated, in order.
pub open spec fn translate_all(s: Seq<char>, punctuation_separates: bool) -> Seq<char>
    decreases s.len(),
{
    if s.len() == 0 {
        Seq::empty()
    } else {
        translate_all(s.drop_last(), punctuation_separates) + translated(s.last(), punctuation_separates)
    }
}

/// The maximal runs of non-white-space characters of `s`, in order.
pub open spec fn words(s: Seq<char>) -> Seq<Seq<char>>
    decreases s.len(),
{
    if s.len() == 0 {
        Seq::empty()
    } else {
        let p = words(s.drop_last());
        let c = s.last();
        if white_space(c) {
            p
        } else if s.len() >= 2 && !white_space(s[s.len() - 2]) && p.len() > 0 {
            p.update(p.len() - 1, p.last().push(c))
        } else {
            p.push(seq![c])
        }
    }
}

/// The words of `s` joined by single spaces: trimmed, with every run of white space collapsed.
pub open spec fn collapse(s: Seq<char>) -> Seq<char> {
    join(words(s), seq![' '])
}

/// Deep normalisation of `s`.
pub open spec fn deep_normalized(s: Seq<char>, punctuation_separates: bool) -> Seq<char> {
    collapse(translate_all(lowercase_of(s), punctuation_separates))
}

/// `s` without its leading and trailing white space.
pub open spec fn trimmed(s: Seq<char>) -> Seq<char>
    decreases s.len(),
{
    if s.len() == 0 {
        s
    } else if white_space(s[0]) {
        trimmed(s.drop_first())
    } else if white_space(s.last()) {
        trimmed(s.drop_last())
    } else {
        s
    }
}


/// No character that the translation rewrites.
pub open spec fn untouched(t: Seq<char>) -> bool {
    forall|k: int| 0 <= k < t.len() ==> !rewritten(#[trigger] t[k])
}

/// Collapsed form: no white space at either end, every white space character a plain `' '`, and
/// never two white space characters side by side.
pub open spec fn is_collapsed(t: Seq<char>) -> bool {
    &&& t.len() > 0 ==> !white_space(t[0]) && !white_space(t.last())
    &&& forall|k: int| 0 <= k < t.len() && white_space(#[trigger] t[k]) ==> t[k] == ' '
    &&& forall|k: int, j: int|
        0 <= k && j == k + 1 && j < t.len() ==> !(white_space(#[trigger] t[k]) && white_space(
            #[trigger] t[j],
        ))
}

/// The characters of `s` that are not white space, in order.
pub open spec fn without_white_space(s: Seq<char>) -> Seq<char>
    decreases s.len(),
{
    if s.len() == 0 {
        s
    } else if white_space(s.last()) {
        without_white_space(s.drop_last())
    } else {
        without_white_space(s.drop_last()).push(s.last())
    }
}

/// Light normalisation of `s`: trimmed, lowercased when `lower`, white space runs collapsed.
pub open spec fn lightly_normalized(s: Seq<char>, lower: bool) -> Seq<char> {
    if lower {
        collapse(lowercase_of(trimmed(s)))
    } else {
        collapse(trimmed(s))
    }
}

/// Single-word normalisation of `s`: every white space character removed, then lowercased when
/// `lower`.
pub open spec fn word_normalized(s: Seq<char>, lower: bool) -> Seq<char> {
    if lower {
        lowercase_of(without_white_space(s))
    } else {
        without_white_space(s)
    }
}

proof fn lemma_join_push(p: Seq<Seq<char>>, w: Seq<char>, sep: Seq<char>)
    ensures
        join(p.push(w), sep) == (if p.len() == 0 {
            w
        } else {
            join(p, sep) + sep + w
        }),
{
    assert(p.push(w).drop_last() =~= p);
}

proof fn lemma_join_extend(p: Seq<Seq<char>>, c: char, sep: Seq<char>)
    requires
        p.len() > 0,
    ensures
        join(p.update(p.len() - 1, p.last().push(c)), sep) == join(p, sep).push(c),
{
    let q = p.update(p.len() - 1, p.last().push(c));
    assert(q.drop_last() =~= p.drop_last());
    if p.len() > 1 {
        assert(join(q, sep) =~= join(p, sep).push(c));
    }
}

/// How the words of `s` grow by one character.
proof fn lemma_collapse_step(s: Seq<char>)
    requires
        s.len() > 0,
    ensures
        white_space(s.last()) ==> collapse(s) == collapse(s.drop_last()),
        !white_space(s.last()) && s.len() >= 2 && !white_space(s[s.len() - 2]) ==> words(
            s.drop_last(),
        ).len() > 0 && collapse(s) == collapse(s.drop_last()).push(s.last()),
        !white_space(s.last()) && (s.len() < 2 || white_space(s[s.len() - 2])) ==> collapse(s) == (
        if words(s.drop_last()).len() == 0 {
            seq![s.last()]
        } else {
            collapse(s.drop_last()) + seq![' '] + seq![s.last()]
        }),
        !white_space(s.last()) ==> words(s).len() > 0,
{
    let t = s.drop_last();
    let p = words(t);
    let c = s.last();
    if !white_space(c) {
        if s.len() >= 2 && !white_space(s[s.len() - 2]) {
            assert(t.last() == s[s.len() - 2]);
            assert(t.drop_last().len() < t.len());
            assert(words(t).len() > 0);
            lemma_join_extend(p, c, seq![' ']);
        } else {
            lemma_join_push(p, seq![c], seq![' ']);
        }
    }
}

/// The shape of a collapsed text: collapsed, empty exactly when there is no word, and free of
/// rewritten characters when its source is.
proof fn lemma_collapse_shape(s: Seq<char>)
    ensures
        is_collapsed(collapse(s)),
        collapse(s).len() == 0 <==> words(s).len() == 0,
        untouched(s) ==> untouched(collapse(s)),
    decreases s.len(),
{
    if s.len() == 0 {
        assert(collapse(s) =~= Seq::<char>::empty());
    } else {
        let t = s.drop_last();
        let c = s.last();
        lemma_collapse_shape(t);
        lemma_collapse_step(s);
        let a = collapse(t);
        if untouched(s) {
            assert forall|k: int| 0 <= k < t.len() implies !rewritten(#[trigger] t[k]) by {
                assert(t[k] == s[k]);
            }
            assert(!rewritten(s[s.len() - 1]));
        }
        if white_space(c) {
        } else if s.len() >= 2 && !white_space(s[s.len() - 2]) {
            let b = a.push(c);
            assert(b.len() > 0);
            assert forall|k: int, j: int|
                0 <= k && j == k + 1 && j < b.len() implies !(white_space(#[trigger] b[k])
                && white_space(#[trigger] b[j])) by {
                if j < a.len() {
                    assert(b[k] == a[k] && b[j] == a[j]);
                }
            }
            assert forall|k: int| 0 <= k < b.len() && white_space(#[trigger] b[k]) implies b[k]
                == ' ' by {
                if k < a.len() {
                    assert(b[k] == a[k]);
                }
            }
            if untouched(s) {
                assert forall|k: int| 0 <= k < b.len() implies !rewritten(#[trigger] b[k]) by {
                    if k < a.len() {
                        assert(b[k] == a[k]);
                    }
                }
            }
        } else if words(t).len() == 0 {
            assert(collapse(s) =~= seq![c]);
        } else {
            let b = a + seq![' '] + seq![c];
            assert(a.len() > 0);
            assert(!white_space(a.last()));
            assert forall|k: int, j: int|
                0 <= k && j == k + 1 && j < b.len() implies !(white_space(#[trigger] b[k])
                && white_space(#[trigger] b[j])) by {
                if j < a.len() {
                    assert(b[k] == a[k] && b[j] == a[j]);
                } else if j == a.len() {
                    assert(b[k] == a.last());
                }
            }
            assert forall|k: int| 0 <= k < b.len() && white_space(#[trigger] b[k]) implies b[k]
                == ' ' by {
                if k < a.len() {
                    assert(b[k] == a[k]);
                }
            }
            if untouched(s) {
                assert forall|k: int| 0 <= k < b.len() implies !rewritten(#[trigger] b[k]) by {
                    if k < a.len() {
                        assert(b[k] == a[k]);
                    }
                }
            }
            assert(b[0] == a[0]);
        }
    }
}

/// A collapsed text is left as it is by collapsing.
proof fn lemma_collapse_fixes(t: Seq<char>)
    requires
        is_collapsed(t),
    ensures
        collapse(t) == t,
    decreases t.len(),
{
    if t.len() > 0 {
        let c = t.last();
        let t1 = t.drop_last();
        lemma_collapse_step(t);
        if t1.len() == 0 {
            assert(t =~= seq![c]);
        } else if white_space(t1.last()) {
            let n = t.len() as int;
            assert(t[n - 2] == t1.last());
            assert(n - 2 != 0);
            assert(!(white_space(t[n - 3]) && white_space(t[n - 2])));
            let t2 = t1.drop_last();
            assert(t2.last() == t[n - 3]);
            assert(t2[0] == t[0]);
            assert forall|k: int, j: int|
                0 <= k && j == k + 1 && j < t2.len() implies !(white_space(#[trigger] t2[k])
                && white_space(#[trigger] t2[j])) by {
                assert(t2[k] == t[k] && t2[j] == t[j]);
            }
            assert forall|k: int| 0 <= k < t2.len() && white_space(#[trigger] t2[k]) implies t2[k]
                == ' ' by {
                assert(t2[k] == t[k]);
            }
            lemma_collapse_fixes(t2);
            lemma_collapse_step(t1);
            assert(t1.last() == ' ');
            assert(words(t2).len() > 0);
            assert(t =~= t2 + seq![' '] + seq![c]);
        } else {
            let n = t.len() as int;
            assert(t1.last() == t[n - 2]);
            assert(t1[0] == t[0]);
            assert forall|k: int, j: int|
                0 <= k && j == k + 1 && j < t1.len() implies !(white_space(#[trigger] t1[k])
                && white_space(#[trigger] t1[j])) by {
                assert(t1[k] == t[k] && t1[j] == t[j]);
            }
            assert forall|k: int| 0 <= k < t1.len() && white_space(#[trigger] t1[k]) implies t1[k]
                == ' ' by {
                assert(t1[k] == t[k]);
            }
            lemma_collapse_fixes(t1);
            assert(t =~= t1.push(c));
        }
    }
}

/// Appends to `out` the normalised replacement of one already-lowercased character.
fn push_translated(out: &mut String, c: char, punctuation_separates: bool)
    ensures
        final(out)@ == old(out)@ + translated(c, punctuation_separates),
{
    let ghost before = out@;
    if c == 'é' || c == 'è' || c == 'ê' || c == 'ë' {
        push_char(out, 'e');
    } else if c == 'á' || c == 'à' || c == 'â' || c == 'ä' || c == 'å' {
        push_char(out, 'a');
    } else if c == 'í' || c == 'ì' || c == 'î' || c == 'ï' {
        push_char(out, 'i');
    } else if c == 'ó' || c == 'ò' || c == 'ô' || c == 'ö' || c == 'ø' {
        push_char(out, 'o');
    } else if c == 'ú' || c == 'ù' || c == 'û' || c == 'ü' {
        push_char(out, 'u');
    } else if c == 'ñ' {
        push_char(out, 'n');
    } else if c == 'ç' {
        push_char(out, 'c');
    } else if c == 'ß' {
        push_char(out, 's');
        push_char(out, 's');
    } else if c == 'œ' {
        push_char(out, 'o');
        push_char(out, 'e');
    } else if c == 'æ' {
        push_char(out, 'a');
        push_char(out, 'e');
    } else if c == '&' {
        push_char(out, 'a');
        push_char(out, 'n');
        push_char(out, 'd');
    } else if c == ',' || c == '-' || c == '–' || c == '+' {
        push_char(out, ' ');
    } else if c == '!' || c == '?' || c == '{' || c == '}' || c == '[' || c == ']' || c == '(' || c == ')'
        || c == '"' || c == '\'' || c == '’' || c == '/' || c == '.' {
        if punctuation_separates {
            push_char(out, ' ');
        }
    } else {
        push_char(out, c);
    }
    assert(out@ =~= before + translated(c, punctuation_separates));
}

/// The words of `s` joined by single spaces: leading and trailing white space dropped, every run
/// of white space inside turned into one space. What light normalisation does after the optional
/// lowercasing.
pub fn collapse_text(s: &str) -> (r: String)
    ensures
        r@ == collapse(s@),
{
    let n = s.unicode_len();
    let mut out = String::new();
    let mut has_word = false;
    let mut pending = false;
    let mut i: usize = 0;
    assert(s@.take(0) =~= Seq::<char>::empty());
    while i < n
        invariant
            n == s@.len(),
            i <= n,
            out@ == collapse(s@.take(i as int)),
            has_word == (words(s@.take(i as int)).len() > 0),
            pending == (has_word && i > 0 && white_space(s@[i - 1])),
        decreases n - i,
    {
        let c = s.get_char(i);
        let ghost next = s@.take(i + 1);
        proof {
            assert(next.drop_last() =~= s@.take(i as int));
            assert(next.last() == c);
            if i > 0 {
                assert(next[next.len() - 2] == s@[i - 1]);
            }
            lemma_collapse_step(next);
        }
        if is_white_space(c) {
            if has_word {
                pending = true;
            }
        } else {
            if pending {
                push_char(&mut out, ' ');
                pending = false;
            }
            push_char(&mut out, c);
            has_word = true;
            proof {
                if i > 0 && !white_space(s@[i - 1]) {
                } else if words(s@.take(i as int)).len() == 0 {
                    assert(out@ =~= seq![c]);
                } else {
                    assert(out@ =~= collapse(s@.take(i as int)) + seq![' '] + seq![c]);
                }
            }
        }
        i = i + 1;
    }
    assert(s@.take(n as int) =~= s@);
    out
}

/// Every character of `s` translated.
fn translate_text(s: &str, punctuation_separates: bool) -> (r: String)
    ensures
        r@ == translate_all(s@, punctuation_separates),
{
    let n = s.unicode_len();
    let mut out = String::new();
    let mut i: usize = 0;
    assert(s@.take(0) =~= Seq::<char>::empty());
    while i < n
        invariant
            n == s@.len(),
            i <= n,
            out@ == translate_all(s@.take(i as int), punctuation_separates),
        decreases n - i,
    {
        let c = s.get_char(i);
        assert(s@.take(i + 1).drop_last() =~= s@.take(i as int));
        push_translated(&mut out, c, punctuation_separates);
        i = i + 1;
    }
    assert(s@.take(n as int) =~= s@);
    out
}

/// Deep normalisation of a text that is already lowercase: accents and noise punctuation removed,
/// separators turned into spaces, runs of spaces collapsed into one. What deep normalisation does
/// after lowercasing.
pub fn normalize_lowercased(lowered: &str, punctuation_separates: bool) -> (r: String)
    ensures
        r@ == collapse(translate_all(lowered@, punctuation_separates)),
{
    let translated = translate_text(lowered, punctuation_separates);
    collapse_text(translated.as_str())
}

fn normalize(input: &str, punctuation_separates: bool) -> (r: String)
    ensures
        r@ == deep_normalized(input@, punctuation_separates),
{
    let lowered = lowercase(input);
    normalize_lowercased(lowered.as_str(), punctuation_separates)
}

/// Deep normalisation: lowercase, accents and noise punctuation removed, separators turned into
/// spaces, runs of spaces collapsed into one.
///
/// This is the form used for a fund's identity: two names that normalise to the same text are
/// taken to be the same fund.
pub fn deep_normalize_string(input: &str) -> (r: String)
    ensures
        r@ == deep_normalized(input@, false),
{
    normalize(input, false)
}

/// Deep normalisation reading the noise punctuation as a separator: `Amazon.com` becomes
/// `amazon com` where [`deep_normalize_string`] makes it `amazoncom`.
pub fn deep_normalize_string_split_on_punctuation(input: &str) -> (r: String)
    ensures
        r@ == deep_normalized(input@, true),
{
    normalize(input, true)
}

proof fn lemma_trimmed_subrange(s: Seq<char>, i: int, j: int)
    requires
        0 <= i <= j <= s.len(),
        forall|k: int| 0 <= k < i ==> white_space(#[trigger] s[k]),
        forall|k: int| j <= k < s.len() ==> white_space(#[trigger] s[k]),
        i < j ==> !white_space(s[i]) && !white_space(s[j - 1]),
    ensures
        trimmed(s) == s.subrange(i, j),
    decreases s.len(),
{
    if s.len() == 0 {
        assert(s.subrange(i, j) =~= s);
    } else if white_space(s[0]) {
        let t = s.drop_first();
        if i == 0 {
            assert forall|k: int| 0 <= k < t.len() implies white_space(#[trigger] t[k]) by {
                assert(t[k] == s[k + 1]);
            }
            lemma_trimmed_subrange(t, 0, 0);
            assert(s.subrange(i, j) =~= t.subrange(0, 0));
        } else {
            assert forall|k: int| 0 <= k < i - 1 implies white_space(#[trigger] t[k]) by {
                assert(t[k] == s[k + 1]);
            }
            assert forall|k: int| j - 1 <= k < t.len() implies white_space(#[trigger] t[k]) by {
                assert(t[k] == s[k + 1]);
            }
            lemma_trimmed_subrange(t, i - 1, j - 1);
            assert(s.subrange(i, j) =~= t.subrange(i - 1, j - 1));
        }
    } else if white_space(s.last()) {
        let t = s.drop_last();
        assert(j < s.len());
        assert forall|k: int| 0 <= k < i implies white_space(#[trigger] t[k]) by {
            assert(t[k] == s[k]);
        }
        assert forall|k: int| j <= k < t.len() implies white_space(#[trigger] t[k]) by {
            assert(t[k] == s[k]);
        }
        lemma_trimmed_subrange(t, i, j);
        assert(s.subrange(i, j) =~= t.subrange(i, j));
    } else {
        assert(i == 0);
        assert(j == s.len());
        assert(s.subrange(i, j) =~= s);
    }
}

/// `s` without its leading and trailing white space.
fn trim(s: &str) -> (r: &str)
    ensures
        r@ == trimmed(s@),
{
    let n = s.unicode_len();
    let mut i: usize = 0;
    while i < n && is_white_space(s.get_char(i))
        invariant
            n == s@.len(),
            i <= n,
            forall|k: int| 0 <= k < i ==> white_space(#[trigger] s@[k]),
        decreases n - i,
    {
        i = i + 1;
    }
    let mut j: usize = n;
    while j > i && is_white_space(s.get_char(j - 1))
        invariant
            n == s@.len(),
            i <= j <= n,
            i < n ==> !white_space(s@[i as int]),
            forall|k: int| j <= k < n ==> white_space(#[trigger] s@[k]),
        decreases j,
    {
        j = j - 1;
    }
    proof {
        lemma_trimmed_subrange(s@, i as int, j as int);
    }
    s.substring_char(i, j)
}

/// Light normalisation: trim, optional lowercasing, runs of white space collapsed into one space.
///
/// Unlike [`deep_normalize_string`] it touches neither accents nor punctuation.
pub fn normalize_string(input: &str, lower: bool) -> (r: String)
    ensures
        r@ == lightly_normalized(input@, lower),
{
    let trimmed_input = trim(input);
    if lower {
        let lowered = lowercase(trimmed_input);
        collapse_text(lowered.as_str())
    } else {
        collapse_text(trimmed_input)
    }
}

/// Single-word normalisation: removes every white space character instead of collapsing runs of
/// them, and optionally lowercases.
pub fn normalize_word(input: &str, lower: bool) -> (r: String)
    ensures
        r@ == word_normalized(input@, lower),
{
    let n = input.unicode_len();
    let mut out = String::new();
    let mut i: usize = 0;
    assert(input@.take(0) =~= Seq::<char>::empty());
    while i < n
        invariant
            n == input@.len(),
            i <= n,
            out@ == without_white_space(input@.take(i as int)),
        decreases n - i,
    {
        let c = input.get_char(i);
        assert(input@.take(i + 1).drop_last() =~= input@.take(i as int));
        if !is_white_space(c) {
            push_char(&mut out, c);
        }
        i = i + 1;
    }
    assert(input@.take(n as int) =~= input@);
    if lower {
        lowercase(out.as_str())
    } else {
        out
    }
}

proof fn lemma_translate_all_untouched(s: Seq<char>, punctuation_separates: bool)
    ensures
        untouched(translate_all(s, punctuation_separates)),
    decreases s.len(),
{
    if s.len() > 0 {
        lemma_translate_all_untouched(s.drop_last(), punctuation_separates);
        let a = translate_all(s.drop_last(), punctuation_separates);
        let b = translated(s.last(), punctuation_separates);
        assert(untouched(b));
        assert forall|k: int| 0 <= k < (a + b).len() implies !rewritten(#[trigger] (a + b)[k]) by {
            if k < a.len() {
                assert((a + b)[k] == a[k]);
            } else {
                assert((a + b)[k] == b[k - a.len()]);
            }
        }
    }
}

proof fn lemma_translate_all_fixes(t: Seq<char>, punctuation_separates: bool)
    requires
        untouched(t),
    ensures
        translate_all(t, punctuation_separates) == t,
    decreases t.len(),
{
    if t.len() > 0 {
        let u = t.drop_last();
        assert forall|k: int| 0 <= k < u.len() implies !rewritten(#[trigger] u[k]) by {
            assert(u[k] == t[k]);
        }
        lemma_translate_all_fixes(u, punctuation_separates);
        assert(!rewritten(t[t.len() - 1]));
        assert(t =~= u + seq![t.last()]);
    }
}

proof fn lemma_translate_all_without_noise(t: Seq<char>)
    requires
        forall|k: int| 0 <= k < t.len() ==> !noise(#[trigger] t[k]),
    ensures
        translate_all(t, true) == translate_all(t, false),
    decreases t.len(),
{
    if t.len() > 0 {
        let u = t.drop_last();
        assert forall|k: int| 0 <= k < u.len() implies !noise(#[trigger] u[k]) by {
            assert(u[k] == t[k]);
        }
        lemma_translate_all_without_noise(u);
        assert(!noise(t[t.len() - 1]));
    }
}

/// Deep normalisation never leaves white space at either end, nor two white space characters side
/// by side, and the only white space it leaves is the plain space.
pub proof fn law_deep_normalized_is_collapsed(s: Seq<char>, punctuation_separates: bool)
    ensures
        is_collapsed(deep_normalized(s, punctuation_separates)),
{
    lemma_collapse_shape(translate_all(lowercase_of(s), punctuation_separates));
}

/// Deep normalisation is idempotent: normalising a normalised text gives it back, wherever
/// lowercasing leaves that text as it is.
pub proof fn law_deep_normalize_idempotent(s: Seq<char>, punctuation_separates: bool)
    requires
        lowercase_of(deep_normalized(s, punctuation_separates)) == deep_normalized(
            s,
            punctuation_separates,
        ),
    ensures
        deep_normalized(deep_normalized(s, punctuation_separates), punctuation_separates)
            == deep_normalized(s, punctuation_separates),
{
    let t = translate_all(lowercase_of(s), punctuation_separates);
    let d = collapse(t);
    lemma_translate_all_untouched(lowercase_of(s), punctuation_separates);
    lemma_collapse_shape(t);
    lemma_translate_all_fixes(d, punctuation_separates);
    lemma_collapse_fixes(d);
}

/// Reading noise punctuation as a separator changes nothing where no noise punctuation occurs:
/// both deep normalisations agree there.
pub proof fn law_split_agrees_without_noise(s: Seq<char>)
    requires
        forall|k: int| 0 <= k < lowercase_of(s).len() ==> !noise(#[trigger] lowercase_of(s)[k]),
    ensures
        deep_normalized(s, true) == deep_normalized(s, false),
{
    lemma_translate_all_without_noise(lowercase_of(s));
}

/// Light normalisation leaves a collapsed text.
pub proof fn law_normalize_string_is_collapsed(s: Seq<char>, lower: bool)
    ensures
        is_collapsed(lightly_normalized(s, lower)),
{
    if lower {
        lemma_collapse_shape(lowercase_of(trimmed(s)));
    } else {
        lemma_collapse_shape(trimmed(s));
    }
}

/// Light normalisation is idempotent for both casings (when lowercasing, wherever lowercasing
/// leaves the normalised text as it is).
pub proof fn law_normalize_string_idempotent(s: Seq<char>, lower: bool)
    requires
        lower ==> lowercase_of(lightly_normalized(s, lower)) == lightly_normalized(s, lower),
    ensures
        lightly_normalized(lightly_normalized(s, lower), lower) == lightly_normalized(s, lower),
{
    let n = lightly_normalized(s, lower);
    law_normalize_string_is_collapsed(s, lower);
    assert(trimmed(n) == n);
    lemma_collapse_fixes(n);
}

proof fn lemma_without_white_space(s: Seq<char>)
    ensures
        forall|k: int|
            0 <= k < without_white_space(s).len() ==> !white_space(
                #[trigger] without_white_space(s)[k],
            ),
    decreases s.len(),
{
    if s.len() > 0 {
        let a = without_white_space(s.drop_last());
        lemma_without_white_space(s.drop_last());
        if !white_space(s.last()) {
            assert forall|k: int| 0 <= k < a.push(s.last()).len() implies !white_space(
                #[trigger] a.push(s.last())[k],
            ) by {
                if k < a.len() {
                    assert(a.push(s.last())[k] == a[k]);
                }
            }
        }
    }
}

/// Single-word normalisation without lowercasing leaves no white space at all.
pub proof fn law_normalize_word_has_no_white_space(s: Seq<char>)
    ensures
        forall|k: int|
            0 <= k < word_normalized(s, false).len() ==> !white_space(
                #[trigger] word_normalized(s, false)[k],
            ),
{
    lemma_without_white_space(s);
}

proof fn lemma_translate_all_spaced(t: Seq<char>)
    ensures
        translate_all(t, true) == translate_all(noise_spaced(t), false),
    decreases t.len(),
{
    if t.len() > 0 {
        let u = t.drop_last();
        lemma_translate_all_spaced(u);
        let st = noise_spaced(t);
        assert(st.drop_last() =~= noise_spaced(u));
        assert(st.last() == (if noise(t.last()) { ' ' } else { t.last() }));
        assert(translated(' ', false) =~= seq![' ']);
    }
}

/// Reading noise punctuation as a separator is the same as first turning every noise
/// punctuation character of the lowercased text into a space: for every lowercased text `t`,
/// [`normalize_lowercased`] of `t` reading noise as a separator equals it of `t` with the noise
/// spaced out, not reading it so.
pub proof fn law_split_is_spacing_noise(t: Seq<char>)
    ensures
        collapse(translate_all(t, true)) == collapse(translate_all(noise_spaced(t), false)),
        deep_normalized(t, true) == collapse(translate_all(noise_spaced(lowercase_of(t)), false)),
{
    lemma_translate_all_spaced(t);
    lemma_translate_all_spaced(lowercase_of(t));
}

/// Splitting on punctuation equals deep normalisation of the input with every noise punctuation
/// character replaced by a space, wherever lowercasing the input commutes with that replacement.
pub proof fn law_split_is_deep_after_spacing_noise(s: Seq<char>)
    requires
        lowercase_of(noise_spaced(s)) == noise_spaced(lowercase_of(s)),
    ensures
        deep_normalized(s, true) == deep_normalized(noise_spaced(s), false),
{
    lemma_translate_all_spaced(lowercase_of(s));
}

/// Deep normalisation leaves none of the characters it rewrites: no separating or noise
/// punctuation, no accented letter it maps to ASCII, no `ß`, `œ`, `æ`, `å`, `ø` and no `&`.
pub proof fn law_deep_normalized_keeps_no_rewritten_character(
    s: Seq<char>,
    punctuation_separates: bool,
)
    ensures
        untouched(deep_normalized(s, punctuation_separates)),
{
    let t = translate_all(lowercase_of(s), punctuation_separates);
    lemma_translate_all_untouched(lowercase_of(s), punctuation_separates);
    lemma_collapse_shape(t);
}

proof fn lemma_words_drop_leading_space(s: Seq<char>)
    requires
        s.len() > 0,
        white_space(s[0]),
    ensures
        words(s.drop_first()) == words(s),
    decreases s.len(),
{
    if s.len() == 1 {
        assert(s.drop_first() =~= Seq::<char>::empty());
        assert(s.drop_last() =~= Seq::<char>::empty());
    } else {
        let u = s.drop_last();
        assert(u[0] == s[0]);
        lemma_words_drop_leading_space(u);
        let d = s.drop_first();
        assert(d.drop_last() =~= u.drop_first());
        assert(d.last() == s.last());
        if d.len() >= 2 {
            assert(d[d.len() - 2] == s[s.len() - 2]);
        }
    }
}

proof fn lemma_words_trimmed(s: Seq<char>)
    ensures
        words(trimmed(s)) == words(s),
    decreases s.len(),
{
    if s.len() > 0 {
        if white_space(s[0]) {
            lemma_words_drop_leading_space(s);
            lemma_words_trimmed(s.drop_first());
        } else if white_space(s.last()) {
            lemma_words_trimmed(s.drop_last());
        }
    }
}

proof fn lemma_words_collapse(s: Seq<char>)
    ensures
        words(collapse(s)) == words(s),
    decreases s.len(),
{
    if s.len() > 0 {
        let t = s.drop_last();
        let c = s.last();
        lemma_words_collapse(t);
        lemma_collapse_step(s);
        lemma_collapse_shape(t);
        let a = collapse(t);
        if white_space(c) {
            assert(words(s) == words(t));
        } else if s.len() >= 2 && !white_space(s[s.len() - 2]) {
            let b = a.push(c);
            assert(b.drop_last() =~= a);
            assert(a.len() > 0);
            assert(b[b.len() - 2] == a.last());
            assert(words(b) == words(a).update(words(a).len() - 1, words(a).last().push(c)));
            assert(words(s) == words(t).update(words(t).len() - 1, words(t).last().push(c)));
        } else if words(t).len() == 0 {
            assert(seq![c].drop_last() =~= Seq::<char>::empty());
            assert(words(seq![c]) == words(Seq::<char>::empty()).push(seq![c]));
            assert(words(s) == words(t).push(seq![c]));
        } else {
            let a1 = a + seq![' '];
            let b = a1 + seq![c];
            assert(b.drop_last() =~= a1);
            assert(a1.drop_last() =~= a);
            assert(a1.last() == ' ');
            assert(b[b.len() - 2] == ' ');
            assert(words(a1) == words(a));
            assert(words(b) == words(a1).push(seq![c]));
            assert(words(s) == words(t).push(seq![c]));
        }
    }
}

/// Light normalisation keeps the white-space separated words of its input, in order, and joins
/// them by single spaces; when lowercasing, those of the trimmed input lowercased.
pub proof fn law_normalize_string_keeps_the_words(s: Seq<char>)
    ensures
        words(lightly_normalized(s, false)) == words(s),
        lightly_normalized(s, false) == join(words(s), seq![' ']),
        words(lightly_normalized(s, true)) == words(lowercase_of(trimmed(s))),
        lightly_normalized(s, true) == join(words(lowercase_of(trimmed(s))), seq![' ']),
{
    lemma_words_trimmed(s);
    lemma_words_collapse(trimmed(s));
    lemma_words_collapse(lowercase_of(trimmed(s)));
}

} // verus!
