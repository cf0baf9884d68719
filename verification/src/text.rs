//! Small string building blocks shared by the modules that compose text.

use vstd::prelude::*;

verus! {

/// `String::push`. Claimed: the text afterwards is the text before with `c` appended.
#[verifier::external_body]
pub(crate) fn push_char(s: &mut String, c: char)
    ensures
        final(s)@ == old(s)@.push(c),
{
    s.push(c);
}

/// Whether the two texts hold the same characters, in the same order.
pub(crate) fn str_eq(a: &str, b: &str) -> (r: bool)
    ensures
        r == (a@ == b@),
{
    let n = a.unicode_len();
    if n != b.unicode_len() {
        return false;
    }
    let mut i: usize = 0;
    while i < n
        invariant
            n == a@.len(),
            n == b@.len(),
            i <= n,
            forall|k: int| 0 <= k < i ==> a@[k] == b@[k],
        decreases n - i,
    {
        if a.get_char(i) != b.get_char(i) {
            return false;
        }
        i = i + 1;
    }
    assert(a@ =~= b@);
    true
}

/// A fresh `String` holding exactly the characters of `s`.
pub fn string_of(s: &str) -> (r: String)
    ensures
        r@ == s@,
{
    String::from_str(s)
}

/// `sep`-separated concatenation of a sequence of texts.
pub open spec fn join(parts: Seq<Seq<char>>, sep: Seq<char>) -> Seq<char>
    decreases parts.len(),
{
    if parts.len() == 0 {
        Seq::empty()
    } else if parts.len() == 1 {
        parts[0]
    } else {
        join(parts.drop_last(), sep) + sep + parts.last()
    }
}

/// Joins the texts of `parts` with `sep` between each consecutive pair.
pub fn join_strings(parts: &Vec<String>, sep: &str) -> (r: String)
    ensures
        r@ == join(parts@.map_values(|p: String| p@), sep@),
{
    let ghost views = parts@.map_values(|p: String| p@);
    let mut out = String::new();
    let mut i: usize = 0;
    while i < parts.len()
        invariant
            i <= parts.len(),
            views == parts@.map_values(|p: String| p@),
            out@ == join(views.take(i as int), sep@),
        decreases parts.len() - i,
    {
        assert(views.take(i + 1).drop_last() =~= views.take(i as int));
        if i > 0 {
            out.append(sep);
        }
        out.append(parts[i].as_str());
        i = i + 1;
    }
    assert(views.take(parts.len() as int) =~= views);
    out
}

/// Lexicographic order on texts, character by character: the order of `str::cmp`, since UTF-8
/// byte order agrees with code point order.
pub open spec fn text_lt(a: Seq<char>, b: Seq<char>) -> bool
    decreases a.len(),
{
    if a.len() == 0 {
        b.len() > 0
    } else if b.len() == 0 {
        false
    } else if a[0] == b[0] {
        text_lt(a.drop_first(), b.drop_first())
    } else {
        a[0] < b[0]
    }
}

pub proof fn lemma_text_lt_irreflexive(a: Seq<char>)
    ensures
        !text_lt(a, a),
    decreases a.len(),
{
    if a.len() > 0 {
        lemma_text_lt_irreflexive(a.drop_first());
    }
}

pub proof fn lemma_text_lt_asymmetric(a: Seq<char>, b: Seq<char>)
    ensures
        text_lt(a, b) ==> !text_lt(b, a),
    decreases a.len(),
{
    if a.len() > 0 && b.len() > 0 && a[0] == b[0] {
        lemma_text_lt_asymmetric(a.drop_first(), b.drop_first());
    }
}

pub proof fn lemma_text_lt_transitive(a: Seq<char>, b: Seq<char>, c: Seq<char>)
    requires
        text_lt(a, b),
        text_lt(b, c),
    ensures
        text_lt(a, c),
    decreases a.len(),
{
    if a.len() > 0 && b.len() > 0 && c.len() > 0 && a[0] == b[0] && b[0] == c[0] {
        lemma_text_lt_transitive(a.drop_first(), b.drop_first(), c.drop_first());
    }
}

pub proof fn lemma_text_lt_total(a: Seq<char>, b: Seq<char>)
    ensures
        a != b ==> text_lt(a, b) || text_lt(b, a),
    decreases a.len(),
{
    if a.len() > 0 && b.len() > 0 && a[0] == b[0] {
        lemma_text_lt_total(a.drop_first(), b.drop_first());
        if a.drop_first() == b.drop_first() {
            assert(a =~= seq![a[0]] + a.drop_first());
            assert(b =~= seq![b[0]] + b.drop_first());
        }
    } else if a.len() == 0 && b.len() == 0 {
        assert(a =~= b);
    }
}

/// Whether `a` sorts strictly before `b`.
pub fn text_less(a: &str, b: &str) -> (r: bool)
    ensures
        r == text_lt(a@, b@),
{
    let la = a.unicode_len();
    let lb = b.unicode_len();
    let mut i: usize = 0;
    assert(a@.skip(0) =~= a@);
    assert(b@.skip(0) =~= b@);
    while i < la && i < lb
        invariant
            la == a@.len(),
            lb == b@.len(),
            i <= la,
            i <= lb,
            text_lt(a@, b@) == text_lt(a@.skip(i as int), b@.skip(i as int)),
        decreases la - i,
    {
        let ca = a.get_char(i);
        let cb = b.get_char(i);
        if ca != cb {
            return ca < cb;
        }
        assert(a@.skip(i as int).drop_first() =~= a@.skip(i + 1));
        assert(b@.skip(i as int).drop_first() =~= b@.skip(i + 1));
        i = i + 1;
    }
    la < lb
}

/// Keys strictly increasing: sorted and without repetition.
pub open spec fn keys_sorted<X>(s: Seq<(Seq<char>, X)>) -> bool {
    forall|i: int, j: int| 0 <= i < j < s.len() ==> text_lt(#[trigger] s[i].0, #[trigger] s[j].0)
}

/// The decimal digit for `d`.
pub open spec fn digit_char(d: nat) -> char {
    if d == 0 {
        '0'
    } else if d == 1 {
        '1'
    } else if d == 2 {
        '2'
    } else if d == 3 {
        '3'
    } else if d == 4 {
        '4'
    } else if d == 5 {
        '5'
    } else if d == 6 {
        '6'
    } else if d == 7 {
        '7'
    } else if d == 8 {
        '8'
    } else {
        '9'
    }
}

/// The decimal rendering of `n`, most significant digit first, without leading zeros.
pub open spec fn decimal(n: nat) -> Seq<char>
    decreases n,
{
    if n < 10 {
        seq![digit_char(n)]
    } else {
        decimal(n / 10).push(digit_char(n % 10))
    }
}

/// The decimal rendering of an integer, with a leading `-` when it is negative.
pub open spec fn signed_decimal(i: int) -> Seq<char> {
    if i < 0 {
        seq!['-'] + decimal((-i) as nat)
    } else {
        decimal(i as nat)
    }
}

fn digit(d: u64) -> (c: char)
    requires
        d < 10,
    ensures
        c == digit_char(d as nat),
{
    if d == 0 {
        '0'
    } else if d == 1 {
        '1'
    } else if d == 2 {
        '2'
    } else if d == 3 {
        '3'
    } else if d == 4 {
        '4'
    } else if d == 5 {
        '5'
    } else if d == 6 {
        '6'
    } else if d == 7 {
        '7'
    } else if d == 8 {
        '8'
    } else {
        '9'
    }
}

/// Appends the decimal rendering of `n`.
pub fn push_decimal(out: &mut String, n: u64)
    ensures
        final(out)@ == old(out)@ + decimal(n as nat),
    decreases n,
{
    if n >= 10 {
        push_decimal(out, n / 10);
    }
    push_char(out, digit(n % 10));
    assert(final(out)@ =~= old(out)@ + decimal(n as nat));
}

/// Appends the decimal rendering of `i`, with a leading `-` when it is negative.
pub fn push_signed_decimal(out: &mut String, i: i64)
    ensures
        final(out)@ == old(out)@ + signed_decimal(i as int),
{
    if i < 0 {
        push_char(out, '-');
        let magnitude: u64 = if i == i64::MIN {
            9223372036854775808u64
        } else {
            (-i) as u64
        };
        push_decimal(out, magnitude);
        assert(final(out)@ =~= old(out)@ + signed_decimal(i as int));
    } else {
        push_decimal(out, i as u64);
    }
}

/// Whether `s` holds the character `c`.
pub fn contains_char(s: &str, c: char) -> (r: bool)
    ensures
        r == s@.contains(c),
{
    let n = s.unicode_len();
    let mut i: usize = 0;
    while i < n
        invariant
            n == s@.len(),
            i <= n,
            forall|k: int| 0 <= k < i ==> s@[k] != c,
        decreases n - i,
    {
        if s.get_char(i) == c {
            return true;
        }
        i = i + 1;
    }
    false
}

/// Texts in strictly increasing order.
pub open spec fn strictly_sorted(texts: Seq<Seq<char>>) -> bool {
    forall|i: int, j: int| 0 <= i < j < texts.len() ==> text_lt(#[trigger] texts[i], #[trigger] texts[j])
}

/// `listing` holds, in increasing order and once each, exactly the texts `member` accepts.
pub open spec fn lists(listing: Seq<Seq<char>>, member: spec_fn(Seq<char>) -> bool) -> bool {
    &&& strictly_sorted(listing)
    &&& forall|x: Seq<char>| #[trigger] listing.contains(x) <==> member(x)
}

/// The texts of a sequence of strings.
pub open spec fn texts_of(v: Seq<String>) -> Seq<Seq<char>> {
    v.map_values(|s: String| s@)
}

/// Whether `v` holds a string equal to `t`.
pub fn contains_text(v: &Vec<String>, t: &str) -> (r: bool)
    ensures
        r == texts_of(v@).contains(t@),
{
    let ghost tv = texts_of(v@);
    let mut i: usize = 0;
    while i < v.len()
        invariant
            i <= v.len(),
            tv == texts_of(v@),
            forall|k: int| 0 <= k < i ==> tv[k] != t@,
        decreases v.len() - i,
    {
        assert(tv[i as int] == v@[i as int]@);
        if str_eq(v[i].as_str(), t) {
            return true;
        }
        i = i + 1;
    }
    false
}

/// Inserts a copy of `t` at its place in the strictly increasing `out`, unless it is already
/// there.
pub fn insert_text(out: &mut Vec<String>, t: &str)
    requires
        strictly_sorted(texts_of(old(out)@)),
    ensures
        strictly_sorted(texts_of(final(out)@)),
        forall|x: Seq<char>|
            #[trigger] texts_of(final(out)@).contains(x) <==> (texts_of(old(out)@).contains(x) || x
                == t@),
{
    let ghost before = texts_of(out@);
    let mut k: usize = 0;
    while k < out.len() && text_less(out[k].as_str(), t)
        invariant
            k <= out.len(),
            out@ == old(out)@,
            before == texts_of(out@),
            forall|m: int| 0 <= m < k ==> text_lt(#[trigger] before[m], t@),
        decreases out.len() - k,
    {
        assert(out@[k as int]@ == before[k as int]);
        k = k + 1;
    }
    if k < out.len() && str_eq(out[k].as_str(), t) {
        assert(before[k as int] == t@);
        assert(before.contains(t@));
        return;
    }
    proof {
        if k < out.len() {
            assert(out@[k as int]@ == before[k as int]);
            lemma_text_lt_total(before[k as int], t@);
        }
    }
    out.insert(k, string_of(t));
    let ghost after = texts_of(out@);
    assert(after =~= before.insert(k as int, t@));
    assert forall|a: int, b: int| 0 <= a < b < after.len() implies text_lt(
        #[trigger] after[a],
        #[trigger] after[b],
    ) by {
        if b < k {
            assert(after[a] == before[a] && after[b] == before[b]);
        } else if b == k {
            assert(after[a] == before[a]);
        } else if a < k {
            assert(after[a] == before[a] && after[b] == before[b - 1]);
            lemma_text_lt_transitive(before[a], t@, before[k as int]);
            if b - 1 > k {
                lemma_text_lt_transitive(before[a], before[k as int], before[b - 1]);
            }
        } else if a == k {
            assert(after[b] == before[b - 1]);
            if b - 1 > k {
                lemma_text_lt_transitive(t@, before[k as int], before[b - 1]);
            }
        } else {
            assert(after[a] == before[a - 1] && after[b] == before[b - 1]);
        }
    }
    assert forall|x: Seq<char>| #[trigger] after.contains(x) <==> (before.contains(x) || x == t@) by {
        if after.contains(x) {
            let m = choose|m: int| 0 <= m < after.len() && after[m] == x;
            if m < k {
                assert(before[m] == x);
            } else if m > k {
                assert(before[m - 1] == x);
            }
        }
        if before.contains(x) {
            let m = choose|m: int| 0 <= m < before.len() && before[m] == x;
            if m < k {
                assert(after[m] == x);
            } else {
                assert(after[m + 1] == x);
            }
        }
        if x == t@ {
            assert(after[k as int] == x);
        }
    }
}

/// Adds every text of `items` to the strictly increasing `out`.
pub fn insert_texts(out: &mut Vec<String>, items: &Vec<String>)
    requires
        strictly_sorted(texts_of(old(out)@)),
    ensures
        strictly_sorted(texts_of(final(out)@)),
        forall|x: Seq<char>|
            #[trigger] texts_of(final(out)@).contains(x) <==> (texts_of(old(out)@).contains(x)
                || texts_of(items@).contains(x)),
{
    let ghost start = texts_of(out@);
    let ghost iv = texts_of(items@);
    let mut i: usize = 0;
    while i < items.len()
        invariant
            i <= items.len(),
            iv == texts_of(items@),
            strictly_sorted(texts_of(out@)),
            forall|x: Seq<char>|
                #[trigger] texts_of(out@).contains(x) <==> (start.contains(x) || iv.take(
                    i as int,
                ).contains(x)),
        decreases items.len() - i,
    {
        let ghost t0 = iv.take(i as int);
        let ghost t1 = iv.take(i + 1);
        assert(iv[i as int] == items@[i as int]@);
        insert_text(out, items[i].as_str());
        assert forall|x: Seq<char>| #[trigger] texts_of(out@).contains(x) <==> (start.contains(x)
            || t1.contains(x)) by {
            if t1.contains(x) && !t0.contains(x) {
                let k = choose|k: int| 0 <= k < t1.len() && t1[k] == x;
                if k < i {
                    assert(t0[k] == x);
                }
            }
            if t0.contains(x) {
                let k = choose|k: int| 0 <= k < t0.len() && t0[k] == x;
                assert(t1[k] == x);
            }
            if x == iv[i as int] {
                assert(t1[i as int] == x);
            }
        }
        i = i + 1;
    }
    assert(iv.take(items.len() as int) =~= iv);
}

/// The texts of `a` that `b` does not hold, in the order of `a`.
pub fn text_difference(a: &Vec<String>, b: &Vec<String>) -> (r: Vec<String>)
    requires
        strictly_sorted(texts_of(a@)),
    ensures
        strictly_sorted(texts_of(r@)),
        forall|x: Seq<char>|
            #[trigger] texts_of(r@).contains(x) <==> (texts_of(a@).contains(x) && !texts_of(
                b@,
            ).contains(x)),
{
    let ghost av = texts_of(a@);
    let ghost bv = texts_of(b@);
    let mut out: Vec<String> = Vec::new();
    let mut i: usize = 0;
    while i < a.len()
        invariant
            i <= a.len(),
            av == texts_of(a@),
            bv == texts_of(b@),
            strictly_sorted(av),
            strictly_sorted(texts_of(out@)),
            forall|m: int, k: int|
                0 <= m < texts_of(out@).len() && i <= k < av.len() ==> text_lt(
                    #[trigger] texts_of(out@)[m],
                    #[trigger] av[k],
                ),
            forall|x: Seq<char>|
                #[trigger] texts_of(out@).contains(x) <==> (av.take(i as int).contains(x)
                    && !bv.contains(x)),
        decreases a.len() - i,
    {
        let ghost before = texts_of(out@);
        let ghost t0 = av.take(i as int);
        let ghost t1 = av.take(i + 1);
        assert(av[i as int] == a@[i as int]@);
        let excluded = contains_text(b, a[i].as_str());
        if !excluded {
            out.push(string_of(a[i].as_str()));
            let ghost after = texts_of(out@);
            assert(after =~= before.push(av[i as int]));
            assert forall|p: int, q: int| 0 <= p < q < after.len() implies text_lt(
                #[trigger] after[p],
                #[trigger] after[q],
            ) by {
                if q < before.len() {
                    assert(after[p] == before[p] && after[q] == before[q]);
                } else {
                    assert(after[p] == before[p]);
                    assert(text_lt(before[p], av[i as int]));
                }
            }
            assert forall|m: int, k: int| 0 <= m < after.len() && i + 1 <= k < av.len() implies text_lt(
                #[trigger] after[m],
                #[trigger] av[k],
            ) by {
                if m < before.len() {
                    assert(after[m] == before[m]);
                    assert(text_lt(before[m], av[k]));
                } else {
                    assert(after[m] == av[i as int]);
                }
            }
        }
        let ghost now = texts_of(out@);
        assert(t1 =~= t0.push(av[i as int]));
        assert forall|x: Seq<char>| #[trigger] now.contains(x) <==> (t1.contains(x) && !bv.contains(x)) by {
            if t1.contains(x) {
                let k = choose|k: int| 0 <= k < t1.len() && t1[k] == x;
                if k < i {
                    assert(t0[k] == x);
                } else {
                    assert(x == av[i as int]);
                }
            }
            if t0.contains(x) {
                let k = choose|k: int| 0 <= k < t0.len() && t0[k] == x;
                assert(t1[k] == x);
            }
            if x == av[i as int] {
                assert(t1[i as int] == x);
            }
            if now.len() > before.len() {
                assert(now =~= before.push(av[i as int]));
                if x == av[i as int] {
                    assert(now[now.len() - 1] == x);
                }
                if now.contains(x) {
                    let m = choose|m: int| 0 <= m < now.len() && now[m] == x;
                    if m < before.len() {
                        assert(before[m] == x);
                    }
                }
                if before.contains(x) {
                    let m = choose|m: int| 0 <= m < before.len() && before[m] == x;
                    assert(now[m] == x);
                }
            } else {
                assert(now =~= before);
            }
        }
        i = i + 1;
    }
    assert(av.take(a.len() as int) =~= av);
    out
}

} // verus!
