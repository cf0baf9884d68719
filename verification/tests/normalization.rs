use freeports::normalization::{
    collapse_text, deep_normalize_string, deep_normalize_string_split_on_punctuation,
    normalize_lowercased, normalize_string, normalize_word,
};

#[test]
fn deep_normalizes_as_expected() {
    let cases = [
        ("Hello World", "hello world"),
        ("  Hello   World  ", "hello world"),
        ("Café", "cafe"),
        ("MÜLLER", "muller"),
        ("Straße", "strasse"),
        ("Rock & Roll", "rock and roll"),
        ("A,B-C–D+E", "a b c d e"),
        ("Don't say \"no\"!", "dont say no"),
        ("café œuf æon", "cafe oeuf aeon"),
        ("It’s fine", "its fine"),
        ("Øresund", "oresund"),
        ("ÁÀÂÄ ÍÌÎÏ ÓÒÔÖ ÚÙÛÜ Ñ Ç", "aaaa iiii oooo uuuu n c"),
        ("{a}[b](c)?d/e.f", "abcdef"),
        ("", ""),
        ("   ", ""),
        ("...", ""),
        ("---", ""),
    ];
    for (input, expected) in cases {
        assert_eq!(deep_normalize_string(input), expected, "input {input:?}");
    }
}

#[test]
fn deep_normalization_examples_from_the_documentation() {
    assert_eq!(deep_normalize_string("Éclair  Fund (EUR)"), "eclair fund eur");
    assert_eq!(deep_normalize_string("Alpha-Beta"), deep_normalize_string("Alpha Beta"));
    assert_eq!(deep_normalize_string("AMAZON.COM INC"), "amazoncom inc");
    assert_eq!(deep_normalize_string_split_on_punctuation("AMAZON.COM INC"), "amazon com inc");
    assert_eq!(deep_normalize_string_split_on_punctuation("Éclair-Fund"), "eclair fund");
}

#[test]
fn normalization_is_idempotent() {
    for input in ["Café  Fund–A", "Rock & Roll", "Straße 1", "  ", "ØMEGA/AB"] {
        let once = deep_normalize_string(input);
        assert_eq!(deep_normalize_string(&once), once, "input: {input:?}");
    }
    for input in ["AMAZON.COM INC", "Café  Fund–A", "ØMEGA/AB", "  "] {
        let once = deep_normalize_string_split_on_punctuation(input);
        assert_eq!(deep_normalize_string_split_on_punctuation(&once), once, "input: {input:?}");
    }
}

#[test]
fn normalization_never_leaves_double_spaces_or_edges() {
    for input in ["  a - b  ", "a,,,b", "a + + b", "-a-", "  Café  ,  Fund  "] {
        let out = deep_normalize_string(input);
        assert!(!out.contains("  "), "double spaces in {out:?} (input {input:?})");
        assert_eq!(out.trim(), out, "unclean edges in {out:?}");
    }
    for input in [".a.", "a..b", " (c) ", "AMAZON.COM  INC.", "  Café . Fund  "] {
        let out = deep_normalize_string_split_on_punctuation(input);
        assert!(!out.contains("  "), "double spaces in {out:?} (input {input:?})");
        assert_eq!(out.trim(), out, "unclean edges in {out:?}");
    }
}

#[test]
fn splits_where_deep_normalization_erases() {
    let cases = [
        ("AMAZON.COM INC", "amazon com inc"),
        ("{a}[b](c)?d/e.f", "a b c d e f"),
        ("Don't say \"no\"!", "don t say no"),
        ("It’s fine", "it s fine"),
        ("...", ""),
    ];
    for (input, expected) in cases {
        assert_eq!(deep_normalize_string_split_on_punctuation(input), expected, "input {input:?}");
    }
}

#[test]
fn agrees_with_deep_normalization_where_no_noise_punctuation_occurs() {
    for input in ["Hello World", "Café  Fund", "Straße", "Rock & Roll", "A,B-C–D+E", ""] {
        assert_eq!(
            deep_normalize_string_split_on_punctuation(input),
            deep_normalize_string(input),
            "input {input:?}"
        );
    }
}

#[test]
fn string_normalizes_as_expected() {
    let cases = [
        ("  Hello   World  ", true, "hello world"),
        ("  Hello   World  ", false, "Hello World"),
        ("", true, ""),
        ("NoWhitespace", false, "NoWhitespace"),
        ("Café", false, "Café"),
        ("a\tb\nc", false, "a b c"),
        ("A, B", false, "A, B"),
        ("  Éclair   Fund ", false, "Éclair Fund"),
        ("  Éclair   Fund ", true, "éclair fund"),
    ];
    for (input, lower, expected) in cases {
        assert_eq!(normalize_string(input, lower), expected, "input {input:?} lower {lower}");
    }
}

#[test]
fn is_idempotent_for_both_casings() {
    for input in ["  A  B  ", "Café Fund", ""] {
        for lower in [true, false] {
            let once = normalize_string(input, lower);
            assert_eq!(normalize_string(&once, lower), once, "input {input:?} lower {lower}");
        }
    }
}

#[test]
fn word_normalizes_as_expected() {
    let cases = [
        ("  Hello World  ", false, "HelloWorld"),
        ("  Hello World  ", true, "helloworld"),
        ("Test", false, "Test"),
        ("Test", true, "test"),
        ("", false, ""),
        ("   ", false, ""),
        ("a\tb\nc", false, "abc"),
        ("LU 012 3456789", false, "LU0123456789"),
    ];
    for (input, lower, expected) in cases {
        assert_eq!(normalize_word(input, lower), expected, "input {input:?} lower {lower}");
    }
}

#[test]
fn never_contains_spaces() {
    for input in ["  a b  c ", "\t\n", "x", ""] {
        assert!(!normalize_word(input, false).contains(char::is_whitespace), "input {input:?}");
    }
}

#[test]
fn only_deep_removes_accents_and_punctuation() {
    let input = "Café, S.p.A.";
    assert_eq!(deep_normalize_string(input), "cafe spa");
    assert_eq!(normalize_string(input, true), "café, s.p.a.");
}

#[test]
fn only_word_removes_spaces_instead_of_collapsing_them() {
    let input = "A  B";
    assert_eq!(normalize_string(input, false), "A B");
    assert_eq!(normalize_word(input, false), "AB");
}

#[test]
fn unicode_white_space_counts_as_a_separator() {
    assert_eq!(normalize_string("a\u{a0}\u{2003}b", false), "a b");
    assert_eq!(normalize_word("a\u{3000}b", false), "ab");
}

#[test]
fn what_follows_the_lowercasing_is_the_same_normalization() {
    assert_eq!(normalize_lowercased("éclair  fund (eur)", false), "eclair fund eur");
    assert_eq!(normalize_lowercased("amazon.com inc", true), "amazon com inc");
    assert_eq!(normalize_lowercased("amazon.com inc", false), "amazoncom inc");
    // Uppercase is left alone here: lowercasing is the step before.
    assert_eq!(normalize_lowercased("ABC", false), "ABC");
    assert_eq!(deep_normalize_string("ABC"), "abc");
}

#[test]
fn collapsing_keeps_words_and_single_spaces_only() {
    assert_eq!(collapse_text("  a \t b  "), "a b");
    assert_eq!(collapse_text(""), "");
    assert_eq!(collapse_text(" \n "), "");
    assert_eq!(collapse_text("one"), "one");
}

fn space_out_noise(s: &str) -> String {
    s.chars()
        .map(|c| if "!?{}[]()\"'’/.".contains(c) { ' ' } else { c })
        .collect()
}

#[test]
fn splitting_equals_deep_normalizing_with_the_noise_spaced_out() {
    for input in ["AMAZON.COM INC", "Fonds (Class A) / EUR!", "l’oréal \"S.A.\"", "a.b?c[d]{e}", "plain text"] {
        assert_eq!(
            deep_normalize_string_split_on_punctuation(input),
            deep_normalize_string(&space_out_noise(input)),
        );
    }
    assert_eq!(normalize_lowercased("a.b/c", true), normalize_lowercased("a b c", false));
}

#[test]
fn deep_normalization_leaves_no_rewritten_character() {
    let out = deep_normalize_string("Ça & Là, Œuvre–Æther + Straße (Ñandú) Åsø! \"x\" y’s / z. ?{}[]-");
    assert_eq!(out, "ca and la oeuvre aether strasse nandu aso x ys z");
    for c in out.chars() {
        assert!(!",-–+!?{}[]()\"'’/.&éèêëáàâäíìîïóòôöúùûüñçßåøœæ".contains(c), "{c:?} left in {out:?}");
    }
}

#[test]
fn light_normalization_keeps_the_words_in_order() {
    let input = "  Première\tclasse \n  d'actions  ÉLITE ";
    let words: Vec<&str> = input.split_whitespace().collect();
    let kept = normalize_string(input, false);
    assert_eq!(kept.split(' ').collect::<Vec<_>>(), words);
    assert_eq!(kept, "Première classe d'actions ÉLITE");
    let lowered = normalize_string(input, true);
    let lowered_words: Vec<String> = words.iter().map(|w| w.to_lowercase()).collect();
    assert_eq!(lowered.split(' ').map(String::from).collect::<Vec<_>>(), lowered_words);
    assert_eq!(lowered, "première classe d'actions élite");
}
