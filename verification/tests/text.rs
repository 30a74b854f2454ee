use bibbo::text::{chars_of, collapse_whitespace, is_white_space, norm, parse_links, trim, word_count};

/// The same scan written directly over byte offsets with `str::find`.
fn reference_links(body: &str) -> Vec<String> {
    let mut links = Vec::new();
    let mut rest = body;
    while let Some(s) = rest.find("[[") {
        rest = &rest[s + 2..];
        if let Some(e) = rest.find("]]") {
            links.push(rest[..e].trim().to_string());
            rest = &rest[e + 2..];
        } else {
            break;
        }
    }
    links
}

fn reference_norm(s: &str) -> String {
    s.split_whitespace().collect::<Vec<_>>().join(" ").to_lowercase()
}

const SAMPLES: &[&str] = &[
    "",
    " ",
    "a",
    "  Hello   World  ",
    "\t\nline one\r\nline two\u{3000}end\u{a0}",
    "Ünïcödé  ΣΊΣΥΦΟΣ ΣΑΣ",
    "[[Neural Networks]] and [[  Training Data ]]",
    "[[a]][[b]]",
    "[[[x]]]",
    "[[unclosed",
    "no links ]] here [[",
    "[[]]",
    "[[ ]] [[\u{2003}padded\u{2003}]]",
    "x [[a ]b]] y [[c]]] z",
    "[[first]] middle [[second]] tail [[third",
    "multi\u{1680}space\u{2028}chars\u{205f}here",
    "The backbone of [[Deep Learning]].",
];

#[test]
fn white_space_matches_std_for_every_char() {
    for u in 0u32..=0x10FFFF {
        if let Some(c) = char::from_u32(u) {
            assert_eq!(is_white_space(c), c.is_whitespace(), "U+{:04X}", u);
        }
    }
}

#[test]
fn chars_in_order() {
    for s in SAMPLES {
        assert_eq!(chars_of(s), s.chars().collect::<Vec<_>>());
    }
}

#[test]
fn trim_matches_std() {
    for s in SAMPLES {
        assert_eq!(trim(s), s.trim());
    }
    assert_eq!(trim("  Title  "), "Title");
    assert_eq!(trim(" \t\n "), "");
}

#[test]
fn word_count_matches_split_whitespace() {
    for s in SAMPLES {
        assert_eq!(word_count(s), s.split_whitespace().count(), "{:?}", s);
    }
    assert_eq!(word_count("one two  three"), 3);
    assert_eq!(word_count(""), 0);
}

#[test]
fn collapse_joins_words_with_single_spaces() {
    for s in SAMPLES {
        assert_eq!(collapse_whitespace(s), s.split_whitespace().collect::<Vec<_>>().join(" "));
    }
    assert_eq!(collapse_whitespace("  a \t b\n\nc "), "a b c");
}

#[test]
fn norm_lowercases_and_collapses() {
    for s in SAMPLES {
        assert_eq!(norm(s), reference_norm(s), "{:?}", s);
    }
    assert_eq!(norm("  Neural   NETWORKS "), "neural networks");
    assert_eq!(norm("ΣΑΣ"), "σας");
}

#[test]
fn parse_links_matches_reference_scan() {
    for s in SAMPLES {
        assert_eq!(parse_links(s), reference_links(s), "{:?}", s);
    }
    assert_eq!(
        parse_links("Core ideas: [[Neural Networks]], [[ Training Data ]]."),
        vec!["Neural Networks".to_string(), "Training Data".to_string()]
    );
    assert_eq!(parse_links("[[[x]]]"), vec!["[x".to_string()]);
    assert_eq!(parse_links("[[a]] [[unclosed"), vec!["a".to_string()]);
    assert!(parse_links("plain text").is_empty());
}

#[test]
fn links_are_trimmed() {
    for s in SAMPLES {
        for l in parse_links(s) {
            assert_eq!(l, l.trim());
        }
    }
}
