//! Words, terms and identifiers.
use beater_memory::chars::{
    contains_text, decimal_int_text, decimal_text, hex_text, is_blank, join_texts, lower_text,
    trimmed, words_of,
};
use beater_memory::digits::{fraction_in_24_digits, nearest_whole, DIGITS_24};
use beater_memory::glob::matches_pattern;
use beater_memory::text::{
    canonical_key, concise, normalize_text, overlap_score, stable_id, terms, top_terms, Overlap,
};

#[test]
fn stable_ids_are_repeatable() {
    assert_eq!(
        stable_id("node", &["a", "b"]),
        stable_id("node", &["a", "b"])
    );
    assert_ne!(stable_id("node", &["a", "b"]), stable_id("node", &["ab"]));
}

#[test]
fn terms_ignore_common_words() {
    assert_eq!(
        terms("The checkout route uses DATABASE_URL"),
        vec!["checkout", "database_url", "route", "uses"]
    );
}

#[test]
fn stable_ids_are_hexadecimal_digests_behind_their_prefix() {
    let id = stable_id("node", &["a"]);
    let (prefix, digest) = id.split_at(5);
    assert_eq!(prefix, "node_");
    assert_eq!(digest.len(), 16);
    assert!(digest.chars().all(|c| c.is_ascii_hexdigit()));

    let mut hash: u64 = 0xcbf2_9ce4_8422_2325;
    for byte in [b'a', 0xff] {
        hash ^= u64::from(byte);
        hash = hash.wrapping_mul(0x0000_0100_0000_01b3);
    }
    assert_eq!(id, format!("node_{hash:016x}"));
}

#[test]
fn white_space_is_normalized() {
    assert_eq!(normalize_text("  a \t b\n\nc  "), "a b c");
    assert_eq!(normalize_text(" \u{2003} "), "");
}

#[test]
fn concise_texts_fit_and_end_on_a_character() {
    assert_eq!(concise("  one   two ", 40), "one two");
    assert_eq!(
        concise(&"x".repeat(50), 20),
        format!("{}...", "x".repeat(20))
    );
    assert_eq!(
        concise(&"é".repeat(30), 21),
        format!("{}...", "é".repeat(10))
    );
    assert_eq!(concise("one two three", 4), "one...");
}

#[test]
fn overlaps_are_compared_by_their_shares() {
    let whole = overlap_score("checkout database", "checkout database");
    assert!(whole.at_least(100));
    let none = overlap_score("checkout", "weather");
    assert!(!none.at_least(1));
    assert!(whole.above(none));
    assert!(!none.above(whole));
}

#[test]
fn top_terms_are_bounded() {
    let found = top_terms("alpha beta gamma delta epsilon", 2);
    assert_eq!(found.len(), 2);
    assert!(top_terms("the and of", 8).is_empty());
}

#[test]
fn canonical_keys_tell_kinds_apart() {
    let fact = canonical_key("fact", "Checkout uses DATABASE_URL.");
    let gotcha = canonical_key("gotcha", "Checkout uses DATABASE_URL.");
    assert_ne!(fact, gotcha);
    assert_eq!(fact, canonical_key("fact", "Checkout   uses DATABASE_URL."));
}

#[test]
fn numbers_are_written_out() {
    assert_eq!(decimal_text(0), "0");
    assert_eq!(decimal_text(u64::MAX), u64::MAX.to_string());
    assert_eq!(decimal_int_text(i64::MIN), i64::MIN.to_string());
    assert_eq!(decimal_int_text(-7), "-7");
    assert_eq!(hex_text(0xabc, 6), "000abc");
}

#[test]
fn texts_are_searched_and_cut() {
    assert!(contains_text("a needle here", "needle"));
    assert!(contains_text("anything", ""));
    assert!(!contains_text("short", "longer than that"));
    assert_eq!(trimmed("\u{a0} x \n"), "x");
    assert!(is_blank("\t \u{3000}"));
    assert_eq!(words_of(" a  b "), vec!["a", "b"]);
    assert_eq!(
        join_texts(&vec!["a".to_string(), "b".to_string()], ", "),
        "a, b"
    );
    assert_eq!(lower_text("ÄBC"), "Äbc");
}

#[test]
fn a_normal_form_is_its_own_normal_form() {
    let text = "  Fix: the DATABASE_URL -- in /etc/app.conf, NOW! ";
    let normal = normalize_text(text);
    assert_eq!(normal, "fix the database_url -- in /etc/app.conf now");
    assert_eq!(normalize_text(&normal), normal);
    assert_eq!(normalize_text(&text.to_ascii_uppercase()), normal);
}

#[test]
fn the_terms_of_joined_terms_are_the_terms() {
    let found = terms("The -checkout- route (v2) uses DATABASE_URL and /api/health. 2024");
    assert_eq!(found, vec!["api/health", "checkout", "database_url", "route", "uses"]);
    assert_eq!(terms(&found.join(" ")), found);
}

/// A number of 24 binary digits in the units in which shares are counted.
fn units(number: f32) -> u128 {
    (f64::from(number) * 2f64.powi(88)) as u128
}

#[test]
fn shares_have_24_binary_digits() {
    for (shared, total) in [(1, 3), (2, 3), (6, 15), (12, 25), (7, 1_000), (1, 999_983), (5, 5)] {
        let share = Overlap { shared, total }.share();
        assert_eq!(share, units(shared as f32 / total as f32));
    }
    for (shared, total) in [(16_777_217, 33_554_435), (123_456_789, 987_654_321)] {
        let share = Overlap { shared, total }.share();
        assert_eq!(share, units(shared as f32 / total as f32));
    }
    assert_eq!(Overlap { shared: 0, total: 0 }.share(), 0);
    assert_eq!(fraction_in_24_digits(12, 100), units(0.12));
    assert_eq!(fraction_in_24_digits(8, 100), units(0.08));
    assert_eq!(fraction_in_24_digits(35, 100), units(0.35));
    assert_eq!(fraction_in_24_digits(1, 1_000), units(0.001));
    assert!(Overlap { shared: 3, total: 25 }.at_least(12));
    assert!(Overlap { shared: 7, total: 20 }.at_least(35));
    assert!(!Overlap { shared: 34, total: 100 }.at_least(35));
}

#[test]
fn sums_of_shares_are_rounded_to_even() {
    let sum = units(0.4) + units(0.08);
    assert_eq!(nearest_whole(DIGITS_24, sum), units(0.4_f32 + 0.08_f32));
    assert!(units(0.4_f32 + 0.08_f32) > units(12.0 / 25.0));
}

#[test]
fn patterns_stand_for_texts() {
    assert!(matches_pattern("a*c", "abbc"));
    assert!(!matches_pattern("a*c", "abb"));
    assert!(matches_pattern("a?c", "abc"));
    assert!(!matches_pattern("a?c", "ac"));
    assert!(matches_pattern("[a-c]x", "bx"));
    assert!(!matches_pattern("[a-c]x", "dx"));
    assert!(matches_pattern("[^a-c]x", "dx"));
    assert!(matches_pattern("[]]", "]"));
    assert!(matches_pattern("[a-]", "-"));
    assert!(matches_pattern("*[0-9]", "rev:7"));
    assert!(!matches_pattern("[ab", "a"));
    assert!(!matches_pattern("[ab", "[ab"));
    assert!(matches_pattern("", ""));
    assert!(matches_pattern("a\0*", "a"));
    assert!(matches_pattern("episode:t:s:1|rev:*", "episode:t:s:1|rev:5"));
    assert!(!matches_pattern("episode:t:s:1|rev:*", "episode:t:s:1"));
}
