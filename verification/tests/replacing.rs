use recase::replace::replace_all;
use recase::replace::replace_identifiers;
use recase::table::build_pattern_table;
use recase::table::PatternTable;
use recase::variants::apply_strategy;
use recase::variants::CapitalizationStrategy;
use recase::variants::Strategy;

fn strings(v: Vec<&str>) -> Vec<String> {
    v.iter().map(|s| s.to_string()).collect()
}

#[test]
fn end_to_end_scenario() {
    let out = replace_identifiers("fooBar", "bazQux", "fooBar foo_bar FOO_BAR foo-bar FooBar");
    assert_eq!(out.unwrap(), "bazQux baz_qux BAZ_QUX baz-qux BazQux");
}

#[test]
fn pattern_table_pairs_spellings_positionally() {
    let table = build_pattern_table("fooBar", "bazQux");
    assert_eq!(
        table.patterns,
        strings(vec![
            "fooBar", "fooBar", "FooBar", "foo_bar", "foo-bar", "Foo_Bar", "FOO_BAR",
        ])
    );
    assert_eq!(
        table.replacements,
        strings(vec![
            "bazQux", "bazQux", "BazQux", "baz_qux", "baz-qux", "Baz_Qux", "BAZ_QUX",
        ])
    );
}

#[test]
fn pairing_uses_matching_index() {
    let table = PatternTable {
        patterns: strings(vec!["aa", "bb"]),
        replacements: strings(vec!["one", "two"]),
    };
    let out = replace_all("xxaayybbzz", &table).unwrap();
    assert_eq!(out, "xxoneyytwozz");
}

#[test]
fn longest_match_takes_precedence() {
    let table = PatternTable {
        patterns: strings(vec!["Case", "CaseSensitive"]),
        replacements: strings(vec!["SHORT", "LONG"]),
    };
    let out = replace_all("a CaseSensitive Case", &table).unwrap();
    assert_eq!(out, "a LONG SHORT");
}

#[test]
fn matches_do_not_overlap_or_rescan_replacements() {
    let table = PatternTable {
        patterns: strings(vec!["aba", "b"]),
        replacements: strings(vec!["b", "X"]),
    };
    // The leftmost match "aba" consumes its region; scanning resumes after it
    // and never enters the replacement text.
    let out = replace_all("ababa", &table).unwrap();
    assert_eq!(out, "bXa");
}

#[test]
fn duplicate_spellings_use_first_entry() {
    // A one-token lowercase identifier spells the same in several
    // conventions; the earliest entry (the verbatim pair) must win.
    let out = replace_identifiers("foo", "bazQux", "foo Foo FOO").unwrap();
    assert_eq!(out, "bazQux BazQux BAZ_QUX");
}

#[test]
fn unmatched_input_passes_through() {
    let out = replace_identifiers("fooBar", "bazQux", "nothing to see here").unwrap();
    assert_eq!(out, "nothing to see here");
}

#[test]
fn search_identifier_without_tokens_is_rejected() {
    assert!(replace_identifiers("_", "bazQux", "any input").is_none());
}

#[test]
fn malformed_table_is_rejected() {
    let empty_pattern = PatternTable {
        patterns: strings(vec!["ok", ""]),
        replacements: strings(vec!["a", "b"]),
    };
    assert!(replace_all("anything", &empty_pattern).is_none());

    let unequal_lengths = PatternTable {
        patterns: strings(vec!["ok"]),
        replacements: strings(vec!["a", "b"]),
    };
    assert!(replace_all("anything", &unequal_lengths).is_none());
}

#[test]
fn contradictory_strategy_is_rejected() {
    let bad = Strategy {
        joiner: "_".to_string(),
        capitalization: vec![
            CapitalizationStrategy::NoCharactersCapitalized,
            CapitalizationStrategy::AllCharactersCapitalized,
        ],
    };
    assert!(apply_strategy(&bad, &strings(vec!["a", "b"])).is_none());

    let good = Strategy {
        joiner: "_".to_string(),
        capitalization: vec![CapitalizationStrategy::NoCharactersCapitalized],
    };
    assert_eq!(apply_strategy(&good, &strings(vec!["A", "B"])).unwrap(), "a_b");
}
