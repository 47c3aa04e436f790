use recase::boundaries::find_boundary_indices;
use recase::tokens::tokenize;
use recase::variants::generate_variants;

fn strings(v: Vec<&str>) -> Vec<String> {
    v.iter().map(|s| s.to_string()).collect()
}

#[test]
fn test_find_boundary_indices() {
    let tests = vec![
        ("camelCase", vec![0, 5, 9]),
        ("PascalCase", vec![0, 6, 10]),
        ("snake_case", vec![0, 5, 6, 10]),
        ("kebab-case", vec![0, 5, 6, 10]),
        ("Title_Case", vec![0, 5, 6, 10]),
    ];
    for test in tests {
        assert_eq!(
            find_boundary_indices(test.0),
            test.1,
            "testing {}, expected {:?}",
            test.0,
            test.1,
        );
    }
}

#[test]
fn test_tokenize() {
    let tests = vec![
        ("camelCase", vec!["camel", "Case"]),
        ("PascalCase", vec!["Pascal", "Case"]),
        ("snake_case", vec!["snake", "case"]),
        ("kebab-case", vec!["kebab", "case"]),
        ("Title_Case", vec!["Title", "Case"]),
        ("aCamelCase", vec!["a", "Camel", "Case"]),
        ("HTTPVerb", vec!["HTTP", "Verb"]),
        ("CONSTANT", vec!["CONSTANT"]),
        ("a_constant", vec!["a", "constant"]),
        ("a_Constant", vec!["a", "Constant"]),
        ("A_constant", vec!["A", "constant"]),
        ("CONSTANT_CASE", vec!["CONSTANT", "CASE"]),
        ("A_B", vec!["A", "B"]),
        ("A_b", vec!["A", "b"]),
        ("aC", vec!["a", "C"]),
        ("a-c", vec!["a", "c"]),
        ("a_c", vec!["a", "c"]),
        ("a-C", vec!["a", "C"]),
        ("A-c", vec!["A", "c"]),
    ];
    for test in tests {
        assert_eq!(
            tokenize(test.0),
            strings(test.1.clone()),
            "testing {}, expected {:?}",
            test.0,
            test.1,
        );
    }
}

#[test]
fn test_generate_variants() {
    let tests = vec![
        (
            vec!["all", "cases", "covered"],
            vec![
                "allCasesCovered",
                "AllCasesCovered",
                "all_cases_covered",
                "all-cases-covered",
                "All_Cases_Covered",
                "ALL_CASES_COVERED",
            ],
        ),
        (
            vec!["AlL", "cAsES", "cOvErED"],
            vec![
                "allCasesCovered",
                "AllCasesCovered",
                "all_cases_covered",
                "all-cases-covered",
                "All_Cases_Covered",
                "ALL_CASES_COVERED",
            ],
        ),
    ];
    for test in tests {
        assert_eq!(
            generate_variants(&strings(test.0.clone())),
            strings(test.1.clone()),
            "testing {:?}, expected {:?}",
            test.0,
            test.1,
        );
    }
}

#[test]
fn boundary_constant_case() {
    assert_eq!(find_boundary_indices("CONSTANT_CASE"), vec![0, 8, 9, 13]);
}

#[test]
fn boundary_empty_identifier() {
    assert_eq!(find_boundary_indices(""), vec![0]);
    assert_eq!(tokenize(""), Vec::<String>::new());
}

#[test]
fn tokenize_only_separators() {
    assert_eq!(tokenize("_"), Vec::<String>::new());
    assert_eq!(tokenize("-_"), Vec::<String>::new());
}

#[test]
fn tokens_cover_non_separator_characters() {
    for ident in ["camelCase", "a_b-c", "HTTPVerb", "A__B", "aCamelCase"] {
        let rejoined: String = tokenize(ident).concat();
        let stripped: String = ident.chars().filter(|c| *c != '_' && *c != '-').collect();
        assert_eq!(rejoined, stripped, "testing {}", ident);
    }
}

#[test]
fn variants_of_unicode_tokens() {
    let variants = generate_variants(&strings(vec!["über", "groß"]));
    assert_eq!(
        variants,
        strings(vec![
            "überGroß",
            "ÜberGroß",
            "über_groß",
            "über-groß",
            "Über_Groß",
            "ÜBER_GROSS",
        ])
    );
}

#[test]
fn variants_keep_grapheme_clusters_whole() {
    // "e" followed by a combining acute accent is one grapheme cluster; the
    // first-letter rules must case the whole cluster, not its first code
    // point alone.
    let variants = generate_variants(&strings(vec!["e\u{301}clair", "au"]));
    assert_eq!(
        variants,
        strings(vec![
            "e\u{301}clairAu",
            "E\u{301}clairAu",
            "e\u{301}clair_au",
            "e\u{301}clair-au",
            "E\u{301}clair_Au",
            "E\u{301}CLAIR_AU",
        ])
    );
}

#[test]
fn variants_of_empty_token_list() {
    let variants = generate_variants(&Vec::new());
    assert_eq!(variants, strings(vec!["", "", "", "", "", ""]));
}

// Re-rendering a variant's own tokens reproduces the variant. This holds for
// word-shaped tokens; it cannot hold when a rendering merges tokens (the
// PascalCase form of ["a", "b"] is "AB", one token when read back).
#[test]
fn variants_reproduce_themselves() {
    for tokens in [vec!["all", "cases", "covered"], vec!["HTTP", "Verb"], vec!["ab", "c"]] {
        let variants = generate_variants(&strings(tokens));
        for (i, variant) in variants.iter().enumerate() {
            let retokenized = tokenize(variant);
            let again = generate_variants(&retokenized);
            assert_eq!(&again[i], variant, "variant {} of {:?}", i, variants);
        }
    }
}
