use agentik::bibliography::{clean_citation, format_detail, format_search, is_clean_pub_type, str_or, truncate};
use agentik::json::{JsonNumber, JsonValue};

fn s(x: &str) -> JsonValue {
    JsonValue::String(x.to_string())
}

fn n(x: u64) -> JsonValue {
    JsonValue::Number(JsonNumber::PosInt(x))
}

fn obj(entries: Vec<(&str, JsonValue)>) -> JsonValue {
    JsonValue::Object(entries.into_iter().map(|(k, v)| (k.to_string(), v)).collect())
}

fn arr(items: Vec<JsonValue>) -> JsonValue {
    JsonValue::Array(items)
}

#[test]
fn format_search_basic() {
    let data = obj(vec![
        ("totalResults", n(2)),
        ("totalPages", n(1)),
        (
            "articleProfiles",
            arr(vec![
                obj(vec![
                    ("pmid", s("12345678")),
                    ("title", s("A Study on Something")),
                    ("authors", s("Smith J, Doe A")),
                    ("journalCitation", s("Nature. 2024;1(1):1-10.")),
                    ("snippet", s("This is a short summary.")),
                    ("doi", s("10.1234/a")),
                ]),
                obj(vec![
                    ("pmid", s("87654321")),
                    ("title", s("Another Study")),
                    ("authors", s("Brown B")),
                    ("journalCitation", s("")),
                    ("snippet", s("")),
                ]),
            ]),
        ),
    ]);

    let rendered = format_search(&data);
    assert!(rendered.contains("Found **2** results"));
    assert!(rendered.contains("[12345678] A Study on Something"));
    assert!(rendered.contains("Authors: Smith J, Doe A"));
    assert!(rendered.contains("Journal: Nature"));
    assert!(rendered.contains("[87654321] Another Study"));
}

#[test]
fn format_search_empty() {
    let data = obj(vec![("totalResults", n(0)), ("articleProfiles", arr(vec![]))]);
    let rendered = format_search(&data);
    assert!(rendered.contains("No results found"));
}

#[test]
fn format_detail_basic() {
    let data = obj(vec![
        ("pmid", s("12345678")),
        ("doi", s("10.1234/a")),
        ("title", s("My Paper Title")),
        (
            "authors",
            arr(vec![
                obj(vec![("name", s("Alice A")), ("position", n(1)), ("affiliations", arr(vec![]))]),
                obj(vec![("name", s("Bob B")), ("position", n(2)), ("affiliations", arr(vec![]))]),
            ]),
        ),
        ("journalInfo", obj(vec![("title", s("Nature")), ("volume", s("1")), ("issue", s("2"))])),
        ("abstract", s("This is the abstract text.")),
        ("keywords", arr(vec![obj(vec![("text", s("Humans")), ("isMeSH", JsonValue::Bool(false))])])),
        (
            "meshTerms",
            arr(vec![obj(vec![("text", s("Cancer / therapy")), ("isMeSH", JsonValue::Bool(true))])]),
        ),
        (
            "publicationTypes",
            arr(vec![
                s("Review\n    Actions\n              Search in PubMed\n"),
                s("Review"),
                s("Journal Article"),
            ]),
        ),
        (
            "references",
            arr(vec![obj(vec![
                ("pmid", s("111")),
                (
                    "citation",
                    s("Smith et al. Nature. 2020;1:1-5.\n            \n              \n                \n                  -\n                  PubMed"),
                ),
            ])]),
        ),
        (
            "fullTextSources",
            arr(vec![
                obj(vec![
                    ("name", s("Free PMC")),
                    ("url", s("https://pmc.ncbi.nlm.nih.gov/articles/123/")),
                    ("type", s("1")),
                ]),
                obj(vec![("name", s("Full text links")), ("url", s("#")), ("type", s("1"))]),
            ]),
        ),
        ("conflictOfInterestStatement", s("")),
    ]);

    let rendered = format_detail(&data);

    assert!(rendered.contains("## My Paper Title"));
    assert!(rendered.contains("**PMID:** 12345678"));
    assert!(rendered.contains("**DOI:** 10.1234/a"));
    assert!(rendered.contains("**Journal:** Nature, 1 (2)"));
    assert!(rendered.contains("**Authors:** Alice A, Bob B"));
    assert!(rendered.contains("Review, Journal Article"));
    assert!(rendered.contains("### Abstract"));
    assert!(rendered.contains("**Keywords:** Humans"));
    assert!(rendered.contains("**MeSH Terms:**"));
    assert!(rendered.contains("- Cancer / therapy"));
    assert!(rendered.contains("### References"));
    assert!(rendered.contains("[Free PMC]"));
    assert!(!rendered.contains("[Full text links]"));
    assert!(rendered.contains("Smith et al. Nature. 2020;1:1-5."));
    assert!(!rendered.contains("Search in PubMed"));
}

#[test]
fn search_entries_are_numbered_from_zero() {
    let data = obj(vec![
        ("totalResults", n(1)),
        ("articleProfiles", arr(vec![obj(vec![("pmid", s("9")), ("title", s("T"))])])),
    ]);
    assert_eq!(format_search(&data), "Found **1** results\n\n0. **[9] T**\n   Authors: \n\n");
}

#[test]
fn search_without_profiles_reports_total() {
    let data = obj(vec![("totalResults", n(5))]);
    assert_eq!(format_search(&data), "No results found. (total indexed: 5)");
    assert_eq!(format_search(&JsonValue::Null), "No results found. (total indexed: 0)");
}

#[test]
fn detail_of_minimal_record() {
    assert_eq!(format_detail(&obj(vec![])), "## Untitled\n\n**PMID:** ?");
}

#[test]
fn str_or_falls_back() {
    let v = obj(vec![("a", s("x")), ("b", n(3))]);
    assert_eq!(str_or(&v, "a", "d"), "x");
    assert_eq!(str_or(&v, "b", "d"), "d");
    assert_eq!(str_or(&v, "c", "d"), "d");
}

#[test]
fn truncate_keeps_max_len_characters_and_marks_the_cut() {
    assert_eq!(truncate("hello", 10), "hello");
    assert_eq!(truncate("hello", 5), "hello");
    assert_eq!(truncate("hello", 3), "hel...");
    // Characters, not bytes: "é" counts once.
    assert_eq!(truncate("aéb", 2), "aé...");
    // The cut backs off to the last space of the kept characters.
    assert_eq!(truncate("ab cd", 4), "ab...");
    assert_eq!(truncate("", 0), "");
}

#[test]
fn long_snippets_are_truncated() {
    let long = "x".repeat(300);
    let data = obj(vec![
        ("totalResults", n(1)),
        ("articleProfiles", arr(vec![obj(vec![("pmid", s("1")), ("title", s("T")), ("snippet", s(&long))])])),
    ]);
    let out = format_search(&data);
    assert!(out.contains(&format!("   Summary: {}...\n", "x".repeat(280))));
}

#[test]
fn publication_type_and_citation_cleaning() {
    assert!(is_clean_pub_type("Review"));
    assert!(!is_clean_pub_type("Review\n Actions"));
    assert!(is_clean_pub_type(""));
    assert!(!is_clean_pub_type(&"x".repeat(120)));
    assert_eq!(clean_citation("A B.\n  PubMed\n  C D."), "A B. C D.");
}

#[test]
fn references_are_distinct_and_capped() {
    let mut refs = Vec::new();
    for i in 0..30 {
        refs.push(obj(vec![("citation", s(&format!("Ref {}", i % 25)))]));
    }
    refs.push(obj(vec![("pmid", s("1"))]));
    let data = obj(vec![("references", arr(refs))]);
    let out = format_detail(&data);
    assert!(out.contains("1. Ref 0\n"));
    assert!(out.contains("20. Ref 19"));
    assert!(!out.contains("21. "));
    assert!(!out.contains("Ref 20"));
    assert_eq!(out.matches("Ref 3\n").count(), 1);
}

#[test]
fn cleaning_a_citation_twice_changes_nothing() {
    let raw = "  Smith J, Doe A.\n  A study of things.\r\n  PMC12345\n- Actions\n  J Med. 2020;1:2.\n";
    let once = clean_citation(raw);
    assert_eq!(once, "Smith J, Doe A. A study of things. J Med. 2020;1:2.");
    assert_eq!(clean_citation(&once), once);
    assert_eq!(clean_citation(""), "");
    assert_eq!(clean_citation(&clean_citation("\n  \n")), "");
}

#[test]
fn joined_lines_can_form_a_noise_marker() {
    // Two kept lines join into a text that begins like a noise line.
    let once = clean_citation("Search\nin vain");
    assert_eq!(once, "Search in vain");
    assert_eq!(clean_citation(&once), "");
}
