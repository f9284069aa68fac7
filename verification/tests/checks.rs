use json_lint::checks::entry_parity::entry_parity;
use json_lint::checks::file_parity::file_parity;
use json_lint::checks::file_style::file_style;
use json_lint::io::{File, LoadedFile};
use json_lint::parser::model::{JsonStyle, LineEnding, SortAlgorithm, SortOrder};
use json_lint::parser::parser::Parser;

fn style_four_lf() -> JsonStyle {
    JsonStyle::STYLED {
        line_endings: LineEnding::LF,
        indentation: Some("    ".to_string()),
        post_colon: Some(" ".to_string()),
        order: SortOrder::ASC,
        sort_algorithm: SortAlgorithm::NORMAL,
    }
}

fn parse_ignore(text: &str) -> json_lint::parser::model::JsonObject {
    let parser = Parser::new(JsonStyle::IGNORE);
    let (ast, _) = parser.parse(text).unwrap();
    ast
}

#[test]
fn type_conflict_reported_once() {
    let a = LoadedFile("a.json".to_string(), "{\"k\":\"v\"}".to_string());
    let b = LoadedFile("b.json".to_string(), "{\"k\":{\"x\":\"y\"}}".to_string());
    let aj = parse_ignore(a.content());
    let bj = parse_ignore(b.content());
    let files = vec![(a, aj), (b, bj)];
    let warnings = entry_parity(&files);
    assert_eq!(warnings.len(), 1);
    assert!(warnings[0].starts_with("[PARITY] Found different value types for key \"k\""));
    assert!(!warnings[0].contains("Cannot find key"));
}

#[test]
fn missing_key_reported_against_lacking_file() {
    let a = LoadedFile("a.json".to_string(), "{\"a\":\"1\",\"b\":\"2\"}".to_string());
    let b = LoadedFile("b.json".to_string(), "{\"a\":\"1\"}".to_string());
    let aj = parse_ignore(a.content());
    let bj = parse_ignore(b.content());
    let files = vec![(a, aj), (b, bj)];
    let warnings = entry_parity(&files);
    assert_eq!(warnings.len(), 1);
    assert_eq!(warnings[0], "[PARITY] Cannot find key `\"b\"` in file b.json");
}

#[test]
fn nested_missing_key_uses_dotted_path() {
    let a = LoadedFile(
        "a.json".to_string(),
        "{\"o\":{\"x\":\"1\",\"y\":\"2\"}}".to_string(),
    );
    let b = LoadedFile("b.json".to_string(), "{\"o\":{\"x\":\"1\"}}".to_string());
    let aj = parse_ignore(a.content());
    let bj = parse_ignore(b.content());
    let files = vec![(a, aj), (b, bj)];
    let warnings = entry_parity(&files);
    assert_eq!(warnings.len(), 1);
    assert_eq!(warnings[0], "[PARITY] Cannot find key `\"o\".\"y\"` in file b.json");
}

#[test]
fn single_file_bucket_reports_nothing() {
    let a = LoadedFile("a.json".to_string(), "{\"a\":\"1\"}".to_string());
    let aj = parse_ignore(a.content());
    let files = vec![(a, aj)];
    let warnings = entry_parity(&files);
    assert_eq!(warnings.len(), 0);
}

#[test]
fn empty_bucket_reports_nothing() {
    let files: Vec<(LoadedFile, json_lint::parser::model::JsonObject)> = Vec::new();
    let warnings = entry_parity(&files);
    assert_eq!(warnings.len(), 0);
}

#[test]
fn key_union_is_symmetric() {
    // each file lacks a key the other holds: one report per direction
    let a = LoadedFile("a.json".to_string(), "{\"a\":\"1\"}".to_string());
    let b = LoadedFile("b.json".to_string(), "{\"b\":\"2\"}".to_string());
    let aj = parse_ignore(a.content());
    let bj = parse_ignore(b.content());
    let files = vec![(a, aj), (b, bj)];
    let warnings = entry_parity(&files);
    assert_eq!(warnings.len(), 2);
    assert_eq!(warnings[0], "[PARITY] Cannot find key `\"b\"` in file a.json");
    assert_eq!(warnings[1], "[PARITY] Cannot find key `\"a\"` in file b.json");
}

#[test]
fn file_style_clean_file_no_errors() {
    let file = LoadedFile(
        "x.json".to_string(),
        "{\n    \"a\": \"1\",\n    \"b\": \"2\"\n}".to_string(),
    );
    let mut errors: Vec<String> = Vec::new();
    let style = style_four_lf();
    let r = file_style(&style, &file, &mut errors);
    assert!(r.is_ok());
    assert_eq!(errors.len(), 0);
}

#[test]
fn file_style_reports_tagged_style_error() {
    let file = LoadedFile("x.json".to_string(), "{\n  \"a\": \"1\"\n}".to_string());
    let mut errors: Vec<String> = Vec::new();
    let style = style_four_lf();
    let r = file_style(&style, &file, &mut errors);
    assert!(r.is_ok());
    assert_eq!(errors.len(), 1);
    assert!(errors[0].starts_with("[STYLE]"));
    assert!(errors[0].contains("x.json"));
}

#[test]
fn file_style_fatal_is_one_error() {
    let file = LoadedFile("x.json".to_string(), "not json at all".to_string());
    let mut errors: Vec<String> = Vec::new();
    let style = style_four_lf();
    let r = file_style(&style, &file, &mut errors);
    assert!(r.is_err());
    assert_eq!(errors.len(), 1);
    assert!(errors[0].starts_with("[ERROR] Cannot parse json"));
}

#[test]
fn file_parity_reports_missing_file() {
    let folders = vec![
        (
            "base/en".to_string(),
            vec![File("base/en/x.json".to_string()), File("base/en/sub/y.json".to_string())],
        ),
        ("base/de".to_string(), vec![File("base/de/x.json".to_string())]),
    ];
    let (groups, errors) = file_parity(folders);
    assert_eq!(groups.len(), 2);
    assert_eq!(errors.len(), 1);
    assert_eq!(
        errors[0],
        "[NOT FOUND] File \"sub/y.json\" not found in folder \"base/de\""
    );
}

#[test]
fn file_parity_groups_peers_by_relative_path() {
    let folders = vec![
        ("en".to_string(), vec![File("en/x.json".to_string())]),
        ("de".to_string(), vec![File("de/x.json".to_string())]),
    ];
    let (groups, errors) = file_parity(folders);
    assert_eq!(errors.len(), 0);
    assert_eq!(groups.len(), 1);
    assert_eq!(groups[0].len(), 2);
    assert_eq!(groups[0][0].path().as_str(), "en/x.json");
    assert_eq!(groups[0][1].path().as_str(), "de/x.json");
}

#[test]
fn file_parity_empty_input() {
    let folders: Vec<(String, Vec<File>)> = Vec::new();
    let (groups, errors) = file_parity(folders);
    assert_eq!(groups.len(), 0);
    assert_eq!(errors.len(), 0);
}
