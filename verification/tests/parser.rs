use json_lint::parser::model::{JsonStyle, LineEnding, SortAlgorithm, SortOrder};
use json_lint::parser::Pretty;
use json_lint::parser::parser::{cur_start, parse_string, Diag, Parser};

fn chars_of(s: &str) -> Vec<char> {
    s.chars().collect()
}

#[test]
fn string_parsing() {
    let span = chars_of("\"hello world\"");
    let result = parse_string(&span, cur_start());
    assert_eq!(result.is_ok(), true);
    let (_, json_string) = result.unwrap();
    assert_eq!(json_string.value, "hello world")
}

#[test]
fn string_parsing_err() {
    let span = chars_of("hello world\"");
    let result = parse_string(&span, cur_start());
    assert_eq!(result.is_err(), true);
}

#[test]
fn string_parsing_escaped_quote() {
    let span = chars_of("\"a\\\"b\"");
    let result = parse_string(&span, cur_start());
    assert_eq!(result.is_ok(), true);
    let (_, json_string) = result.unwrap();
    assert_eq!(json_string.value, "a\\\"b");
}

#[test]
fn entry_parsing_string_post_colon_ok() {
    let span = chars_of("\"hello\": \"world\"");
    let parser = Parser::new(JsonStyle::IGNORE);
    let mut style_errors: Vec<Diag> = Vec::new();
    let result = parser.parse_entry(&span, cur_start(), 0, &mut style_errors);
    assert_eq!(result.is_ok(), true);
    assert_eq!(style_errors.len(), 0);
}

#[test]
fn entry_parsing_string_post_colon_err() {
    let span = chars_of("\"hello\":  \"world\"");
    let parser = Parser::new(JsonStyle::STYLED {
        line_endings: LineEnding::IGNORE,
        indentation: None,
        post_colon: Some(" ".to_string()),
        order: SortOrder::ASC,
        sort_algorithm: SortAlgorithm::NONE,
    });
    let mut style_errors: Vec<Diag> = Vec::new();
    let result = parser.parse_entry(&span, cur_start(), 0, &mut style_errors);
    assert_eq!(result.is_ok(), true);
    assert_eq!(style_errors.len(), 1);
}

#[test]
fn entry_parsing_string_post_colon_ignore() {
    let span = chars_of("\"hello\":  \"world\"");
    let parser = Parser::new(JsonStyle::STYLED {
        line_endings: LineEnding::IGNORE,
        indentation: None,
        post_colon: None,
        order: SortOrder::ASC,
        sort_algorithm: SortAlgorithm::NONE,
    });
    let mut style_errors: Vec<Diag> = Vec::new();
    let result = parser.parse_entry(&span, cur_start(), 0, &mut style_errors);
    assert_eq!(result.is_ok(), true);
    assert_eq!(style_errors.len(), 0);
}

#[test]
fn object_parsing_ignore() {
    let span = chars_of("{\"hello\":\"world\"}");
    let parser = Parser::new(JsonStyle::STYLED {
        line_endings: LineEnding::IGNORE,
        indentation: None,
        post_colon: None,
        order: SortOrder::ASC,
        sort_algorithm: SortAlgorithm::NONE,
    });
    let mut style_errors: Vec<Diag> = Vec::new();
    let result = parser.parse_object(&span, cur_start(), 0, &mut style_errors);
    assert_eq!(result.is_ok(), true);
    assert_eq!(style_errors.len(), 0);
}

#[test]
fn object_parsing_lf_err() {
    let span = chars_of("{\"hello\":\"world\"}");
    let parser = Parser::new(JsonStyle::STYLED {
        line_endings: LineEnding::LF,
        indentation: None,
        post_colon: None,
        order: SortOrder::ASC,
        sort_algorithm: SortAlgorithm::NONE,
    });
    let mut style_errors: Vec<Diag> = Vec::new();
    let result = parser.parse_object(&span, cur_start(), 0, &mut style_errors);
    assert_eq!(result.is_ok(), true);
    assert_eq!(style_errors.len(), 2);
}

#[test]
fn object_parsing_lf_ok() {
    let span = chars_of("{\n\"hello\":\"world\"\n}");
    let parser = Parser::new(JsonStyle::STYLED {
        line_endings: LineEnding::LF,
        indentation: None,
        post_colon: Some("".to_string()),
        order: SortOrder::ASC,
        sort_algorithm: SortAlgorithm::NONE,
    });
    let mut style_errors: Vec<Diag> = Vec::new();
    let result = parser.parse_object(&span, cur_start(), 0, &mut style_errors);
    assert_eq!(result.is_ok(), true);
    assert_eq!(style_errors.len(), 0);
}

#[test]
fn object_parsing_post_colon_crlf_err() {
    let span = chars_of("{\r\n\"hello\":\"world\"\n}");
    let parser = Parser::new(JsonStyle::STYLED {
        line_endings: LineEnding::CRLF,
        indentation: None,
        post_colon: None,
        order: SortOrder::ASC,
        sort_algorithm: SortAlgorithm::NONE,
    });
    let mut style_errors: Vec<Diag> = Vec::new();
    let result = parser.parse_object(&span, cur_start(), 0, &mut style_errors);
    assert_eq!(result.is_ok(), true);
    assert_eq!(style_errors.len(), 1);
}

#[test]
fn object_parsing_crlf_ok() {
    let span = chars_of("{\r\n\"hello\":\"world\"\r\n}");
    let parser = Parser::new(JsonStyle::STYLED {
        line_endings: LineEnding::CRLF,
        indentation: None,
        post_colon: Some("".to_string()),
        order: SortOrder::ASC,
        sort_algorithm: SortAlgorithm::NONE,
    });
    let mut style_errors: Vec<Diag> = Vec::new();
    let result = parser.parse_object(&span, cur_start(), 0, &mut style_errors);
    assert_eq!(result.is_ok(), true);
    println!("{:#?}", &style_errors);
    assert_eq!(style_errors.len(), 0);
}

#[test]
fn object_parsing_indent_post_colon_lf_ok() {
    let span = chars_of("{\n    \"hello\": \"world\"\n}");
    let parser = Parser::new(JsonStyle::STYLED {
        line_endings: LineEnding::LF,
        indentation: Some("    ".to_string()),
        post_colon: Some(" ".to_string()),
        order: SortOrder::ASC,
        sort_algorithm: SortAlgorithm::NONE,
    });
    let mut style_errors: Vec<Diag> = Vec::new();
    let result = parser.parse_object(&span, cur_start(), 0, &mut style_errors);
    assert_eq!(result.is_ok(), true);
    println!("{:#?}", &style_errors);
    assert_eq!(style_errors.len(), 0);
}

#[test]
fn bigger_object_parsing_indent_post_colon_lf_ok() {
    let span = chars_of("{\n    \"hello\": \"world\",\n    \"how\": \"are\"\n}");
    let parser = Parser::new(JsonStyle::STYLED {
        line_endings: LineEnding::LF,
        indentation: Some("    ".to_string()),
        post_colon: Some(" ".to_string()),
        order: SortOrder::ASC,
        sort_algorithm: SortAlgorithm::NONE,
    });
    let mut style_errors: Vec<Diag> = Vec::new();
    let result = parser.parse_object(&span, cur_start(), 0, &mut style_errors);
    assert_eq!(result.is_ok(), true);
    assert_eq!(style_errors.len(), 0);
}

#[test]
fn stacked_object_parsing_indent_post_colon_lf_ok() {
    let span = chars_of("{\n    \"hello\": \"world\",\n    \"how\": {\n    }\n}");
    let parser = Parser::new(JsonStyle::STYLED {
        line_endings: LineEnding::LF,
        indentation: Some("    ".to_string()),
        post_colon: Some(" ".to_string()),
        order: SortOrder::ASC,
        sort_algorithm: SortAlgorithm::NONE,
    });
    let mut style_errors: Vec<Diag> = Vec::new();
    let result = parser.parse_object(&span, cur_start(), 0, &mut style_errors);
    assert_eq!(result.is_ok(), true);
    assert_eq!(style_errors.len(), 0);
}

#[test]
fn stacked_filled_object_parsing_indent_post_colon_lf_ok() {
    let span = chars_of(
        "{\n    \"hello\": \"world\",\n    \"how\": {\n        \"are\": \"you\"\n    }\n}",
    );
    let parser = Parser::new(JsonStyle::STYLED {
        line_endings: LineEnding::LF,
        indentation: Some("    ".to_string()),
        post_colon: Some(" ".to_string()),
        order: SortOrder::ASC,
        sort_algorithm: SortAlgorithm::NONE,
    });
    let mut style_errors: Vec<Diag> = Vec::new();
    let result = parser.parse_object(&span, cur_start(), 0, &mut style_errors);
    assert_eq!(result.is_ok(), true);
    assert_eq!(style_errors.len(), 0);
}

#[test]
fn object_parsing_indent_post_colon_lf_err() {
    let s = [
        "{\n\"hello\": \"world\"\n}",
        "{    \"hello\": \"world\"\n}",
        "{\n     \"hello\": \"world\"\n}",
        "{\n    \"hello\":  \"world\"\n}",
        "{\n    \"hello\": \"world\" \n}",
        "{\n    \"hello\": \"world\"}",
    ];
    s.iter().for_each(|s| {
        let span = chars_of(s);
        let parser = Parser::new(JsonStyle::STYLED {
            line_endings: LineEnding::LF,
            indentation: Some("    ".to_string()),
            post_colon: Some(" ".to_string()),
            order: SortOrder::ASC,
            sort_algorithm: SortAlgorithm::NONE,
        });
        let mut style_errors: Vec<Diag> = Vec::new();
        let result = parser.parse_object(&span, cur_start(), 0, &mut style_errors);
        assert_eq!(result.is_ok(), true);
        assert_eq!(style_errors.len(), 1);
    });
}

#[test]
fn parse_clean_input_has_no_diagnostics() {
    let parser = Parser::new(JsonStyle::STYLED {
        line_endings: LineEnding::LF,
        indentation: Some("    ".to_string()),
        post_colon: Some(" ".to_string()),
        order: SortOrder::ASC,
        sort_algorithm: SortAlgorithm::NORMAL,
    });
    let result = parser.parse("{\n    \"a\": \"1\",\n    \"b\": \"2\"\n}");
    assert!(result.is_ok());
    let (_, msgs) = result.unwrap();
    assert_eq!(msgs.len(), 0);
}

#[test]
fn parse_sort_violation_is_one_diagnostic() {
    let parser = Parser::new(JsonStyle::STYLED {
        line_endings: LineEnding::LF,
        indentation: Some("    ".to_string()),
        post_colon: Some(" ".to_string()),
        order: SortOrder::ASC,
        sort_algorithm: SortAlgorithm::NORMAL,
    });
    let result = parser.parse("{\n    \"b\": \"1\",\n    \"a\": \"2\"\n}");
    assert!(result.is_ok());
    let (_, msgs) = result.unwrap();
    assert_eq!(msgs.len(), 1);
    // the diagnostic points at the start of the "a" key
    assert_eq!(msgs[0].0.offset, 21);
    assert!(msgs[0].1.contains("greater than its predecessor"));
}

#[test]
fn parse_indentation_violation_is_one_diagnostic() {
    let parser = Parser::new(JsonStyle::STYLED {
        line_endings: LineEnding::LF,
        indentation: Some("    ".to_string()),
        post_colon: Some(" ".to_string()),
        order: SortOrder::ASC,
        sort_algorithm: SortAlgorithm::NORMAL,
    });
    let result = parser.parse("{\n  \"a\": \"1\"\n}");
    assert!(result.is_ok());
    let (_, msgs) = result.unwrap();
    assert_eq!(msgs.len(), 1);
    assert!(msgs[0].1.contains("less indentation"));
}

#[test]
fn ignored_line_endings_accept_lone_carriage_return() {
    // a \r not followed by \n is consumed silently when the line-ending
    // rule is set to ignore
    let parser = Parser::new(JsonStyle::STYLED {
        line_endings: LineEnding::IGNORE,
        indentation: None,
        post_colon: None,
        order: SortOrder::ASC,
        sort_algorithm: SortAlgorithm::NONE,
    });
    let result = parser.parse("{\r\"a\":\"1\"\r}");
    assert!(result.is_ok());
    let (_, msgs) = result.unwrap();
    assert_eq!(msgs.len(), 0);
}

#[test]
fn parse_fatal_on_unterminated_string() {
    let parser = Parser::new(JsonStyle::IGNORE);
    let result = parser.parse("{\"a\": \"oops}");
    assert!(result.is_err());
}

#[test]
fn parse_fatal_on_missing_colon() {
    let parser = Parser::new(JsonStyle::IGNORE);
    let result = parser.parse("{\"a\" \"b\"}");
    assert!(result.is_err());
}

#[test]
fn parse_simple() {
    let content = String::from("{ \"hello\": \"world\" }");
    let result = json_lint::parser::parse_root(&content);
    assert_eq!(result.is_some(), true);
    let values: &Vec<(json_lint::parser::JsonString, json_lint::parser::JsonType)> =
        &result.unwrap().values;
    assert_eq!(values.len(), 1);
    let (key, value) = values.get(0).unwrap();
    assert_eq!(key.value, "hello");
    match value {
        json_lint::parser::JsonType::Object(_) => assert_eq!(true, false),
        json_lint::parser::JsonType::String(s) => assert_eq!(s.value, "world"),
    }
}

#[test]
fn parse_root_rejects_missing_brace() {
    let content = String::from("\"hello\": \"world\"");
    assert!(json_lint::parser::parse_root(&content).is_none());
}

#[test]
fn pretty_prints_nested_objects() {
    let content = String::from("{\"a\": {\"b\": \"1\"}}");
    let parsed = json_lint::parser::parse_root(&content).unwrap();
    let out = parsed.pretty(2, 2, "\n");
    assert_eq!(out, "{\n  \"a\": {\n    \"b\": \"1\"\n  }\n}");
}

#[test]
fn pretty_prints_empty_object() {
    let content = String::from("{}");
    let parsed = json_lint::parser::parse_root(&content).unwrap();
    let out = parsed.pretty(2, 2, "\n");
    assert_eq!(out, "{}");
}
