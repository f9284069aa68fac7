use json_lint::parser::generator::Generator;
use json_lint::parser::model::{
    JsonObject, JsonString, JsonStyle, JsonType, LineEnding, Pos, SortAlgorithm, SortOrder,
};

fn p() -> Pos {
    Pos { line: 1, col: 1, offset: 0 }
}

fn s(text: &str) -> JsonString {
    JsonString { value: text.to_string(), start: p(), end: p() }
}

#[test]
fn generate_style_1_empty() {
    let generator = Generator::new(JsonStyle::STYLED {
        line_endings: LineEnding::LF,
        indentation: Some("    ".to_string()),
        post_colon: Some(" ".to_string()),
        order: SortOrder::ASC,
        sort_algorithm: SortAlgorithm::NONE,
    });
    let generated = generator.generate(JsonObject { start: p(), end: p(), values: Vec::from([]) });

    assert_eq!(generated, "{\n}")
}

#[test]
fn generate_style_1_filled() {
    let generator = Generator::new(JsonStyle::STYLED {
        line_endings: LineEnding::LF,
        indentation: Some("    ".to_string()),
        post_colon: Some(" ".to_string()),
        order: SortOrder::ASC,
        sort_algorithm: SortAlgorithm::NONE,
    });
    let generated = generator.generate(JsonObject {
        start: p(),
        end: p(),
        values: Vec::from([(s("hello"), JsonType::String(s("world")))]),
    });

    assert_eq!(generated, "{\n    \"hello\": \"world\"\n}")
}

#[test]
fn generate_style_1_stacked() {
    let generator = Generator::new(JsonStyle::STYLED {
        line_endings: LineEnding::LF,
        indentation: Some("    ".to_string()),
        post_colon: Some(" ".to_string()),
        order: SortOrder::ASC,
        sort_algorithm: SortAlgorithm::NONE,
    });
    let generated = generator.generate(JsonObject {
        start: p(),
        end: p(),
        values: Vec::from([
            (s("hello"), JsonType::String(s("world"))),
            (
                s("how"),
                JsonType::Object(JsonObject {
                    start: p(),
                    end: p(),
                    values: Vec::from([(s("are"), JsonType::String(s("you")))]),
                }),
            ),
        ]),
    });

    assert_eq!(
        generated,
        "{\n    \"hello\": \"world\",\n    \"how\": {\n        \"are\": \"you\"\n    }\n}"
    )
}

#[test]
fn generate_style_2_stacked() {
    let generator = Generator::new(JsonStyle::STYLED {
        line_endings: LineEnding::NONE,
        indentation: Some("".to_string()),
        post_colon: Some("".to_string()),
        order: SortOrder::ASC,
        sort_algorithm: SortAlgorithm::NONE,
    });
    let generated = generator.generate(JsonObject {
        start: p(),
        end: p(),
        values: Vec::from([
            (s("hello"), JsonType::String(s("world"))),
            (
                s("how"),
                JsonType::Object(JsonObject {
                    start: p(),
                    end: p(),
                    values: Vec::from([(s("are"), JsonType::String(s("you")))]),
                }),
            ),
        ]),
    });

    assert_eq!(generated, "{\"hello\":\"world\",\"how\":{\"are\":\"you\"}}")
}

#[test]
fn generate_style_3_stacked() {
    let generator = Generator::new(JsonStyle::STYLED {
        line_endings: LineEnding::CRLF,
        indentation: Some("  ".to_string()),
        post_colon: Some(" ".to_string()),
        order: SortOrder::ASC,
        sort_algorithm: SortAlgorithm::NONE,
    });
    let generated = generator.generate(JsonObject {
        start: p(),
        end: p(),
        values: Vec::from([
            (s("hello"), JsonType::String(s("world"))),
            (
                s("how"),
                JsonType::Object(JsonObject {
                    start: p(),
                    end: p(),
                    values: Vec::from([(s("are"), JsonType::String(s("you")))]),
                }),
            ),
        ]),
    });

    assert_eq!(
        generated,
        "{\r\n  \"hello\": \"world\",\r\n  \"how\": {\r\n    \"are\": \"you\"\r\n  }\r\n}"
    )
}

#[test]
fn generate_with_natural_sort_orders_numeric_runs() {
    let generator = Generator::new(JsonStyle::STYLED {
        line_endings: LineEnding::LF,
        indentation: Some("  ".to_string()),
        post_colon: Some(" ".to_string()),
        order: SortOrder::ASC,
        sort_algorithm: SortAlgorithm::NATURAL,
    });
    let generated = generator.generate(JsonObject {
        start: p(),
        end: p(),
        values: Vec::from([
            (s("item10"), JsonType::String(s(""))),
            (s("item2"), JsonType::String(s(""))),
        ]),
    });

    assert_eq!(generated, "{\n  \"item2\": \"\",\n  \"item10\": \"\"\n}")
}

#[test]
fn generate_ignore_style_is_compact() {
    let generator = Generator::new(JsonStyle::IGNORE);
    let generated = generator.generate(JsonObject {
        start: p(),
        end: p(),
        values: Vec::from([(s("a"), JsonType::String(s("1")))]),
    });
    assert_eq!(generated, "{\"a\":\"1\"}");
}

#[test]
fn sort_by_descending_reverses() {
    let mut json = JsonObject {
        start: p(),
        end: p(),
        values: Vec::from([
            (s("a"), JsonType::String(s("1"))),
            (s("b"), JsonType::String(s("2"))),
        ]),
    };
    json.sort_by(SortAlgorithm::NORMAL, SortOrder::DESC);
    assert_eq!(json.values[0].0.value, "b");
    assert_eq!(json.values[1].0.value, "a");
}

#[test]
fn parse_then_generate_round_trips_clean_text() {
    let style = || JsonStyle::STYLED {
        line_endings: LineEnding::LF,
        indentation: Some("    ".to_string()),
        post_colon: Some(" ".to_string()),
        order: SortOrder::ASC,
        sort_algorithm: SortAlgorithm::NORMAL,
    };
    let texts = [
        "{\n}",
        "{\n    \"a\": \"1\"\n}",
        "{\n    \"a\": \"1\",\n    \"b\": {\n        \"c\": \"2\"\n    }\n}",
    ];
    for text in texts {
        let parser = json_lint::parser::parser::Parser::new(style());
        let (ast, msgs) = parser.parse(text).unwrap();
        assert_eq!(msgs.len(), 0);
        let generated = Generator::new(style()).generate(ast);
        assert_eq!(generated, text);
    }
}

#[test]
fn format_is_idempotent_from_permissive_parse() {
    let style = || JsonStyle::STYLED {
        line_endings: LineEnding::LF,
        indentation: Some("  ".to_string()),
        post_colon: Some(" ".to_string()),
        order: SortOrder::ASC,
        sort_algorithm: SortAlgorithm::NATURAL,
    };
    let input = "{\"b\":\"2\",\"a\":{\"y\":\"1\",\"x\":\"0\"}}";
    let parser = json_lint::parser::parser::Parser::new(JsonStyle::IGNORE);
    let (ast, _) = parser.parse(input).unwrap();
    let once = Generator::new(style()).generate(ast);
    let parser2 = json_lint::parser::parser::Parser::new(JsonStyle::IGNORE);
    let (ast2, _) = parser2.parse(&once).unwrap();
    let twice = Generator::new(style()).generate(ast2);
    assert_eq!(once, twice);
}

#[test]
fn json_string_equality_ignores_positions() {
    let a = JsonString {
        value: "k".to_string(),
        start: Pos { line: 1, col: 2, offset: 1 },
        end: Pos { line: 1, col: 3, offset: 2 },
    };
    let b = JsonString {
        value: "k".to_string(),
        start: Pos { line: 9, col: 9, offset: 9 },
        end: Pos { line: 9, col: 9, offset: 9 },
    };
    let c = JsonString { value: "other".to_string(), start: p(), end: p() };
    assert_eq!(a, b);
    assert_ne!(a, c);
}
