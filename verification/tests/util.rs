use json_lint::cli;
use json_lint::cli::{cli_to_style, Cli, Commands};
use json_lint::parser::model::{JsonStyle, LineEnding, SortAlgorithm, SortOrder};
use json_lint::util::print_lines;

#[test]
fn print_lines_window_around_middle() {
    let text = "one\ntwo\nthree\nfour\nfive\nsix\nseven";
    let out = print_lines(4..4, text);
    assert_eq!(out, " [2]two\n [3]three\n [4]four\n [5]five\n [6]six");
}

#[test]
fn print_lines_at_first_line() {
    let text = "one\ntwo\nthree\nfour";
    let out = print_lines(1..1, text);
    assert_eq!(out, " [1]one\n [2]two\n [3]three");
}

#[test]
fn print_lines_at_last_line() {
    let text = "one\ntwo\nthree";
    let out = print_lines(3..3, text);
    assert_eq!(out, " [1]one\n [2]two\n [3]three");
}

#[test]
fn print_lines_empty_text() {
    let out = print_lines(1..1, "");
    assert_eq!(out, "");
}

#[test]
fn print_lines_strips_carriage_return() {
    let out = print_lines(1..1, "a\r\nb\r\n");
    assert_eq!(out, " [1]a\n [2]b");
}

#[test]
fn cli_to_style_maps_all_options() {
    let c = Cli {
        command: Commands::Lint { folders: vec!["x".to_string()] },
        algorithm: cli::SortAlgorithm::Natural,
        order: cli::SortOrder::Desc,
        line_endings: cli::LineEnding::CRLF,
        indent: cli::Indentation::TWO,
    };
    match cli_to_style(&c) {
        JsonStyle::STYLED { line_endings, indentation, post_colon, sort_algorithm, order } => {
            assert_eq!(line_endings, LineEnding::CRLF);
            assert_eq!(indentation.as_deref(), Some("  "));
            assert_eq!(post_colon.as_deref(), Some(" "));
            assert_eq!(sort_algorithm, SortAlgorithm::NATURAL);
            assert_eq!(order, SortOrder::DESC);
        }
        JsonStyle::IGNORE => panic!("expected a styled descriptor"),
    }
}

#[test]
fn cli_to_style_ignore_indent_means_unchecked() {
    let c = Cli {
        command: Commands::Format { folders: vec![] },
        algorithm: cli::SortAlgorithm::IGNORE,
        order: cli::SortOrder::Asc,
        line_endings: cli::LineEnding::LF,
        indent: cli::Indentation::IGNORE,
    };
    match cli_to_style(&c) {
        JsonStyle::STYLED { indentation, sort_algorithm, .. } => {
            assert!(indentation.is_none());
            assert_eq!(sort_algorithm, SortAlgorithm::NONE);
        }
        JsonStyle::IGNORE => panic!("expected a styled descriptor"),
    }
}

#[test]
fn empty_object_round_trips() {
    let style = || JsonStyle::STYLED {
        line_endings: LineEnding::LF,
        indentation: Some("    ".to_string()),
        post_colon: Some(" ".to_string()),
        order: SortOrder::ASC,
        sort_algorithm: SortAlgorithm::NONE,
    };
    let parser = json_lint::parser::parser::Parser::new(style());
    let (ast, msgs) = parser.parse("{\n}").unwrap();
    assert_eq!(msgs.len(), 0);
    let out = json_lint::parser::generator::Generator::new(style()).generate(ast);
    assert_eq!(out, "{\n}");
}
