use md_inc::parse::{ParseError, Parser, ParserConfig, Span};
use md_inc::syntax::CommandTags;
use md_inc::transform::TransformError;

const SNIPPET: &str = "fn main() {\n    println!(\"Hello World!\");\n}\n";

fn default_parser(content: &str) -> Parser {
    Parser {
        config: ParserConfig {
            base_dir: "test_helpers".into(),
            ..Default::default()
        },
        content: content.to_string(),
    }
}

fn pipes(content: &str) -> Parser {
    Parser::new(
        ParserConfig {
            tags: CommandTags::new("(|", "|)"),
            end_command: "end".to_string(),
            base_dir: String::new(),
        },
        content.to_string(),
    )
}

fn some(texts: &[&str]) -> Vec<Option<String>> {
    texts.iter().map(|t| Some(t.to_string())).collect()
}

#[test]
fn with_language() {
    let input = r#"
start
<!--{ code_snippet.rs | code: rust }-->
<!--{ end }-->
end"#;
    let expected = r#"
start
<!--{ code_snippet.rs | code: rust }-->
```rust
fn main() {
    println!("Hello World!");
}
```
<!--{ end }-->
end"#;
    let parser = default_parser(input);
    assert_eq!(parser.includes(), Ok(vec!["code_snippet.rs"]));
    let parsed = parser.parse(&some(&[SNIPPET])).unwrap();
    assert_eq!(parsed, expected);
}

#[test]
fn code() {
    let input = r#"
start
<!--{ code_snippet.rs | code }-->
<!--{ end }-->
end"#;
    let expected = r#"
start
<!--{ code_snippet.rs | code }-->
```
fn main() {
    println!("Hello World!");
}
```
<!--{ end }-->
end"#;
    let parsed = default_parser(input).parse(&some(&[SNIPPET])).unwrap();
    assert_eq!(parsed, expected);
}

#[test]
fn raw_input() {
    let input = r#"
start
<!--{ code_snippet.rs }-->
<!--{ end }-->
end"#;
    let expected = r#"
start
<!--{ code_snippet.rs }-->
fn main() {
    println!("Hello World!");
}
<!--{ end }-->
end"#;
    let parsed = default_parser(input).parse(&some(&[SNIPPET])).unwrap();
    assert_eq!(parsed, expected);
}

#[test]
fn short_document() {
    let parser = default_parser("1\n<!--{include_me.txt}-->\n<!--{end}-->\n2");
    let parsed = parser.parse(&some(&["INCLUDED_CONTENT\n"])).unwrap();
    assert_eq!(parsed, "1\n<!--{include_me.txt}-->\nINCLUDED_CONTENT\n<!--{end}-->\n2");
}

#[test]
fn custom_tags_and_empty_end_command() {
    let parser = Parser::new(
        ParserConfig {
            tags: CommandTags::new("<!--(", ")-->"),
            end_command: String::new(),
            base_dir: String::new(),
        },
        "1\n<!--(include_me.txt | code: rust)-->\n<!--()-->\n2".to_string(),
    );
    let parsed = parser.parse(&some(&["INCLUDED_CONTENT"])).unwrap();
    assert_eq!(
        parsed,
        "1\n<!--(include_me.txt | code: rust)-->\n```rust\nINCLUDED_CONTENT\n```\n<!--()-->\n2"
    );
}

#[test]
fn default_configuration() {
    let config = ParserConfig::default();
    assert_eq!(config.tags.opening, "<!--{");
    assert_eq!(config.tags.closing, "}-->");
    assert_eq!(config.end_command, "end");
    assert_eq!(config.base_dir, "");
}

#[test]
fn documents_without_blocks_stay_as_they_are() {
    for doc in ["", "plain", "line\nline\n", "a |) b {{ }} c", "\u{e9}\u{4e16}\n"] {
        assert_eq!(pipes(doc).parse(&vec![]), Ok(doc.to_string()));
        assert_eq!(pipes(doc).parse(&some(&["not used"])), Ok(doc.to_string()));
    }
}

#[test]
fn text_between_the_blocks_is_replaced() {
    let parsed = pipes("A(|f|)old text(|end|)Z").parse(&some(&["new"])).unwrap();
    assert_eq!(parsed, "A(|f|)\nnew\n(|end|)Z");
}

#[test]
fn text_outside_the_pairs_is_kept() {
    let doc = "\u{e9} one (|a|) x (|end|) two \u{4e16} (|b | before: \">\"|)\ny\n(|end|) three";
    let parsed = pipes(doc).parse(&some(&["  A  ", "\n\tB\n"])).unwrap();
    assert_eq!(
        parsed,
        "\u{e9} one (|a|)\nA\n(|end|) two \u{4e16} (|b | before: \">\"|)\n>B\n(|end|) three"
    );
}

#[test]
fn parsing_the_output_again_changes_nothing() {
    let sources = some(&["first\nfile", "second"]);
    let doc = "# T\n(|a.txt | code: txt|)\n(|end|)\nmid\n(|b.txt | wrap: \"[\" \"]\"|)stale(|end|)\n";
    let once = pipes(doc).parse(&sources).unwrap();
    assert_eq!(
        once,
        "# T\n(|a.txt | code: txt|)\n```txt\nfirst\nfile\n```\n(|end|)\nmid\n(|b.txt | wrap: \"[\" \"]\"|)\n[second]\n(|end|)\n"
    );
    let twice = pipes(&once).parse(&sources).unwrap();
    assert_eq!(twice, once);
}

#[test]
fn transforms_run_from_left_to_right() {
    let doc = "(|f | lines: 1 3 | before: \"> \" | after: \" <\" | line: 1|)\n(|end|)";
    let parsed = pipes(doc).parse(&some(&["a\nb\nc\nd"])).unwrap();
    assert_eq!(parsed, "(|f | lines: 1 3 | before: \"> \" | after: \" <\" | line: 1|)\nc <\n(|end|)");
}

#[test]
fn count_mismatch() {
    assert_eq!(
        pipes("(|a|) x (|b|) y (|end|)").parse(&some(&["1", "2"])),
        Err(ParseError::CountMismatch { commands: 2, ends: 1 })
    );
    assert_eq!(
        pipes("(|a|) x (|end|) y (|end|)").parse(&some(&["1"])),
        Err(ParseError::CountMismatch { commands: 1, ends: 2 })
    );
}

#[test]
fn end_before_begin() {
    assert_eq!(
        pipes("(|end|) x (|a|)").parse(&some(&["1"])),
        Err(ParseError::ExtraEnd { start: 10, end: 15 })
    );
}

#[test]
fn nested_pairs_are_refused() {
    // two begin-blocks and then two end-blocks
    assert_eq!(
        pipes("(|a|) (|b|) (|end|) (|end|)").parse(&some(&["1", "2"])),
        Err(ParseError::Unordered { start: 6, end: 11 })
    );
}

#[test]
fn missing_closing_tag() {
    assert_eq!(pipes("A(|nothing").parse(&vec![]), Err(ParseError::Scan { at: 1 }));
    assert_eq!(
        pipes("(|a|)\n(|end|)\n(|b").parse(&some(&["1"])),
        Err(ParseError::Scan { at: 14 })
    );
}

#[test]
fn unreadable_files() {
    let doc = "(|a|) (|end|) (|b|) (|end|)";
    assert_eq!(pipes(doc).parse(&vec![]), Err(ParseError::Unreadable { pair: 0 }));
    assert_eq!(
        pipes(doc).parse(&some(&["1"])),
        Err(ParseError::Unreadable { pair: 1 })
    );
    assert_eq!(
        pipes(doc).parse(&vec![Some("1".to_string()), None]),
        Err(ParseError::Unreadable { pair: 1 })
    );
    assert_eq!(
        pipes(doc).parse(&vec![None, Some("2".to_string())]),
        Err(ParseError::Unreadable { pair: 0 })
    );
}

#[test]
fn the_first_failure_is_reported() {
    let doc = "(|a | line: 7|) (|end|) (|b|) (|end|)";
    assert_eq!(
        pipes(doc).parse(&vec![Some("1".to_string()), None]),
        Err(ParseError::Transform { pair: 0, error: TransformError::MissingLine })
    );
    let doc = "(|a|) (|end|) (|b | before | match: \"(\"|) (|end|)";
    assert_eq!(
        pipes(doc).parse(&some(&["1", "2"])),
        Err(ParseError::Transform { pair: 1, error: TransformError::MissingBefore })
    );
}

#[test]
fn files_are_trimmed() {
    let parsed = pipes("(|f|)\n(|end|)").parse(&some(&["\u{a0}\n\t text \u{2003}\r\n"])).unwrap();
    assert_eq!(parsed, "(|f|)\ntext\n(|end|)");
}

#[test]
fn spans_of_a_document() {
    let spans = pipes("A(|f|)old(|end|)Z").spans(&some(&[" new "])).unwrap();
    assert_eq!(
        spans,
        vec![
            Span::Existing((0, 6)),
            Span::Replace("new".to_string()),
            Span::Existing((9, 17)),
        ]
    );
    assert_eq!(pipes("plain").spans(&vec![]), Ok(vec![Span::Existing((0, 5))]));
    let doc = "(|a|) (|end|)(|b | code|)\n(|end|)";
    assert_eq!(
        pipes(doc).spans(&some(&["1", "2"])),
        Ok(vec![
            Span::Existing((0, 5)),
            Span::Replace("1".to_string()),
            Span::Existing((6, 25)),
            Span::Replace("```\n2\n```".to_string()),
            Span::Existing((26, 33)),
        ])
    );
    assert_eq!(
        pipes(doc).spans(&some(&["1"])),
        Err(ParseError::Unreadable { pair: 1 })
    );
}
