use md_inc::command::Command;
use md_inc::pieces::{escaped, line_spans, parse_index};
use md_inc::transform::{select_group, transform, TransformError};

#[test]
fn cmd_lines() {
    let input = r#"1
2
3
4
5"#;
    let expected = r#"3
4"#;

    let cmd = Command::new("lines", vec!["2", "4"]);
    let parsed = transform(input, &cmd).unwrap();
    assert_eq!(parsed, expected);
}

#[test]
fn cmd_lines_defaults_and_bounds() {
    let input = "1\n2\n3\n4\n5";
    let run = |args: Vec<&str>| transform(input, &Command::new("lines", args));
    assert_eq!(run(vec![]).unwrap(), "1\n2\n3\n4\n5");
    assert_eq!(run(vec!["3"]).unwrap(), "4\n5");
    assert_eq!(run(vec!["0", "1"]).unwrap(), "1");
    assert_eq!(run(vec!["1", "100"]).unwrap(), "2\n3\n4\n5");
    assert_eq!(run(vec!["5"]).unwrap(), "");
    assert_eq!(run(vec!["9", "10"]).unwrap(), "");
    assert_eq!(run(vec!["3", "3"]).unwrap(), "");
    assert_eq!(run(vec!["4", "2"]).unwrap(), "");
    assert_eq!(run(vec!["x"]), Err(TransformError::InvalidFrom));
    assert_eq!(run(vec!["1", "y"]), Err(TransformError::InvalidTo));
    assert_eq!(run(vec!["x", "y"]), Err(TransformError::InvalidFrom));
    assert_eq!(run(vec!["", "1"]), Err(TransformError::InvalidFrom));
}

#[test]
fn lines_of_a_text() {
    let lines = |text: &str| -> Vec<String> {
        line_spans(text).iter().map(|t| text[t.start..t.end].to_string()).collect()
    };
    assert_eq!(lines(""), Vec::<String>::new());
    assert_eq!(lines("a"), vec!["a"]);
    assert_eq!(lines("a\n"), vec!["a"]);
    assert_eq!(lines("\n"), vec![""]);
    assert_eq!(lines("a\n\nb"), vec!["a", "", "b"]);
    assert_eq!(lines("a\r\nb\r\n"), vec!["a", "b"]);
    assert_eq!(lines("a\rb\n"), vec!["a\rb"]);
    assert_eq!(lines("a\r"), vec!["a\r"]);
    assert_eq!(lines("\r\n"), vec![""]);
    assert_eq!(lines("\u{e9}\n\u{4e16}"), vec!["\u{e9}", "\u{4e16}"]);
    for text in ["", "a", "a\n", "\n\n", "a\r\n\r\nb", "x\ry\r", "\u{e9}\r\n\u{4e16}\n"] {
        let expected: Vec<String> = text.lines().map(|l| l.to_string()).collect();
        assert_eq!(lines(text), expected);
    }
}

#[test]
fn cmd_line() {
    let input = r#"1
2
3
4"#;
    let expected = r#"3"#;
    let cmd = Command::new("line", vec!["2"]);
    let parsed = transform(input, &cmd).unwrap();
    assert_eq!(parsed, expected);

    let expected = r#"3
2"#;
    let cmd = Command::new("line", vec!["2", "1"]);
    let parsed = transform(input, &cmd).unwrap();
    assert_eq!(parsed, expected);
}

#[test]
fn cmd_line_errors() {
    let input = "1\n2\n3\n4";
    let run = |args: Vec<&str>| transform(input, &Command::new("line", args));
    assert_eq!(run(vec![]).unwrap(), "");
    assert_eq!(run(vec!["0", "0", "3"]).unwrap(), "1\n1\n4");
    assert_eq!(run(vec!["4"]), Err(TransformError::MissingLine));
    assert_eq!(run(vec!["a"]), Err(TransformError::InvalidLine));
    assert_eq!(run(vec!["1", "9", "a"]), Err(TransformError::MissingLine));
    assert_eq!(run(vec!["1", "a", "9"]), Err(TransformError::InvalidLine));
}

#[test]
fn cmd_before() {
    let input = r#"txt"#;
    let expected = r#"abc_txt"#;
    let cmd = Command::new("wrap", vec!["abc_", ""]);
    let parsed = transform(input, &cmd).unwrap();
    assert_eq!(parsed, expected);
}

#[test]
fn before_prepends() {
    let cmd = Command::new("before", vec!["abc_"]);
    assert_eq!(transform("txt", &cmd).unwrap(), "abc_txt");
    let cmd = Command::new("before", vec!["a\\nb\\\\c\\\"", "ignored"]);
    assert_eq!(transform("txt", &cmd).unwrap(), "a\nb\\c\"txt");
    let cmd = Command::new("before", vec![]);
    assert_eq!(transform("txt", &cmd), Err(TransformError::MissingBefore));
    // an escape sequence that is not known empties the argument
    let cmd = Command::new("before", vec!["abc\\t"]);
    assert_eq!(transform("txt", &cmd).unwrap(), "txt");
}

#[test]
fn cmd_after() {
    let input = r#"txt"#;
    let expected = r#"txt
abc"#;
    let cmd = Command::new("wrap", vec!["", "\\nabc"]);
    let parsed = transform(input, &cmd).unwrap();
    assert_eq!(parsed, expected);
}

#[test]
fn after_appends() {
    let cmd = Command::new("after", vec!["_abc"]);
    assert_eq!(transform("txt", &cmd).unwrap(), "txt_abc");
    let cmd = Command::new("after", vec![]);
    assert_eq!(transform("txt", &cmd), Err(TransformError::MissingAfter));
}

#[test]
fn cmd_wrap() {
    let input = r#"txt"#;
    let expected = r#"vvvvvvvv
txt
^^^^^^^^"#;
    let cmd = Command::new("wrap", vec!["vvvvvvvv\\n", "\\n^^^^^^^^"]);
    let parsed = transform(input, &cmd).unwrap();
    assert_eq!(parsed, expected);
}

#[test]
fn cmd_wrap_same() {
    let input = r#"txt"#;
    let expected = r#"--txt--"#;
    let cmd = Command::new("wrap", vec!["--"]);
    let parsed = transform(input, &cmd).unwrap();
    assert_eq!(parsed, expected);
}

#[test]
fn wrap_without_argument() {
    let cmd = Command::new("wrap", vec![]);
    assert_eq!(transform("txt", &cmd), Err(TransformError::MissingWrap));
}

#[test]
fn cmd_wrap_lines() {
    let input = r#"a
b
c"#;
    let cmd = Command::new("wrap-lines", vec!["<<", ">>"]);
    let parsed = transform(input, &cmd).unwrap();
    assert_eq!(parsed, input);
}

#[test]
fn cmd_wrap_lines_same() {
    let input = r#"a
b
c"#;
    let cmd = Command::new("wrap-lines", vec!["```"]);
    let parsed = transform(input, &cmd).unwrap();
    assert_eq!(parsed, input);
}

#[test]
fn cmd_line_numbers() {
    let input = r#"a
b
c"#;
    let cmd = Command::new("line-numbers", vec![]);
    let parsed = transform(input, &cmd).unwrap();
    assert_eq!(parsed, input);
    let cmd = Command::new("line-numbers", vec![") "]);
    let parsed = transform(input, &cmd).unwrap();
    assert_eq!(parsed, input);
}

#[test]
fn cmd_line_numbers_width() {
    let input = r#"a
b
c
d
e
f
g
h
i
j
k
l"#;
    let cmd = Command::new("line-numbers", vec![]);
    let parsed = transform(input, &cmd).unwrap();
    assert_eq!(parsed, input);
    let cmd = Command::new("line-numbers", vec![": ", "4"]);
    let parsed = transform(input, &cmd).unwrap();
    assert_eq!(parsed, input);
}

#[test]
fn unknown_names_pass_the_text_on() {
    for name in ["", "Code", "codes", "LINES", "nothing"] {
        let cmd = Command::new(name, vec!["x"]);
        assert_eq!(transform("a\nb", &cmd).unwrap(), "a\nb");
    }
}

#[test]
fn cmd_code() {
    let cmd = Command::new("code", vec!["rust"]);
    assert_eq!(transform("fn f() {}", &cmd).unwrap(), "```rust\nfn f() {}\n```");
    let cmd = Command::new("code", vec![]);
    assert_eq!(transform("fn f() {}", &cmd).unwrap(), "```\nfn f() {}\n```");
    // the language is taken as it stands
    let cmd = Command::new("code", vec!["a\\nb", "more"]);
    assert_eq!(transform("", &cmd).unwrap(), "```a\\nb\n\n```");
}

#[test]
fn cmd_match() {
    let input = r#"
// Comments
// More comments
fn main() {
    println!("Hello, World!");
}
// End comments
fn other() {
}
//etc...
"#;
    let expected = r#"fn main() {
    println!("Hello, World!");
}"#;
    let cmd = Command::new("match", vec![r#"\n(fn main[\s\S]+?\n\})"#, "1"]);
    let parsed = transform(input, &cmd).unwrap();
    assert_eq!(parsed, expected);
}

#[test]
fn cmd_match_groups_and_errors() {
    let run = |args: Vec<&str>| transform("key=value; other", &Command::new("match", args));
    assert_eq!(run(vec!["(\\w+)=(\\w+)"]).unwrap(), "key=value");
    assert_eq!(run(vec!["(\\w+)=(\\w+)", "0"]).unwrap(), "key=value");
    assert_eq!(run(vec!["(\\w+)=(\\w+)", "2"]).unwrap(), "value");
    assert_eq!(run(vec!["(\\w+)=(\\w+)", "3"]), Err(TransformError::FewGroups { groups: 3 }));
    // a group that took no part in the match
    assert_eq!(run(vec!["(zzz)?key", "1"]), Err(TransformError::FewGroups { groups: 2 }));
    assert_eq!(run(vec![]), Err(TransformError::MissingPattern));
    assert_eq!(run(vec!["("]), Err(TransformError::InvalidPattern));
    assert_eq!(run(vec!["(", "x"]), Err(TransformError::InvalidPattern));
    assert_eq!(run(vec!["key", "x"]), Err(TransformError::InvalidGroup));
    assert_eq!(run(vec!["nowhere"]), Err(TransformError::NoMatch));
    assert_eq!(run(vec!["nowhere", "x"]), Err(TransformError::InvalidGroup));
    // the match is not the text that was searched
    assert_eq!(run(vec!["o[a-z]+"]).unwrap(), "other");
}

#[test]
fn picking_a_group() {
    let found = Some(vec![Some("whole"), None, Some("two")]);
    assert_eq!(select_group(&found, 0), Ok("whole".to_string()));
    assert_eq!(select_group(&found, 2), Ok("two".to_string()));
    assert_eq!(select_group(&found, 1), Err(TransformError::FewGroups { groups: 3 }));
    assert_eq!(select_group(&found, 3), Err(TransformError::FewGroups { groups: 3 }));
    assert_eq!(select_group(&None, 0), Err(TransformError::NoMatch));
}

#[test]
fn escapes() {
    assert_eq!(escaped(""), "");
    assert_eq!(escaped("abc_"), "abc_");
    assert_eq!(escaped("a\\\\b"), "a\\b");
    assert_eq!(escaped("a\\\"b"), "a\"b");
    assert_eq!(escaped("a\\nb"), "a\nb");
    assert_eq!(escaped("\\n\\n"), "\n\n");
    assert_eq!(escaped("\\\\n"), "\\n");
    assert_eq!(escaped("\u{e9}\\n\u{4e16}"), "\u{e9}\n\u{4e16}");
    // anything else after a backslash, or nothing, gives the empty text
    assert_eq!(escaped("abc\\t"), "");
    assert_eq!(escaped("abc\\"), "");
    assert_eq!(escaped("\\x41 and more"), "");
    assert_eq!(escaped("ok\\n then \\\u{e9}"), "");
}

#[test]
fn indices() {
    assert_eq!(parse_index("0"), Some(0));
    assert_eq!(parse_index("42"), Some(42));
    assert_eq!(parse_index("007"), Some(7));
    assert_eq!(parse_index("+5"), Some(5));
    assert_eq!(parse_index(""), None);
    assert_eq!(parse_index("+"), None);
    assert_eq!(parse_index("-1"), None);
    assert_eq!(parse_index("-0"), None);
    assert_eq!(parse_index("++1"), None);
    assert_eq!(parse_index("1+"), None);
    assert_eq!(parse_index(" 1"), None);
    assert_eq!(parse_index("1 "), None);
    assert_eq!(parse_index("12a"), None);
    assert_eq!(parse_index("\u{663}"), None);
    let max = usize::MAX.to_string();
    assert_eq!(parse_index(&max), Some(usize::MAX));
    assert_eq!(parse_index(&format!("{}0", max)), None);
    assert_eq!(parse_index("99999999999999999999999999999999999999999"), None);
    for text in ["0", "+0", "18446744073709551615", "18446744073709551616", "-", "+-1", "0x10"] {
        assert_eq!(parse_index(text), text.parse::<usize>().ok());
    }
}
