use md_inc::command::{Command, CommandSec};
use md_inc::parse::{ParseError, Parser, ParserConfig};
use md_inc::syntax::{
    command, command_args, command_block, maybe_wrapped_string, next_command_block,
    wrapped_string, CommandTags, Unmatched,
};

fn parser(opening: &str, closing: &str, content: &str) -> Parser {
    Parser {
        config: ParserConfig {
            tags: CommandTags::new(opening, closing),
            end_command: "end".to_string(),
            base_dir: String::new(),
        },
        content: content.to_string(),
    }
}

#[test]
fn strings() {
    assert_eq!(wrapped_string(r#""hello"X"#), Ok(("X", "hello")));
    assert_eq!(wrapped_string(r##"#"hello"#X"##), Ok(("X", "hello")));
    assert_eq!(wrapped_string(r###"##"hello"##X"###), Ok(("X", "hello")));
    assert_eq!(maybe_wrapped_string(r#""hello"X"#), Ok(("X", "hello")));
    assert_eq!(
        maybe_wrapped_string(r#"abc/def\ghi.txt|"#),
        Ok(("|", "abc/def\\ghi.txt"))
    );
    assert_eq!(maybe_wrapped_string(r##"#"hello"#X"##), Ok(("X", "hello")));
    assert_eq!(
        maybe_wrapped_string(r##"#"using " is ok"#X"##),
        Ok(("X", "using \" is ok"))
    );
}

#[test]
fn quoted_token_edges() {
    // an empty quoted token
    assert_eq!(wrapped_string(r#""""#), Ok(("", "")));
    // more hashes after the closing delimiter stay in the rest
    assert_eq!(wrapped_string(r###"#"a"##X"###), Ok(("#X", "a")));
    // a quote followed by too few hashes does not close
    assert_eq!(wrapped_string(r###"##"a"#b"##"###), Ok(("", "a\"#b")));
    // no closing delimiter before the end
    assert_eq!(wrapped_string(r#""hello"#), Err(Unmatched));
    assert_eq!(wrapped_string(r##"#"hello""##), Err(Unmatched));
    // hashes without a quote, and input that is no quoted token at all
    assert_eq!(wrapped_string("##x"), Err(Unmatched));
    assert_eq!(wrapped_string("abc"), Err(Unmatched));
    assert_eq!(wrapped_string(""), Err(Unmatched));
    // content is taken as it stands, whatever its characters
    assert_eq!(wrapped_string("\"h\u{e9}llo \u{4e16}\"X"), Ok(("X", "h\u{e9}llo \u{4e16}")));
}

#[test]
fn bare_token_edges() {
    assert_eq!(maybe_wrapped_string(""), Ok(("", "")));
    assert_eq!(maybe_wrapped_string("|x"), Ok(("|x", "")));
    assert_eq!(maybe_wrapped_string("a-b_c.d/e\\f G"), Ok((" G", "a-b_c.d/e\\f")));
    assert_eq!(maybe_wrapped_string("ab\u{e9}cd"), Ok(("\u{e9}cd", "ab")));
    // the first character decides: a quote that never closes is no token
    assert_eq!(maybe_wrapped_string("\"abc"), Err(Unmatched));
    assert_eq!(maybe_wrapped_string("#abc"), Err(Unmatched));
}

#[test]
fn test_command_args() {
    assert_eq!(
        command_args(r#"one two "three 3" |"#),
        Ok(("|", vec!["one", "two", "three 3"]))
    );
    assert_eq!(command_args(r#" one |"#), Ok(("|", vec!["one"])));
    assert_eq!(command_args(r#" " one " |"#), Ok(("|", vec![" one "])));
    assert_eq!(
        command_args(r#" one "two  three"   | "#),
        Ok(("| ", vec!["one", "two  three"]))
    );
}

#[test]
fn command_args_edges() {
    // the first argument has to take up at least one byte
    assert_eq!(command_args("|"), Err(Unmatched));
    assert_eq!(command_args("   "), Err(Unmatched));
    assert_eq!(command_args(""), Err(Unmatched));
    // an empty last argument is dropped, also a quoted one
    assert_eq!(command_args(r#"a """#), Ok(("", vec!["a"])));
    assert_eq!(command_args(r#""""#), Ok(("", vec![])));
    // only one is dropped
    assert_eq!(command_args(r#"a "" """#), Ok(("", vec!["a", ""])));
    // blanks before a token that cannot be read stay in the rest
    assert_eq!(command_args("a  #b"), Ok(("  #b", vec!["a"])));
    // tabs are blanks, newlines are not
    assert_eq!(command_args("a\tb\nc"), Ok(("\nc", vec!["a", "b"])));
}

#[test]
fn test_command() {
    assert_eq!(
        command("cmd"),
        Ok((
            "",
            Command {
                command: "cmd",
                args: vec![]
            }
        ))
    );
    assert_eq!(
        command(r#"cmd: a b "c d""#),
        Ok((
            "",
            Command {
                command: "cmd",
                args: vec!["a", "b", "c d"]
            }
        ))
    );
}

#[test]
fn command_edges() {
    // blanks around the colon are passed over
    assert_eq!(
        command("cmd  :   a|"),
        Ok(("|", Command { command: "cmd", args: vec!["a"] }))
    );
    // a colon that no argument follows is left in the rest
    assert_eq!(
        command("cmd: |"),
        Ok((": |", Command { command: "cmd", args: vec![] }))
    );
    // an empty name
    assert_eq!(command("|x"), Ok(("|x", Command { command: "", args: vec![] })));
    assert_eq!(command("\"abc"), Err(Unmatched));
}

#[test]
fn test_command_block() {
    let tags = CommandTags::new("{{", "}}");

    assert_eq!(
        command_block(&tags, "{{ cmd1: a1 | cmd2: a2 a2.1 }} X"),
        Ok((
            " X",
            CommandSec {
                start_remaining: 32,
                end_remaining: 2,
                commands: vec![
                    Command {
                        command: "cmd1",
                        args: vec!["a1"]
                    },
                    Command {
                        command: "cmd2",
                        args: vec!["a2", "a2.1"]
                    },
                ]
            }
        ))
    );
    let tags = CommandTags::new("<!--{{", "}}-->");
    assert_eq!(
        command_block(&tags, "<!--{{ cmd1: a1 | cmd2: a2 a2.1 }}--> X"),
        Ok((
            " X",
            CommandSec {
                start_remaining: 39,
                end_remaining: 2,
                commands: vec![
                    Command {
                        command: "cmd1",
                        args: vec!["a1"]
                    },
                    Command {
                        command: "cmd2",
                        args: vec!["a2", "a2.1"]
                    },
                ]
            }
        ))
    );
}

#[test]
fn test_command_block_with_pipe_ends() {
    let tags = CommandTags::new("(|", "|)");
    assert_eq!(
        command_block(&tags, "(| cmd1: a1 | cmd2: a2 a2.1 |) X"),
        Ok((
            " X",
            CommandSec {
                start_remaining: 32,
                end_remaining: 2,
                commands: vec![
                    Command {
                        command: "cmd1",
                        args: vec!["a1"]
                    },
                    Command {
                        command: "cmd2",
                        args: vec!["a2", "a2.1"]
                    },
                ]
            }
        ))
    );
    let tags = CommandTags::new("(|", "|)");
    assert_eq!(
        command_block(&tags, r#"(|cmd1: a1|cmd2: a2 "a2 |) 3 4"|) X"#),
        Ok((
            " X",
            CommandSec {
                start_remaining: 35,
                end_remaining: 2,
                commands: vec![
                    Command {
                        command: "cmd1",
                        args: vec!["a1"]
                    },
                    Command {
                        command: "cmd2",
                        args: vec!["a2", "a2 |) 3 4"]
                    },
                ]
            }
        ))
    );
}

#[test]
fn command_block_edges() {
    let tags = CommandTags::new("{{", "}}");
    // the block has to start the input
    assert_eq!(command_block(&tags, " {{a}}"), Err(Unmatched));
    // no closing tag
    assert_eq!(command_block(&tags, "{{a"), Err(Unmatched));
    assert_eq!(command_block(&tags, "{{a | b"), Err(Unmatched));
    // something that is neither a pipe nor the closing tag
    assert_eq!(command_block(&tags, "{{a ; b}}"), Err(Unmatched));
    // a block with an empty command
    assert_eq!(
        command_block(&tags, "{{}}"),
        Ok((
            "",
            CommandSec {
                start_remaining: 4,
                end_remaining: 0,
                commands: vec![Command { command: "", args: vec![] }]
            }
        ))
    );
    // tags with characters of several bytes
    let tags = CommandTags::new("\u{ab}", "\u{bb}");
    assert_eq!(
        command_block(&tags, "\u{ab} f.txt | \"\u{e9}\" \u{bb}\u{e9}"),
        Ok((
            "\u{e9}",
            CommandSec {
                start_remaining: 20,
                end_remaining: 2,
                commands: vec![
                    Command { command: "f.txt", args: vec![] },
                    Command { command: "\u{e9}", args: vec![] },
                ]
            }
        ))
    );
}

#[test]
fn test_next_command_block() {
    let tags = CommandTags::new("(|", "|)");
    assert_eq!(
        next_command_block(&tags, r#"A(|cmd|)Z"#),
        Ok((
            "Z",
            CommandSec {
                start_remaining: 8,
                end_remaining: 1,
                commands: vec![Command {
                    command: "cmd",
                    args: vec![]
                },]
            }
        ))
    );
    assert_eq!(
        next_command_block(&tags, r#"A(|B(|cmd|)Z"#),
        Ok((
            "Z",
            CommandSec {
                start_remaining: 8,
                end_remaining: 1,
                commands: vec![Command {
                    command: "cmd",
                    args: vec![]
                },]
            }
        ))
    );
    let res = next_command_block(&tags, r#"A(|nothing"#);
    assert!(res.is_err());
}

#[test]
fn next_command_block_after_wide_characters() {
    let tags = CommandTags::new("(|", "|)");
    assert_eq!(
        next_command_block(&tags, "\u{e9}\u{4e16}(|x(|cmd|)\u{e9}"),
        Ok((
            "\u{e9}",
            CommandSec {
                start_remaining: 9,
                end_remaining: 2,
                commands: vec![Command { command: "cmd", args: vec![] }]
            }
        ))
    );
    assert!(next_command_block(&tags, "no tag at all").is_err());
}

#[test]
fn test_command_blocks() {
    let parser = parser("(|", "|)", r#"A(|cmd|)X(|(|end|)Z"#);
    let blocks = parser.command_blocks();
    assert_eq!(
        blocks,
        Ok((
            "Z",
            vec![
                CommandSec {
                    start_remaining: 18,
                    end_remaining: 11,
                    commands: vec![Command {
                        command: "cmd",
                        args: vec![]
                    },]
                },
                CommandSec {
                    start_remaining: 8,
                    end_remaining: 1,
                    commands: vec![Command {
                        command: "end",
                        args: vec![]
                    },]
                }
            ]
        ))
    );
}

#[test]
fn command_blocks_of_plain_text() {
    let parser = parser("(|", "|)", "no blocks here");
    assert_eq!(parser.command_blocks(), Ok(("no blocks here", vec![])));
    let parser = parser_with("");
    assert_eq!(parser.command_blocks(), Ok(("", vec![])));
}

fn parser_with(content: &str) -> Parser {
    parser("(|", "|)", content)
}

#[test]
fn command_blocks_with_a_dangling_tag() {
    assert_eq!(
        parser_with("A(|nothing").command_blocks(),
        Err(ParseError::Scan { at: 1 })
    );
    assert_eq!(
        parser_with("(|a|)(|end|)X(|Z").command_blocks(),
        Err(ParseError::Scan { at: 13 })
    );
}

#[test]
fn test_command_groups() {
    let parser = parser("(|", "|)", r#"A(|cmd|)X(|(|end|)Z"#);
    let groups = parser.command_groups().unwrap();
    assert_eq!(
        groups,
        vec![(
            CommandSec {
                start_remaining: 18,
                end_remaining: 11,
                commands: vec![Command {
                    command: "cmd",
                    args: vec![]
                },]
            },
            CommandSec {
                start_remaining: 8,
                end_remaining: 1,
                commands: vec![Command {
                    command: "end",
                    args: vec![]
                },]
            }
        )]
    );
}

#[test]
fn command_groups_errors() {
    assert_eq!(
        parser_with("(|a|) (|b|) (|end|)").command_groups(),
        Err(ParseError::CountMismatch { commands: 2, ends: 1 })
    );
    assert_eq!(
        parser_with("(|end|)").command_groups(),
        Err(ParseError::CountMismatch { commands: 0, ends: 1 })
    );
    // the end-block stands before its begin-block
    assert_eq!(
        parser_with("(|end|) (|a|)").command_groups(),
        Err(ParseError::ExtraEnd { start: 8, end: 13 })
    );
    // nothing lies between the two blocks
    assert_eq!(
        parser_with("(|a|)(|end|)").command_groups(),
        Err(ParseError::ExtraEnd { start: 0, end: 5 })
    );
    // the first pair that is out of order is the one reported
    assert_eq!(
        parser_with("(|a|) (|end|) (|end|) (|b|) (|end|) (|c|)").command_groups(),
        Err(ParseError::ExtraEnd { start: 22, end: 27 })
    );
    assert_eq!(parser_with("plain").command_groups(), Ok(vec![]));
}

#[test]
fn block_offsets() {
    let doc = "A(|cmd|)X(|(|end|)Z";
    let p = parser_with(doc);
    let groups = p.command_groups().unwrap();
    let (begin, end) = &groups[0];
    assert_eq!(begin.start(doc), 1);
    assert_eq!(begin.end(doc), 8);
    assert_eq!(end.start(doc), 11);
    assert_eq!(end.end(doc), 18);
    assert_eq!(p.includes(), Ok(vec!["cmd"]));
}
