//! The grammar stated with parser combinators, as a reference that the
//! scanner is held against on every short input over the characters that
//! matter to it.

use md_inc::command::{Command, CommandSec};
use md_inc::parse::{ParseError, Parser, ParserConfig};
use md_inc::pieces::escaped;
use md_inc::syntax::{
    command, command_args, command_block, maybe_wrapped_string, next_command_block,
    wrapped_string, CommandTags, Unmatched,
};
use nom::branch::alt;
use nom::bytes::complete::{escaped_transform, tag, take, take_until, take_while};
use nom::character::complete::{char, none_of, space0, space1};
use nom::multi::{count, fold_many0, many_till, separated_nonempty_list};
use nom::sequence::{delimited, pair, separated_pair, tuple};
use nom::IResult;

const OPEN: &str = "(|";
const CLOSE: &str = "|)";

type Unit<'a> = (&'a str, Vec<&'a str>);

fn quoted(input: &str) -> IResult<&str, &str> {
    let (i, hashes) = fold_many0(tag("#"), 0usize, |n, _| n + 1)(input)?;
    let (i, _) = tag("\"")(i)?;
    let end = pair(tag("\""), count(tag("#"), hashes));
    let (i, (inner, _)) = many_till(take(1u32), end)(i)?;
    let from = hashes + 1;
    let len: usize = inner.iter().map(|c: &&str| c.len()).sum();
    Ok((i, &input[from..from + len]))
}

fn bare(i: &str) -> IResult<&str, &str> {
    take_while(|c: char| c.is_ascii_alphanumeric() || "/\\-_.".contains(c))(i)
}

fn token(i: &str) -> IResult<&str, &str> {
    if i.starts_with('"') || i.starts_with('#') {
        quoted(i)
    } else {
        bare(i)
    }
}

fn arguments(i: &str) -> IResult<&str, Vec<&str>> {
    let (i, _) = space0(i)?;
    let (i, mut list) = separated_nonempty_list(space1, token)(i)?;
    if list.last().map_or(false, |x| x.is_empty()) {
        list.pop();
    }
    Ok((i, list))
}

fn unit(i: &str) -> IResult<&str, Unit> {
    alt((
        separated_pair(token, tuple((space0, tag(":"), space0)), arguments),
        nom::combinator::map(token, |name| (name, vec![])),
    ))(i)
}

fn block(input: &str) -> IResult<&str, (Vec<Unit>, usize, usize)> {
    let start = input.len();
    let (i, _) = tag(OPEN)(input)?;
    let (i, first) = delimited(space0, unit, space0)(i)?;
    let (rest, (mut more, _)) = many_till(
        delimited(delimited(space0, char('|'), space0), unit, space0),
        tag(CLOSE),
    )(i)?;
    let mut units = vec![first];
    units.append(&mut more);
    Ok((rest, (units, start, rest.len())))
}

fn next_block(input: &str) -> IResult<&str, (Vec<Unit>, usize, usize)> {
    let mut from = input;
    loop {
        let (i, _) = take_until(OPEN)(from)?;
        if let Ok(found) = block(i) {
            return Ok(found);
        }
        from = &from[1..];
    }
}

fn unescaped(input: &str) -> String {
    let parsed: IResult<&str, String> = escaped_transform(none_of("\\"), '\\', |i: &str| {
        alt((
            nom::combinator::map(tag("\\"), |_| "\\"),
            nom::combinator::map(tag("\""), |_| "\""),
            nom::combinator::map(tag("n"), |_| "\n"),
        ))(i)
    })(input);
    parsed.map(|(_, text)| text).unwrap_or_default()
}

/// Every text of at most `max` characters of `alphabet`.
fn texts(alphabet: &[char], max: usize) -> Vec<String> {
    let mut all = vec![String::new()];
    let mut last = vec![String::new()];
    for _ in 0..max {
        let mut next = Vec::with_capacity(last.len() * alphabet.len());
        for text in &last {
            for c in alphabet {
                let mut longer = text.clone();
                longer.push(*c);
                next.push(longer);
            }
        }
        all.extend(next.iter().cloned());
        last = next;
    }
    all
}

fn sec<'a>(found: (Vec<Unit<'a>>, usize, usize)) -> CommandSec<'a> {
    let (units, start, end) = found;
    CommandSec {
        commands: units
            .into_iter()
            .map(|(name, args)| Command::new(name, args))
            .collect(),
        start_remaining: start,
        end_remaining: end,
    }
}

#[test]
fn tokens_agree() {
    for text in texts(&['a', '.', ' ', '"', '#', '|'], 6) {
        assert_eq!(
            wrapped_string(&text),
            quoted(&text).map_err(|_| Unmatched),
            "{:?}",
            text
        );
        assert_eq!(
            maybe_wrapped_string(&text),
            token(&text).map_err(|_| Unmatched),
            "{:?}",
            text
        );
    }
}

#[test]
fn arguments_agree() {
    for text in texts(&['a', ' ', '\t', '"', '#', '|'], 6) {
        assert_eq!(
            command_args(&text),
            arguments(&text).map_err(|_| Unmatched),
            "{:?}",
            text
        );
    }
}

#[test]
fn commands_agree() {
    for text in texts(&['a', ' ', ':', '"', '#', '|'], 6) {
        assert_eq!(
            command(&text),
            unit(&text)
                .map(|(rest, (name, args))| (rest, Command::new(name, args)))
                .map_err(|_| Unmatched),
            "{:?}",
            text
        );
    }
}

#[test]
fn blocks_agree() {
    let tags = CommandTags::new(OPEN, CLOSE);
    let inner = texts(&['a', ' ', ':', '"', '|', ')'], 5);
    for text in inner.iter().map(|t| format!("(|{}", t)).chain(texts(&['(', '|', ')', 'a'], 6)) {
        assert_eq!(
            command_block(&tags, &text),
            block(&text)
                .map(|(rest, found)| (rest, sec(found)))
                .map_err(|_| Unmatched),
            "{:?}",
            text
        );
    }
}

#[test]
fn next_blocks_agree() {
    let tags = CommandTags::new(OPEN, CLOSE);
    for text in texts(&['(', '|', ')', 'a', '"', ' '], 6) {
        assert_eq!(
            next_command_block(&tags, &text),
            next_block(&text)
                .map(|(rest, found)| (rest, sec(found)))
                .map_err(|_| Unmatched),
            "{:?}",
            text
        );
    }
}

#[test]
fn scans_agree() {
    for text in texts(&['(', '|', ')', 'a', ' '], 7) {
        let mut expected = Vec::new();
        let mut rest = text.as_str();
        while let Ok((after, (units, start, end))) = next_block(rest) {
            expected.push(sec((units, start, end)));
            rest = after;
        }
        let parser = Parser::new(
            ParserConfig {
                tags: CommandTags::new(OPEN, CLOSE),
                end_command: "end".to_string(),
                base_dir: String::new(),
            },
            text.clone(),
        );
        match parser.command_blocks() {
            Ok(found) => {
                assert_eq!(found, (rest, expected), "{:?}", text);
                assert_eq!(rest.find(OPEN), None, "{:?}", text);
            }
            Err(e) => {
                let at = rest.find(OPEN).map(|at| text.len() - rest.len() + at);
                assert_eq!(Some(e), at.map(|at| ParseError::Scan { at }), "{:?}", text);
            }
        }
    }
}

#[test]
fn escapes_agree() {
    for text in texts(&['a', '\\', '"', 'n', '\u{e9}'], 6) {
        assert_eq!(escaped(&text), unescaped(&text), "{:?}", text);
    }
}
