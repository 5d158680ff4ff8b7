//! The transforms: named functions from text to text that a command block
//! applies, one after the other, to the file it includes.

use crate::command::{Command, CommandView};
use crate::pieces::{
    escaped, escaped_bytes, index_of, joined, line_span_ok, line_spans, lines_from, lines_of,
    newline, parse_index, push_text, spans_view, NEWLINE,
};
use crate::text::{same_text, substr, utf8, utf8_all};
use crate::token::TokenSpan;
use vstd::prelude::*;
use vstd::string::*;
use vstd::utf8::*;

verus! {

/// Why a transform failed.
#[derive(Debug, Clone, PartialEq, Eq)]
pub enum TransformError {
    /// `lines`: the first argument is no index.
    InvalidFrom,
    /// `lines`: the second argument is no index.
    InvalidTo,
    /// `line`: an argument is no index.
    InvalidLine,
    /// `line`: the text has no line with that index.
    MissingLine,
    /// `before` without an argument.
    MissingBefore,
    /// `after` without an argument.
    MissingAfter,
    /// `wrap` without an argument.
    MissingWrap,
    /// `match` without a pattern.
    MissingPattern,
    /// `match`: the pattern is no regular expression.
    InvalidPattern,
    /// `match`: the second argument is no index.
    InvalidGroup,
    /// `match`: the pattern matches nowhere in the text.
    NoMatch,
    /// `match`: the match has no text for the group asked for; it has this
    /// many groups.
    FewGroups { groups: usize },
}

/// The fence of a code block.
pub open spec fn fence() -> Seq<u8> {
    utf8("```"@)
}

/// `code`: the text inside a fenced code block, with the first argument, if
/// there is one, as the language.
pub open spec fn code_spec(input: Seq<u8>, args: Seq<Seq<u8>>) -> Seq<u8> {
    let language = if args.len() > 0 {
        args[0]
    } else {
        Seq::empty()
    };
    fence() + language + seq![NEWLINE] + input + seq![NEWLINE] + fence()
}

/// The lines of `input` with the indices `from` up to, not including, `to`,
/// a newline between each two.
pub open spec fn line_range(input: Seq<u8>, from: usize, to: Option<usize>) -> Seq<u8> {
    let all = lines_of(input);
    let hi = match to {
        Some(t) => if t < all.len() {
            t as int
        } else {
            all.len() as int
        },
        None => all.len() as int,
    };
    if from < hi {
        joined(all.subrange(from as int, hi), seq![NEWLINE])
    } else {
        Seq::empty()
    }
}

/// `lines`: the lines from the first argument up to the second. Without a
/// first argument the range starts at the first line, without a second it
/// reaches to the last.
pub open spec fn lines_spec(input: Seq<u8>, args: Seq<Seq<u8>>) -> Result<Seq<u8>, TransformError> {
    let from = if args.len() > 0 {
        index_of(args[0])
    } else {
        Some(0usize)
    };
    let to = if args.len() > 1 {
        index_of(args[1])
    } else {
        None
    };
    if from is None {
        Err(TransformError::InvalidFrom)
    } else if args.len() > 1 && to is None {
        Err(TransformError::InvalidTo)
    } else {
        Ok(line_range(input, from->0, to))
    }
}

/// The lines of `input` that the first `k` arguments ask for, or the error
/// of the first argument that is no index or names no line.
pub open spec fn picked_lines(input: Seq<u8>, args: Seq<Seq<u8>>, k: int) -> Result<
    Seq<Seq<u8>>,
    TransformError,
>
    decreases k,
{
    if k <= 0 {
        Ok(Seq::empty())
    } else {
        match picked_lines(input, args, k - 1) {
            Err(e) => Err(e),
            Ok(before) => match index_of(args[k - 1]) {
                None => Err(TransformError::InvalidLine),
                Some(i) => if i < lines_of(input).len() {
                    Ok(before.push(lines_of(input)[i as int]))
                } else {
                    Err(TransformError::MissingLine)
                },
            },
        }
    }
}

/// `line`: the lines with the indices that the arguments give, in the
/// order of the arguments, a newline between each two.
pub open spec fn line_spec(input: Seq<u8>, args: Seq<Seq<u8>>) -> Result<Seq<u8>, TransformError> {
    match picked_lines(input, args, args.len() as int) {
        Ok(parts) => Ok(joined(parts, seq![NEWLINE])),
        Err(e) => Err(e),
    }
}

/// `wrap`: the first argument before the text and the second after it, both
/// with their escape sequences replaced. Without a second argument the
/// first stands on both sides.
pub open spec fn wrap_spec(input: Seq<u8>, args: Seq<Seq<u8>>) -> Result<Seq<u8>, TransformError> {
    if args.len() == 0 {
        Err(TransformError::MissingWrap)
    } else {
        let after = if args.len() > 1 {
            args[1]
        } else {
            args[0]
        };
        Ok(escaped_bytes(args[0]) + input + escaped_bytes(after))
    }
}

/// What the regular expression `pattern` captures in `text`: `None` where
/// `pattern` is no regular expression, `Some(None)` where it matches nowhere,
/// else for each group of the leftmost match, the whole match being group 0,
/// the text it captured, if it took part in the match.
pub uninterp spec fn regex_groups(pattern: Seq<char>, text: Seq<char>) -> Option<
    Option<Seq<Option<Seq<char>>>>,
>;

/// The plain value of what a search captured.
pub open spec fn groups_view(found: Option<Vec<Option<&str>>>) -> Option<Seq<Option<Seq<char>>>> {
    match found {
        None => None,
        Some(v) => Some(
            Seq::new(
                v@.len(),
                |i: int|
                    match v@[i] {
                        Some(t) => Some(t@),
                        None => None,
                    },
            ),
        ),
    }
}

/// The text of group `group` of what a search found.
pub open spec fn group_text(found: Option<Seq<Option<Seq<char>>>>, group: usize) -> Result<
    Seq<u8>,
    TransformError,
> {
    match found {
        None => Err(TransformError::NoMatch),
        Some(groups) => if group < groups.len() && groups[group as int] is Some {
            Ok(utf8(groups[group as int]->0))
        } else {
            Err(TransformError::FewGroups { groups: groups.len() as usize })
        },
    }
}

/// `match`: the text that a group of the first match of a regular
/// expression captured. The first argument is the pattern, the second the
/// group, which is the whole match where it is left out.
pub open spec fn match_spec(input: Seq<u8>, args: Seq<Seq<u8>>) -> Result<Seq<u8>, TransformError> {
    if args.len() == 0 {
        Err(TransformError::MissingPattern)
    } else {
        match regex_groups(decode_utf8(args[0]), decode_utf8(input)) {
            None => Err(TransformError::InvalidPattern),
            Some(found) => {
                let group = if args.len() > 1 {
                    index_of(args[1])
                } else {
                    Some(0usize)
                };
                match group {
                    None => Err(TransformError::InvalidGroup),
                    Some(g) => group_text(found, g),
                }
            },
        }
    }
}

/// What the command makes of `input`. A command with a name that is none
/// of the seven leaves the text as it is.
pub open spec fn transform_spec(input: Seq<u8>, command: CommandView) -> Result<
    Seq<u8>,
    TransformError,
> {
    let args = command.args;
    if command.name == utf8("code"@) {
        Ok(code_spec(input, args))
    } else if command.name == utf8("lines"@) {
        lines_spec(input, args)
    } else if command.name == utf8("line"@) {
        line_spec(input, args)
    } else if command.name == utf8("before"@) {
        if args.len() == 0 {
            Err(TransformError::MissingBefore)
        } else {
            Ok(escaped_bytes(args[0]) + input)
        }
    } else if command.name == utf8("after"@) {
        if args.len() == 0 {
            Err(TransformError::MissingAfter)
        } else {
            Ok(input + escaped_bytes(args[0]))
        }
    } else if command.name == utf8("wrap"@) {
        wrap_spec(input, args)
    } else if command.name == utf8("match"@) {
        match_spec(input, args)
    } else {
        Ok(input)
    }
}

/// What a transform returned, as bytes.
pub open spec fn outcome(r: Result<String, TransformError>) -> Result<Seq<u8>, TransformError> {
    match r {
        Ok(t) => Ok(utf8(t@)),
        Err(e) => Err(e),
    }
}

#[verifier::external_type_specification]
#[verifier::external_body]
pub struct ExRegexError(regex::Error);

/// Compiles `pattern` with `regex::Regex::new` and searches `text` with
/// `Regex::captures`. The contract claims that what comes back is a function
/// of the two texts alone, named `regex_groups`: the error of `Regex::new`
/// where the pattern does not compile, `None` where `captures` finds no
/// match, else `Match::as_str` of each of the `Captures::len` groups that
/// `Captures::get` has a match for.
#[verifier::external_body]
fn capture<'t>(pattern: &str, text: &'t str) -> (r: Result<
    Option<Vec<Option<&'t str>>>,
    regex::Error,
>)
    ensures
        match r {
            Ok(found) => regex_groups(pattern@, text@) == Some(groups_view(found)),
            Err(_) => regex_groups(pattern@, text@) is None,
        },
{
    let re = regex::Regex::new(pattern)?;
    let caps = match re.captures(text) {
        None => return Ok(None),
        Some(c) => c,
    };
    let mut groups = Vec::new();
    for i in 0..caps.len() {
        let group = match caps.get(i) { Some(m) => Some(m.as_str()), None => None };
        groups.push(group);
    }
    Ok(Some(groups))
}

/// Picks the text of group `group` out of what a search found.
pub fn select_group(found: &Option<Vec<Option<&str>>>, group: usize) -> (r: Result<
    String,
    TransformError,
>)
    ensures
        outcome(r) == group_text(groups_view(*found), group),
{
    match found {
        None => Err(TransformError::NoMatch),
        Some(groups) => {
            if group < groups.len() {
                match groups[group] {
                    Some(t) => {
                        return Ok(String::from_str(t));
                    },
                    None => {},
                }
            }
            Err(TransformError::FewGroups { groups: groups.len() })
        },
    }
}

fn code(input: &str, args: &Vec<&str>) -> (out: String)
    ensures
        utf8(out@) == code_spec(utf8(input@), utf8_all(args@)),
{
    let mut out = String::from_str("```");
    let ghost start = utf8(out@);
    if args.len() > 0 {
        push_text(&mut out, args[0]);
    }
    proof {
        if args.len() == 0 {
            assert(start + Seq::<u8>::empty() =~= start);
        }
    }
    push_text(&mut out, newline());
    push_text(&mut out, input);
    push_text(&mut out, newline());
    push_text(&mut out, "```");
    out
}

fn join_lines(input: &str, spans: &Vec<TokenSpan>, from: usize, hi: usize) -> (out: String)
    requires
        spans_view(spans@) == lines_from(utf8(input@), 0),
        forall|k: int| 0 <= k < spans.len() ==> line_span_ok(utf8(input@), #[trigger] spans[k]),
        from <= hi <= spans.len(),
    ensures
        utf8(out@) == joined(
            lines_of(utf8(input@)).subrange(from as int, hi as int),
            seq![NEWLINE],
        ),
{
    let mut out = String::new();
    let mut k: usize = from;
    let ghost all = lines_of(utf8(input@));
    proof {
        assert(utf8(out@) =~= Seq::<u8>::empty());
        assert(all.subrange(from as int, from as int) =~= Seq::<Seq<u8>>::empty());
    }
    while k < hi
        invariant
            spans_view(spans@) == lines_from(utf8(input@), 0),
            forall|k: int|
                0 <= k < spans.len() ==> line_span_ok(utf8(input@), #[trigger] spans[k]),
            from <= k <= hi <= spans.len(),
            all == lines_of(utf8(input@)),
            utf8(out@) == joined(all.subrange(from as int, k as int), seq![NEWLINE]),
        decreases hi - k,
    {
        if k > from {
            push_text(&mut out, newline());
        }
        let span = spans[k];
        proof {
            assert(spans_view(spans@)[k as int] == span@);
            let upto = all.subrange(from as int, k as int + 1);
            assert(upto.drop_last() =~= all.subrange(from as int, k as int));
            assert(upto.last() == all[k as int]);
        }
        push_text(&mut out, substr(input, span.start, span.end));
        k += 1;
    }
    out
}

fn lines(input: &str, args: &Vec<&str>) -> (r: Result<String, TransformError>)
    ensures
        outcome(r) == lines_spec(utf8(input@), utf8_all(args@)),
{
    let from = if args.len() > 0 {
        match parse_index(args[0]) {
            None => {
                return Err(TransformError::InvalidFrom);
            },
            Some(i) => i,
        }
    } else {
        0
    };
    let to = if args.len() > 1 {
        match parse_index(args[1]) {
            None => {
                return Err(TransformError::InvalidTo);
            },
            Some(i) => Some(i),
        }
    } else {
        None
    };
    let spans = line_spans(input);
    let n = spans.len();
    let hi = match to {
        Some(t) => if t < n {
            t
        } else {
            n
        },
        None => n,
    };
    if from < hi {
        Ok(join_lines(input, &spans, from, hi))
    } else {
        Ok(String::new())
    }
}

fn line(input: &str, args: &Vec<&str>) -> (r: Result<String, TransformError>)
    ensures
        outcome(r) == line_spec(utf8(input@), utf8_all(args@)),
{
    let spans = line_spans(input);
    let mut out = String::new();
    let mut k: usize = 0;
    let ghost parts = Seq::<Seq<u8>>::empty();
    let ghost all = lines_of(utf8(input@));
    proof {
        assert(utf8(out@) =~= Seq::<u8>::empty());
    }
    while k < args.len()
        invariant
            spans_view(spans@) == lines_from(utf8(input@), 0),
            forall|k: int|
                0 <= k < spans.len() ==> line_span_ok(utf8(input@), #[trigger] spans[k]),
            k <= args.len(),
            all == lines_of(utf8(input@)),
            picked_lines(utf8(input@), utf8_all(args@), k as int) == Ok::<
                Seq<Seq<u8>>,
                TransformError,
            >(parts),
            parts.len() == k,
            utf8(out@) == joined(parts, seq![NEWLINE]),
        decreases args.len() - k,
    {
        proof {
            lemma_picked_error_stays(utf8(input@), utf8_all(args@), k as int + 1, args.len() as int);
        }
        let index = match parse_index(args[k]) {
            None => {
                return Err(TransformError::InvalidLine);
            },
            Some(i) => i,
        };
        if index >= spans.len() {
            return Err(TransformError::MissingLine);
        }
        if k > 0 {
            push_text(&mut out, newline());
        }
        let span = spans[index];
        proof {
            assert(spans_view(spans@)[index as int] == span@);
            assert(parts.push(all[index as int]).drop_last() =~= parts);
            parts = parts.push(all[index as int]);
        }
        push_text(&mut out, substr(input, span.start, span.end));
        k += 1;
    }
    Ok(out)
}

proof fn lemma_picked_error_stays(input: Seq<u8>, args: Seq<Seq<u8>>, k: int, n: int)
    requires
        0 <= k <= n,
    ensures
        picked_lines(input, args, k) is Err ==> picked_lines(input, args, n) == picked_lines(
            input,
            args,
            k,
        ),
    decreases n - k,
{
    if k < n {
        lemma_picked_error_stays(input, args, k, n - 1);
    }
}

fn wrap(input: &str, args: &Vec<&str>) -> (r: Result<String, TransformError>)
    ensures
        outcome(r) == wrap_spec(utf8(input@), utf8_all(args@)),
{
    if args.len() == 0 {
        return Err(TransformError::MissingWrap);
    }
    let after = if args.len() > 1 {
        args[1]
    } else {
        args[0]
    };
    let mut out = escaped(args[0]);
    push_text(&mut out, input);
    let tail = escaped(after);
    push_text(&mut out, tail.as_str());
    Ok(out)
}

fn matched(input: &str, args: &Vec<&str>) -> (r: Result<String, TransformError>)
    ensures
        outcome(r) == match_spec(utf8(input@), utf8_all(args@)),
{
    if args.len() == 0 {
        return Err(TransformError::MissingPattern);
    }
    proof {
        encode_utf8_decode_utf8(args[0]@);
        encode_utf8_decode_utf8(input@);
    }
    let found = match capture(args[0], input) {
        Err(_) => {
            return Err(TransformError::InvalidPattern);
        },
        Ok(f) => f,
    };
    let group = if args.len() > 1 {
        match parse_index(args[1]) {
            None => {
                return Err(TransformError::InvalidGroup);
            },
            Some(g) => g,
        }
    } else {
        0
    };
    select_group(&found, group)
}

/// Applies one command to `input`.
pub fn transform(input: &str, command: &Command) -> (r: Result<String, TransformError>)
    ensures
        outcome(r) == transform_spec(utf8(input@), command@),
{
    let name = command.command;
    let args = &command.args;
    if same_text(name, "code") {
        Ok(code(input, args))
    } else if same_text(name, "lines") {
        lines(input, args)
    } else if same_text(name, "line") {
        line(input, args)
    } else if same_text(name, "before") {
        if args.len() == 0 {
            return Err(TransformError::MissingBefore);
        }
        let mut out = escaped(args[0]);
        push_text(&mut out, input);
        Ok(out)
    } else if same_text(name, "after") {
        if args.len() == 0 {
            return Err(TransformError::MissingAfter);
        }
        let mut out = String::from_str(input);
        let tail = escaped(args[0]);
        push_text(&mut out, tail.as_str());
        Ok(out)
    } else if same_text(name, "wrap") {
        wrap(input, args)
    } else if same_text(name, "match") {
        matched(input, args)
    } else {
        Ok(String::from_str(input))
    }
}

} // verus!
