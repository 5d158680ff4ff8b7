//! The grammar on string slices: each function reads one unit at the start
//! of its input and returns the rest of the input with what it read.

use crate::command::{command_views, Command, CommandSec, CommandView};
use crate::grammar::{args, args_at, command_at, lemma_anchored_cut, lemma_args_at, lemma_command_at, lemma_pinned_cuts, CommandAt, CommandSpan};
use crate::scan::{
    block, block_at, block_cuts, command_cuts, find_block, lemma_block_cuts, lemma_next_block,
    next_block, BlockAt, BlockSpan, Found,
};
use crate::text::{byte_len, cut, lemma_cut_ends, substr, utf8, utf8_all};
use crate::token::{
    lemma_token_at, quoted_at, quoted_token, token, token_at, Token, TokenSpan,
};
use vstd::prelude::*;
use vstd::string::*;
use vstd::utf8::*;

verus! {

/// The input does not start with what was asked for.
#[derive(Debug, Clone, Copy, PartialEq, Eq)]
pub struct Unmatched;

/// The opening and the closing tag of a command block.
#[derive(Clone, Debug)]
pub struct CommandTags {
    pub opening: String,
    pub closing: String,
}

impl CommandTags {
    pub fn new(opening: &str, closing: &str) -> (r: Self)
        ensures
            r.opening@ == opening@,
            r.closing@ == closing@,
    {
        Self { opening: String::from_str(opening), closing: String::from_str(closing) }
    }
}

/// The bytes of `s` that the token covers.
pub open spec fn piece(s: Seq<u8>, t: Token) -> Seq<u8> {
    s.subrange(t.start, t.end)
}

/// What the command at these offsets of `s` says.
pub open spec fn command_text(s: Seq<u8>, c: CommandAt) -> CommandView {
    CommandView { name: piece(s, c.name), args: Seq::new(c.args.len(), |i: int| piece(s, c.args[i])) }
}

/// What the commands of the block at these offsets of `s` say.
pub open spec fn block_texts(s: Seq<u8>, b: BlockAt) -> Seq<CommandView> {
    Seq::new(b.commands.len(), |i: int| command_text(s, b.commands[i]))
}

/// `sec` is the block `b` of the document `s`.
pub open spec fn block_matches(s: Seq<u8>, sec: CommandSec<'_>, b: BlockAt) -> bool {
    &&& command_views(sec.commands@) == block_texts(s, b)
    &&& sec.start_remaining == s.len() - b.start
    &&& sec.end_remaining == s.len() - b.end
}

/// The rest of `s` from `from` on.
pub open spec fn rest_of(s: Seq<u8>, from: int) -> Seq<u8> {
    s.subrange(from, s.len() as int)
}

fn cut_args<'a>(doc: &'a str, spans: &Vec<TokenSpan>) -> (v: Vec<&'a str>)
    requires
        forall|k: int|
            0 <= k < spans.len() ==> (#[trigger] spans[k]).start <= spans[k].end <= utf8(
                doc@,
            ).len() && cut(utf8(doc@), spans[k].start as int) && cut(
                utf8(doc@),
                spans[k].end as int,
            ),
    ensures
        utf8_all(v@) == Seq::new(spans.len() as nat, |i: int| piece(utf8(doc@), spans[i]@)),
{
    let mut v: Vec<&'a str> = Vec::new();
    let mut k: usize = 0;
    while k < spans.len()
        invariant
            forall|k: int|
                0 <= k < spans.len() ==> (#[trigger] spans[k]).start <= spans[k].end <= utf8(
                    doc@,
                ).len() && cut(utf8(doc@), spans[k].start as int) && cut(
                    utf8(doc@),
                    spans[k].end as int,
                ),
            k <= spans.len(),
            v.len() == k,
            forall|i: int| 0 <= i < k ==> utf8(#[trigger] v[i]@) == piece(utf8(doc@), spans[i]@),
        decreases spans.len() - k,
    {
        let t = spans[k];
        v.push(substr(doc, t.start, t.end));
        k += 1;
    }
    proof {
        assert(utf8_all(v@) =~= Seq::new(spans.len() as nat, |i: int| piece(utf8(doc@), spans[i]@)));
    }
    v
}

/// Cuts the name and the arguments of a command out of the document.
pub fn to_command<'a>(doc: &'a str, c: &CommandSpan) -> (r: Command<'a>)
    requires
        command_cuts(utf8(doc@), c@),
    ensures
        r@ == command_text(utf8(doc@), c@),
{
    proof {
        assert forall|k: int| 0 <= k < c.args.len() implies (#[trigger] c.args[k]).start
            <= c.args[k].end <= utf8(doc@).len() && cut(utf8(doc@), c.args[k].start as int) && cut(
            utf8(doc@),
            c.args[k].end as int,
        ) by {
            assert(c@.args[k] == c.args[k]@);
        }
    }
    let name = substr(doc, c.name.start, c.name.end);
    let list = cut_args(doc, &c.args);
    let r = Command { command: name, args: list };
    proof {
        assert(r@.args =~= command_text(utf8(doc@), c@).args);
    }
    r
}

/// Cuts the commands of a block out of the document.
pub fn to_sec<'a>(doc: &'a str, b: &BlockSpan) -> (r: CommandSec<'a>)
    requires
        block_cuts(utf8(doc@), b@),
    ensures
        block_matches(utf8(doc@), r, b@),
{
    let mut v: Vec<Command<'a>> = Vec::new();
    let mut k: usize = 0;
    while k < b.commands.len()
        invariant
            block_cuts(utf8(doc@), b@),
            k <= b.commands.len(),
            v.len() == k,
            forall|i: int|
                0 <= i < k ==> (#[trigger] v[i])@ == command_text(utf8(doc@), b.commands[i]@),
        decreases b.commands.len() - k,
    {
        proof {
            assert(b@.commands[k as int] == b.commands[k as int]@);
        }
        let c = to_command(doc, &b.commands[k]);
        v.push(c);
        k += 1;
    }
    let n = byte_len(doc);
    let r = CommandSec { commands: v, start_remaining: n - b.start, end_remaining: n - b.end };
    proof {
        assert(command_views(r.commands@) =~= block_texts(utf8(doc@), b@));
    }
    r
}

/// Reads a quoted token: hashes, a quote, the content, a quote and as many
/// hashes again.
pub fn wrapped_string<'a>(input: &'a str) -> (r: Result<(&'a str, &'a str), Unmatched>)
    ensures
        match quoted_token(utf8(input@), 0) {
            Some(t) => r is Ok && utf8(r->Ok_0.0@) == rest_of(utf8(input@), t.next) && utf8(
                r->Ok_0.1@,
            ) == piece(utf8(input@), t),
            None => r is Err,
        },
{
    let s = input.as_bytes();
    match quoted_at(s, 0) {
        None => Err(Unmatched),
        Some(t) => {
            proof {
                encode_utf8_valid_utf8(input@);
                lemma_cut_ends(s@);
                lemma_token_at(s@, 0);
                lemma_anchored_cut(s@, 0, t.start as int);
                lemma_anchored_cut(s@, 0, t.end as int);
                lemma_anchored_cut(s@, 0, t.next as int);
            }
            Ok((substr(input, t.next, s.len()), substr(input, t.start, t.end)))
        },
    }
}

/// Reads a token: a quoted one where the input starts with a quote or a
/// hash, else a bare one.
pub fn maybe_wrapped_string<'a>(input: &'a str) -> (r: Result<(&'a str, &'a str), Unmatched>)
    ensures
        match token_at(utf8(input@), 0) {
            Some(t) => r is Ok && utf8(r->Ok_0.0@) == rest_of(utf8(input@), t.next) && utf8(
                r->Ok_0.1@,
            ) == piece(utf8(input@), t),
            None => r is Err,
        },
{
    let s = input.as_bytes();
    match token(s, 0) {
        None => Err(Unmatched),
        Some(t) => {
            proof {
                encode_utf8_valid_utf8(input@);
                lemma_cut_ends(s@);
                lemma_token_at(s@, 0);
                lemma_anchored_cut(s@, 0, t.start as int);
                lemma_anchored_cut(s@, 0, t.end as int);
                lemma_anchored_cut(s@, 0, t.next as int);
            }
            Ok((substr(input, t.next, s.len()), substr(input, t.start, t.end)))
        },
    }
}

/// Reads an argument list.
pub fn command_args<'a>(input: &'a str) -> (r: Result<(&'a str, Vec<&'a str>), Unmatched>)
    ensures
        match args_at(utf8(input@), 0) {
            Some((list, next)) => r is Ok && utf8(r->Ok_0.0@) == rest_of(utf8(input@), next)
                && utf8_all(r->Ok_0.1@) == Seq::new(
                list.len(),
                |i: int| piece(utf8(input@), list[i]),
            ),
            None => r is Err,
        },
{
    let s = input.as_bytes();
    match args(s, 0) {
        None => Err(Unmatched),
        Some((spans, next)) => {
            proof {
                encode_utf8_valid_utf8(input@);
                lemma_cut_ends(s@);
                lemma_args_at(s@, 0);
                lemma_anchored_cut(s@, 0, next as int);
                let list = args_at(s@, 0).unwrap().0;
                assert forall|k: int| 0 <= k < spans.len() implies (#[trigger] spans[k]).start
                    <= spans[k].end <= s@.len() && cut(s@, spans[k].start as int) && cut(
                    s@,
                    spans[k].end as int,
                ) by {
                    assert(list[k] == spans[k]@);
                    lemma_anchored_cut(s@, 0, list[k].start);
                    lemma_anchored_cut(s@, 0, list[k].end);
                }
            }
            let list = cut_args(input, &spans);
            proof {
                let want = args_at(s@, 0).unwrap().0;
                assert(utf8_all(list@) =~= Seq::new(want.len(), |i: int| piece(s@, want[i])));
            }
            Ok((substr(input, next, s.len()), list))
        },
    }
}

proof fn lemma_command_cuts(s: Seq<u8>, p: int)
    requires
        valid_utf8(s),
        cut(s, p),
        command_at(s, p) is Some,
    ensures
        command_cuts(s, command_at(s, p)->0),
        cut(s, command_at(s, p)->0.next),
{
    let c = command_at(s, p)->0;
    lemma_command_at(s, p);
    lemma_anchored_cut(s, p, c.name.start);
    lemma_anchored_cut(s, p, c.name.end);
    lemma_anchored_cut(s, p, c.next);
    assert forall|k: int| 0 <= k < c.args.len() implies cut(s, (#[trigger] c.args[k]).start) && cut(
        s,
        c.args[k].end,
    ) by {
        lemma_pinned_cuts(s, c.args[k]);
    }
}

/// Reads a command: a name, and after a colon its arguments.
pub fn command<'a>(input: &'a str) -> (r: Result<(&'a str, Command<'a>), Unmatched>)
    ensures
        match command_at(utf8(input@), 0) {
            Some(c) => r is Ok && utf8(r->Ok_0.0@) == rest_of(utf8(input@), c.next) && r->Ok_0.1@
                == command_text(utf8(input@), c),
            None => r is Err,
        },
{
    let s = input.as_bytes();
    match crate::grammar::command(s, 0) {
        None => Err(Unmatched),
        Some(c) => {
            proof {
                encode_utf8_valid_utf8(input@);
                lemma_cut_ends(s@);
                lemma_command_cuts(s@, 0);
            }
            let value = to_command(input, &c);
            Ok((substr(input, c.next, s.len()), value))
        },
    }
}

/// Reads the command block that the input starts with.
pub fn command_block<'a>(tags: &CommandTags, input: &'a str) -> (r: Result<
    (&'a str, CommandSec<'a>),
    Unmatched,
>)
    ensures
        match block_at(utf8(input@), 0, utf8(tags.opening@), utf8(tags.closing@)) {
            Some(b) => r is Ok && utf8(r->Ok_0.0@) == rest_of(utf8(input@), b.end)
                && block_matches(utf8(input@), r->Ok_0.1, b),
            None => r is Err,
        },
{
    let s = input.as_bytes();
    match block(s, 0, tags.opening.as_str().as_bytes(), tags.closing.as_str().as_bytes()) {
        None => Err(Unmatched),
        Some(b) => {
            proof {
                encode_utf8_valid_utf8(input@);
                encode_utf8_valid_utf8(tags.opening@);
                encode_utf8_valid_utf8(tags.closing@);
                lemma_cut_ends(s@);
                lemma_block_cuts(s@, 0, utf8(tags.opening@), utf8(tags.closing@));
            }
            let sec = to_sec(input, &b);
            Ok((substr(input, b.end, s.len()), sec))
        },
    }
}

/// Reads the first command block of the input, wherever it starts. An
/// opening tag that no block completes is passed over.
pub fn next_command_block<'a>(tags: &CommandTags, input: &'a str) -> (r: Result<
    (&'a str, CommandSec<'a>),
    Unmatched,
>)
    requires
        tags.opening@.len() > 0,
    ensures
        match next_block(utf8(input@), 0, utf8(tags.opening@), utf8(tags.closing@)) {
            Some(b) => r is Ok && utf8(r->Ok_0.0@) == rest_of(utf8(input@), b.end)
                && block_matches(utf8(input@), r->Ok_0.1, b),
            None => r is Err,
        },
{
    let s = input.as_bytes();
    proof {
        lemma_nonempty(tags.opening@);
    }
    match find_block(s, 0, tags.opening.as_str().as_bytes(), tags.closing.as_str().as_bytes()) {
        Found::Block(b) => {
            proof {
                encode_utf8_valid_utf8(input@);
                encode_utf8_valid_utf8(tags.opening@);
                encode_utf8_valid_utf8(tags.closing@);
                lemma_next_block(s@, 0, utf8(tags.opening@), utf8(tags.closing@));
                lemma_block_cuts(s@, b.start as int, utf8(tags.opening@), utf8(tags.closing@));
            }
            let sec = to_sec(input, &b);
            Ok((substr(input, b.end, s.len()), sec))
        },
        Found::Dangling(_) => Err(Unmatched),
        Found::Nothing => Err(Unmatched),
    }
}

/// A text that is not empty has bytes.
pub proof fn lemma_nonempty(t: Seq<char>)
    requires
        t.len() > 0,
    ensures
        utf8(t).len() > 0,
{
    encode_utf8_first_scalar(t);
}

} // verus!
