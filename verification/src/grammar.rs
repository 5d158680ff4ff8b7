//! The command grammar: argument lists and commands, read from bytes at an
//! offset.
//!
//! ```text
//! command := token (blank* ":" blank* args)?
//! args    := token (blank+ token)*
//! ```

use crate::text::{ascii_adjacent, cut, lemma_cut_ascii_adjacent};
use crate::token::{
    anchored, lemma_run_end, lemma_token_at, run, run_end, token, token_at, ByteClass, Token,
    TokenSpan, COLON,
};
use vstd::prelude::*;
use vstd::utf8::*;

verus! {

/// The tokens of a list of token spans.
pub open spec fn tokens_view(v: Seq<TokenSpan>) -> Seq<Token> {
    Seq::new(v.len(), |i: int| v[i]@)
}

/// The arguments that follow one that ended at `i`, each after at least one
/// blank, and the offset after the last of them.
pub open spec fn more_args(s: Seq<u8>, i: int) -> (Seq<Token>, int)
    decreases s.len() - i,
    via more_args_decreases
{
    let b = run_end(s, i, ByteClass::Blank);
    if 0 <= i < b <= s.len() {
        match token_at(s, b) {
            Some(t) => {
                let (rest, next) = more_args(s, t.next);
                (seq![t] + rest, next)
            },
            None => (Seq::empty(), i),
        }
    } else {
        (Seq::empty(), i)
    }
}

#[via_fn]
proof fn more_args_decreases(s: Seq<u8>, i: int) {
    let b = run_end(s, i, ByteClass::Blank);
    if 0 <= i < b <= s.len() {
        if token_at(s, b) is Some {
            lemma_token_at(s, b);
        }
    }
}

/// Without its last token, if that one is empty.
pub open spec fn drop_trailing_empty(a: Seq<Token>) -> Seq<Token> {
    if a.len() > 0 && a.last().start == a.last().end {
        a.drop_last()
    } else {
        a
    }
}

/// The argument list at `p`: blanks, a first token that takes up at least
/// one byte, then further tokens, each after blanks. An empty last argument
/// is dropped.
pub open spec fn args_at(s: Seq<u8>, p: int) -> Option<(Seq<Token>, int)> {
    let begin = run_end(s, p, ByteClass::Blank);
    match token_at(s, begin) {
        Some(t) => if t.next > begin {
            let (rest, next) = more_args(s, t.next);
            Some((drop_trailing_empty(seq![t] + rest), next))
        } else {
            None
        },
        None => None,
    }
}

/// Where a command lies: its name, its arguments, and the offset at which
/// the text goes on.
pub struct CommandAt {
    pub name: Token,
    pub args: Seq<Token>,
    pub next: int,
}

/// The command at `p`: a name, and an argument list if a colon and
/// arguments follow. Where the colon is missing, or nothing that follows it
/// reads as an argument list, the command is the name alone and the text
/// goes on right after it.
pub open spec fn command_at(s: Seq<u8>, p: int) -> Option<CommandAt> {
    match token_at(s, p) {
        None => None,
        Some(t) => {
            let c = run_end(s, t.next, ByteClass::Blank);
            let bare = CommandAt { name: t, args: Seq::empty(), next: t.next };
            if 0 <= c < s.len() && s[c] == COLON {
                match args_at(s, c + 1) {
                    Some((args, next)) => Some(CommandAt { name: t, args, next }),
                    None => Some(bare),
                }
            } else {
                Some(bare)
            }
        },
    }
}

/// The token is inside the text and both its ends are anchored at `p` or at
/// an ASCII byte.
pub open spec fn token_within(s: Seq<u8>, p: int, t: Token) -> bool {
    &&& 0 <= t.start <= t.end <= s.len()
    &&& anchored(s, p, t.start)
    &&& anchored(s, p, t.end)
}

/// The token is inside the text and both its ends touch an ASCII byte.
pub open spec fn token_pinned(s: Seq<u8>, t: Token) -> bool {
    &&& 0 <= t.start <= t.end <= s.len()
    &&& ascii_adjacent(s, t.start)
    &&& ascii_adjacent(s, t.end)
}

/// Further arguments lie inside the text and are pinned.
pub proof fn lemma_more_args(s: Seq<u8>, i: int)
    requires
        0 <= i <= s.len(),
    ensures
        i <= more_args(s, i).1 <= s.len(),
        anchored(s, i, more_args(s, i).1),
        forall|k: int|
            0 <= k < more_args(s, i).0.len() ==> token_pinned(s, #[trigger] more_args(s, i).0[k]),
    decreases s.len() - i,
{
    let b = run_end(s, i, ByteClass::Blank);
    lemma_run_end(s, i, ByteClass::Blank);
    if i < b {
        if token_at(s, b) is Some {
            let t = token_at(s, b)->0;
            lemma_token_at(s, b);
            lemma_more_args(s, t.next);
            assert(ByteClass::Blank.has(s[b - 1]));
            assert(ascii_adjacent(s, b));
            let (rest, next) = more_args(s, t.next);
            assert forall|k: int| 0 <= k < more_args(s, i).0.len() implies token_pinned(
                s,
                #[trigger] more_args(s, i).0[k],
            ) by {
                if k > 0 {
                    assert(more_args(s, i).0[k] == rest[k - 1]);
                }
            }
        }
    }
}

/// An argument list lies inside the text, and its tokens are anchored at
/// the offset it was read at.
pub proof fn lemma_args_at(s: Seq<u8>, p: int)
    requires
        0 <= p <= s.len(),
        args_at(s, p) is Some,
    ensures
        ({
            let (list, next) = args_at(s, p).unwrap();
            &&& p <= next <= s.len()
            &&& anchored(s, p, next)
            &&& forall|k: int| 0 <= k < list.len() ==> token_within(s, p, #[trigger] list[k])
        }),
{
    let begin = run_end(s, p, ByteClass::Blank);
    lemma_run_end(s, p, ByteClass::Blank);
    let t = token_at(s, begin)->0;
    lemma_token_at(s, begin);
    lemma_more_args(s, t.next);
    let (rest, next) = more_args(s, t.next);
    let all = seq![t] + rest;
    assert forall|k: int| 0 <= k < all.len() implies token_within(s, p, #[trigger] all[k]) by {
        if k > 0 {
            assert(all[k] == rest[k - 1]);
        }
    }
}

/// A command lies inside the text, and its name and arguments are anchored
/// at the offset it was read at.
pub proof fn lemma_command_at(s: Seq<u8>, p: int)
    requires
        0 <= p <= s.len(),
        command_at(s, p) is Some,
    ensures
        ({
            let c = command_at(s, p)->0;
            &&& p <= c.next <= s.len()
            &&& anchored(s, p, c.next)
            &&& token_within(s, p, c.name)
            &&& c.name.end <= c.next
            &&& forall|k: int| 0 <= k < c.args.len() ==> token_pinned(s, #[trigger] c.args[k])
        }),
{
    let t = token_at(s, p)->0;
    lemma_token_at(s, p);
    let c = run_end(s, t.next, ByteClass::Blank);
    lemma_run_end(s, t.next, ByteClass::Blank);
    if c < s.len() && s[c] == COLON {
        if args_at(s, c + 1) is Some {
            lemma_args_at(s, c + 1);
            assert(ascii_adjacent(s, c + 1));
        }
    }
}

/// In valid UTF-8 a pinned token can be cut out.
pub proof fn lemma_pinned_cuts(s: Seq<u8>, t: Token)
    requires
        valid_utf8(s),
        token_pinned(s, t),
    ensures
        cut(s, t.start),
        cut(s, t.end),
{
    lemma_cut_ascii_adjacent(s, t.start);
    lemma_cut_ascii_adjacent(s, t.end);
}

/// In valid UTF-8 an offset anchored at a cut is a cut.
pub proof fn lemma_anchored_cut(s: Seq<u8>, p: int, q: int)
    requires
        valid_utf8(s),
        cut(s, p),
        anchored(s, p, q),
    ensures
        cut(s, q),
{
    if q != p {
        lemma_cut_ascii_adjacent(s, q);
    }
}

/// A command as byte offsets into the text it was read from.
#[derive(Clone, Debug, PartialEq, Eq)]
pub struct CommandSpan {
    pub name: TokenSpan,
    pub args: Vec<TokenSpan>,
    pub next: usize,
}

impl View for CommandSpan {
    type V = CommandAt;

    open spec fn view(&self) -> CommandAt {
        CommandAt { name: self.name@, args: tokens_view(self.args@), next: self.next as int }
    }
}

/// Reads the argument list at `p`.
pub fn args(s: &[u8], p: usize) -> (r: Option<(Vec<TokenSpan>, usize)>)
    requires
        p <= s.len(),
    ensures
        match r {
            Some((list, next)) => args_at(s@, p as int) == Some((tokens_view(list@), next as int))
                && next <= s.len(),
            None => args_at(s@, p as int) is None,
        },
{
    let begin = run(s, p, ByteClass::Blank);
    let first = match token(s, begin) {
        None => {
            return None;
        },
        Some(t) => t,
    };
    if first.next == begin {
        return None;
    }
    proof {
        lemma_token_at(s@, begin as int);
    }
    let mut v: Vec<TokenSpan> = Vec::new();
    v.push(first);
    let mut i: usize = first.next;
    let ghost all = seq![first@] + more_args(s@, first.next as int).0;
    let ghost end = more_args(s@, first.next as int).1;
    loop
        invariant
            i <= s.len(),
            v.len() > 0,
            all == tokens_view(v@) + more_args(s@, i as int).0,
            end == more_args(s@, i as int).1,
        ensures
            all == tokens_view(v@),
            end == i,
            i <= s.len(),
        decreases s.len() - i,
    {
        let b = run(s, i, ByteClass::Blank);
        if b == i {
            proof {
                assert(tokens_view(v@) + Seq::<Token>::empty() =~= tokens_view(v@));
            }
            break ;
        }
        match token(s, b) {
            None => {
                proof {
                    assert(tokens_view(v@) + Seq::<Token>::empty() =~= tokens_view(v@));
                }
                break ;
            },
            Some(t) => {
                proof {
                    lemma_token_at(s@, b as int);
                    let rest = more_args(s@, t.next as int).0;
                    assert(tokens_view(v@.push(t)) + rest =~= tokens_view(v@) + (seq![t@] + rest));
                }
                v.push(t);
                i = t.next;
            },
        }
    }
    let n = v.len();
    if n > 0 && v[n - 1].start == v[n - 1].end {
        v.pop();
        proof {
            assert(tokens_view(v@) =~= all.drop_last());
        }
    }
    Some((v, i))
}

/// Reads the command at `p`.
pub fn command(s: &[u8], p: usize) -> (r: Option<CommandSpan>)
    requires
        p <= s.len(),
    ensures
        r is Some <==> command_at(s@, p as int) is Some,
        r is Some ==> r->0@ == command_at(s@, p as int)->0,
        r is Some ==> p <= r->0.next <= s.len(),
{
    let name = match token(s, p) {
        None => {
            return None;
        },
        Some(t) => t,
    };
    proof {
        lemma_token_at(s@, p as int);
        lemma_command_at(s@, p as int);
    }
    let c = run(s, name.next, ByteClass::Blank);
    if c < s.len() && s[c] == COLON {
        match args(s, c + 1) {
            Some((list, next)) => {
                return Some(CommandSpan { name, args: list, next });
            },
            None => {},
        }
    }
    let r = CommandSpan { name, args: Vec::new(), next: name.next };
    proof {
        assert(tokens_view(r.args@) =~= Seq::<Token>::empty());
    }
    Some(r)
}

} // verus!
