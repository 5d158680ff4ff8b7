//! The block scanner: a command block at an offset, the next block from an
//! offset on, and all blocks of a document.
//!
//! ```text
//! block := opening blank* command blank* ("|" blank* command blank*)* closing
//! ```

use crate::grammar::{command, command_at, lemma_anchored_cut, lemma_command_at, lemma_pinned_cuts, token_pinned, CommandAt, CommandSpan};
use crate::text::{ascii_adjacent, cut, has_at, lemma_cut_after_match, starts_at};
use crate::token::{anchored, lemma_run_end, run, run_end, ByteClass, PIPE};
use vstd::prelude::*;
use vstd::utf8::*;

verus! {

/// Where a command block lies: its commands and the offsets of its first
/// byte and of the byte after its last.
pub struct BlockAt {
    pub commands: Seq<CommandAt>,
    pub start: int,
    pub end: int,
}

/// What follows a command of a block and the blanks after it, at `i`: the
/// closing tag, or a pipe and one more command. Gives the further commands
/// and the offset after the closing tag.
pub open spec fn block_tail(s: Seq<u8>, i: int, closing: Seq<u8>) -> Option<(Seq<CommandAt>, int)>
    decreases s.len() - i,
    via block_tail_decreases
{
    if has_at(s, i, closing) {
        Some((Seq::empty(), i + closing.len()))
    } else if 0 <= i < s.len() && s[i] == PIPE {
        match command_at(s, run_end(s, i + 1, ByteClass::Blank)) {
            Some(c) => match block_tail(s, run_end(s, c.next, ByteClass::Blank), closing) {
                Some((more, end)) => Some((seq![c] + more, end)),
                None => None,
            },
            None => None,
        }
    } else {
        None
    }
}

#[via_fn]
proof fn block_tail_decreases(s: Seq<u8>, i: int, closing: Seq<u8>) {
    if !has_at(s, i, closing) && 0 <= i < s.len() && s[i] == PIPE {
        let j = run_end(s, i + 1, ByteClass::Blank);
        lemma_run_end(s, i + 1, ByteClass::Blank);
        if command_at(s, j) is Some {
            lemma_command_at(s, j);
            lemma_run_end(s, command_at(s, j)->0.next, ByteClass::Blank);
        }
    }
}

/// The command block whose opening tag stands at `p`.
pub open spec fn block_at(s: Seq<u8>, p: int, opening: Seq<u8>, closing: Seq<u8>) -> Option<
    BlockAt,
> {
    if has_at(s, p, opening) {
        match command_at(s, run_end(s, p + opening.len(), ByteClass::Blank)) {
            Some(c) => match block_tail(s, run_end(s, c.next, ByteClass::Blank), closing) {
                Some((more, end)) => Some(BlockAt { commands: seq![c] + more, start: p, end }),
                None => None,
            },
            None => None,
        }
    } else {
        None
    }
}

/// The first offset from `c` on at which `t` stands.
pub open spec fn next_occurrence(s: Seq<u8>, c: int, t: Seq<u8>) -> Option<int>
    decreases s.len() - c,
{
    if c < 0 || c > s.len() {
        None
    } else if has_at(s, c, t) {
        Some(c)
    } else if c == s.len() {
        None
    } else {
        next_occurrence(s, c + 1, t)
    }
}

/// The first command block that starts at `c` or later. An opening tag that
/// no block completes is passed over.
pub open spec fn next_block(s: Seq<u8>, c: int, opening: Seq<u8>, closing: Seq<u8>) -> Option<
    BlockAt,
>
    decreases s.len() - c,
{
    if c < 0 || c > s.len() {
        None
    } else if block_at(s, c, opening, closing) is Some {
        block_at(s, c, opening, closing)
    } else if c == s.len() {
        None
    } else {
        next_block(s, c + 1, opening, closing)
    }
}

/// All command blocks from `c` on, in the order of the text, each searched
/// for after the end of the one before. Where no block is left but an
/// opening tag still stands in the rest, the scan fails with the offset of
/// that tag.
pub open spec fn scan_from(s: Seq<u8>, c: int, opening: Seq<u8>, closing: Seq<u8>) -> Result<
    Seq<BlockAt>,
    int,
>
    decreases s.len() - c,
    when opening.len() > 0 && 0 <= c
    via scan_from_decreases
{
    match next_block(s, c, opening, closing) {
        Some(b) => match scan_from(s, b.end, opening, closing) {
            Ok(rest) => Ok(seq![b] + rest),
            Err(at) => Err(at),
        },
        None => match next_occurrence(s, c, opening) {
            Some(at) => Err(at),
            None => Ok(Seq::empty()),
        },
    }
}

#[via_fn]
proof fn scan_from_decreases(s: Seq<u8>, c: int, opening: Seq<u8>, closing: Seq<u8>) {
    if next_block(s, c, opening, closing) is Some {
        lemma_next_block(s, c, opening, closing);
    }
}

/// All command blocks of a document.
pub open spec fn scan(s: Seq<u8>, opening: Seq<u8>, closing: Seq<u8>) -> Result<Seq<BlockAt>, int> {
    scan_from(s, 0, opening, closing)
}

/// The tail of a block lies inside the text, and its commands can be
/// located from ASCII bytes alone.
pub proof fn lemma_block_tail(s: Seq<u8>, i: int, closing: Seq<u8>)
    requires
        0 <= i <= s.len(),
        block_tail(s, i, closing) is Some,
    ensures
        ({
            let (more, end) = block_tail(s, i, closing).unwrap();
            &&& i <= end <= s.len()
            &&& has_at(s, end - closing.len(), closing)
            &&& i <= end - closing.len()
            &&& anchored(s, i, end - closing.len())
            &&& forall|k: int|
                0 <= k < more.len() ==> command_pinned(s, #[trigger] more[k])
        }),
    decreases s.len() - i,
{
    if has_at(s, i, closing) {
    } else {
        let j = run_end(s, i + 1, ByteClass::Blank);
        lemma_run_end(s, i + 1, ByteClass::Blank);
        let c = command_at(s, j)->0;
        lemma_command_at(s, j);
        let k0 = run_end(s, c.next, ByteClass::Blank);
        lemma_run_end(s, c.next, ByteClass::Blank);
        lemma_block_tail(s, k0, closing);
        let (more, end) = block_tail(s, k0, closing).unwrap();
        assert(ascii_adjacent(s, j)) by {
            assert(s[j - 1] == PIPE || ByteClass::Blank.has(s[j - 1]));
        }
        assert(command_pinned(s, c));
        let all = seq![c] + more;
        assert forall|k: int| 0 <= k < all.len() implies command_pinned(s, #[trigger] all[k]) by {
            if k > 0 {
                assert(all[k] == more[k - 1]);
            }
        }
    }
}

/// Name and arguments lie inside the text, and both ends of each touch an
/// ASCII byte.
pub open spec fn command_pinned(s: Seq<u8>, c: CommandAt) -> bool {
    &&& token_pinned(s, c.name)
    &&& forall|k: int| 0 <= k < c.args.len() ==> token_pinned(s, #[trigger] c.args[k])
}

/// Name and arguments lie inside the text, at offsets at which it may be
/// cut.
pub open spec fn command_cuts(s: Seq<u8>, c: CommandAt) -> bool {
    &&& 0 <= c.name.start <= c.name.end <= s.len()
    &&& cut(s, c.name.start)
    &&& cut(s, c.name.end)
    &&& forall|k: int|
        0 <= k < c.args.len() ==> 0 <= (#[trigger] c.args[k]).start <= c.args[k].end <= s.len()
            && cut(s, c.args[k].start) && cut(s, c.args[k].end)
}

/// The block lies inside the text, holds a command, and can be cut out, and
/// so can the names and arguments of its commands.
pub open spec fn block_cuts(s: Seq<u8>, b: BlockAt) -> bool {
    &&& 0 <= b.start <= b.end <= s.len()
    &&& cut(s, b.start)
    &&& cut(s, b.end)
    &&& b.commands.len() > 0
    &&& forall|k: int| 0 <= k < b.commands.len() ==> command_cuts(s, #[trigger] b.commands[k])
}

proof fn lemma_pinned_command_cuts(s: Seq<u8>, c: CommandAt)
    requires
        valid_utf8(s),
        command_pinned(s, c),
    ensures
        command_cuts(s, c),
{
    lemma_pinned_cuts(s, c.name);
    assert forall|k: int| 0 <= k < c.args.len() implies cut(s, (#[trigger] c.args[k]).start) && cut(
        s,
        c.args[k].end,
    ) by {
        lemma_pinned_cuts(s, c.args[k]);
    }
}

/// A block starts with its opening tag, ends with its closing tag, and takes
/// up at least the two tags.
pub proof fn lemma_block_at(s: Seq<u8>, p: int, opening: Seq<u8>, closing: Seq<u8>)
    requires
        block_at(s, p, opening, closing) is Some,
    ensures
        ({
            let b = block_at(s, p, opening, closing)->0;
            &&& b.start == p
            &&& has_at(s, p, opening)
            &&& has_at(s, b.end - closing.len(), closing)
            &&& 0 <= p && p + opening.len() + closing.len() <= b.end <= s.len()
            &&& b.commands.len() > 0
        }),
{
    let a = run_end(s, p + opening.len(), ByteClass::Blank);
    lemma_run_end(s, p + opening.len(), ByteClass::Blank);
    let c = command_at(s, a)->0;
    lemma_command_at(s, a);
    let k = run_end(s, c.next, ByteClass::Blank);
    lemma_run_end(s, c.next, ByteClass::Blank);
    lemma_block_tail(s, k, closing);
}

/// In a document that is valid UTF-8, with tags that are, a block and all
/// the names and arguments in it can be cut out.
pub proof fn lemma_block_cuts(s: Seq<u8>, p: int, opening: Seq<u8>, closing: Seq<u8>)
    requires
        valid_utf8(s),
        valid_utf8(opening),
        valid_utf8(closing),
        opening.len() > 0 || cut(s, p),
        block_at(s, p, opening, closing) is Some,
    ensures
        block_cuts(s, block_at(s, p, opening, closing)->0),
{
    let b = block_at(s, p, opening, closing)->0;
    lemma_block_at(s, p, opening, closing);
    if opening.len() > 0 {
        lemma_cut_after_match(s, p, opening);
    }
    let body = p + opening.len();
    let a = run_end(s, body, ByteClass::Blank);
    lemma_run_end(s, body, ByteClass::Blank);
    lemma_anchored_cut(s, body, a);
    let c = command_at(s, a)->0;
    lemma_command_at(s, a);
    lemma_anchored_cut(s, a, c.name.start);
    lemma_anchored_cut(s, a, c.name.end);
    lemma_anchored_cut(s, a, c.next);
    assert(command_cuts(s, c)) by {
        assert forall|k: int| 0 <= k < c.args.len() implies cut(s, (#[trigger] c.args[k]).start)
            && cut(s, c.args[k].end) by {
            lemma_pinned_cuts(s, c.args[k]);
        }
    }
    let k0 = run_end(s, c.next, ByteClass::Blank);
    lemma_run_end(s, c.next, ByteClass::Blank);
    lemma_anchored_cut(s, c.next, k0);
    lemma_block_tail(s, k0, closing);
    let (more, end) = block_tail(s, k0, closing).unwrap();
    lemma_anchored_cut(s, k0, end - closing.len());
    if closing.len() > 0 {
        lemma_cut_after_match(s, end - closing.len(), closing);
    }
    assert forall|k: int| 0 <= k < b.commands.len() implies command_cuts(
        s,
        #[trigger] b.commands[k],
    ) by {
        if k > 0 {
            assert(b.commands[k] == more[k - 1]);
            lemma_pinned_command_cuts(s, more[k - 1]);
        }
    }
}

/// The next block is a block at an offset from `c` on, and no block starts
/// between `c` and it.
pub proof fn lemma_next_block(s: Seq<u8>, c: int, opening: Seq<u8>, closing: Seq<u8>)
    requires
        0 <= c,
    ensures
        match next_block(s, c, opening, closing) {
            Some(b) => c <= b.start <= s.len() && block_at(s, b.start, opening, closing) == Some(b)
                && b.start + opening.len() + closing.len() <= b.end <= s.len() && forall|q: int|
                c <= q < b.start ==> block_at(s, q, opening, closing) is None,
            None => forall|q: int| c <= q ==> block_at(s, q, opening, closing) is None,
        },
    decreases s.len() - c,
{
    if c > s.len() {
        assert forall|q: int| c <= q implies block_at(s, q, opening, closing) is None by {
            assert(!has_at(s, q, opening));
        }
    } else if block_at(s, c, opening, closing) is Some {
        lemma_block_at(s, c, opening, closing);
    } else if c == s.len() {
        assert forall|q: int| c <= q implies block_at(s, q, opening, closing) is None by {
            if q > c {
                assert(!has_at(s, q, opening));
            }
        }
    } else {
        lemma_next_block(s, c + 1, opening, closing);
    }
}

/// The next occurrence is the first one.
pub proof fn lemma_next_occurrence(s: Seq<u8>, c: int, t: Seq<u8>)
    requires
        0 <= c,
    ensures
        match next_occurrence(s, c, t) {
            Some(at) => c <= at <= s.len() && has_at(s, at, t) && forall|q: int|
                c <= q < at ==> !has_at(s, q, t),
            None => forall|q: int| c <= q ==> !has_at(s, q, t),
        },
    decreases s.len() - c,
{
    if c < s.len() && !has_at(s, c, t) {
        lemma_next_occurrence(s, c + 1, t);
    }
}

/// Each of `blocks` is the block at its own start, none starts before `c`,
/// and each ends before the next starts.
pub open spec fn blocks_in_order(
    s: Seq<u8>,
    blocks: Seq<BlockAt>,
    c: int,
    opening: Seq<u8>,
    closing: Seq<u8>,
) -> bool {
    &&& forall|i: int|
        0 <= i < blocks.len() ==> c <= (#[trigger] blocks[i]).start && block_at(
            s,
            blocks[i].start,
            opening,
            closing,
        ) == Some(blocks[i])
    &&& forall|i: int, j: int|
        0 <= i < j < blocks.len() ==> (#[trigger] blocks[i]).end <= (#[trigger] blocks[j]).start
}

/// The blocks that a scan finds are blocks of the text, in its order, and
/// do not overlap.
pub proof fn lemma_scan_from(s: Seq<u8>, c: int, opening: Seq<u8>, closing: Seq<u8>)
    requires
        0 <= c,
        opening.len() > 0,
        scan_from(s, c, opening, closing) is Ok,
    ensures
        blocks_in_order(s, scan_from(s, c, opening, closing)->Ok_0, c, opening, closing),
    decreases s.len() - c,
{
    lemma_next_block(s, c, opening, closing);
    match next_block(s, c, opening, closing) {
        Some(b) => {
            lemma_scan_from(s, b.end, opening, closing);
            let rest = scan_from(s, b.end, opening, closing)->Ok_0;
            let all = seq![b] + rest;
            assert forall|i: int| 0 <= i < all.len() implies c <= (#[trigger] all[i]).start
                && block_at(s, all[i].start, opening, closing) == Some(all[i]) by {
                if i > 0 {
                    assert(all[i] == rest[i - 1]);
                }
            }
            assert forall|i: int, j: int| 0 <= i < j < all.len() implies (#[trigger] all[i]).end
                <= (#[trigger] all[j]).start by {
                assert(all[j] == rest[j - 1]);
                if i > 0 {
                    assert(all[i] == rest[i - 1]);
                }
            }
        },
        None => {},
    }
}

/// A command block as byte offsets into the text it was read from.
#[derive(Clone, Debug, PartialEq, Eq)]
pub struct BlockSpan {
    pub commands: Vec<CommandSpan>,
    pub start: usize,
    pub end: usize,
}

/// The commands of a list of command spans.
pub open spec fn commands_view(v: Seq<CommandSpan>) -> Seq<CommandAt> {
    Seq::new(v.len(), |i: int| v[i]@)
}

impl View for BlockSpan {
    type V = BlockAt;

    open spec fn view(&self) -> BlockAt {
        BlockAt {
            commands: commands_view(self.commands@),
            start: self.start as int,
            end: self.end as int,
        }
    }
}

/// The blocks of a list of block spans.
pub open spec fn blocks_view(v: Seq<BlockSpan>) -> Seq<BlockAt> {
    Seq::new(v.len(), |i: int| v[i]@)
}

/// Reads the command block whose opening tag stands at `p`.
pub fn block(s: &[u8], p: usize, opening: &[u8], closing: &[u8]) -> (r: Option<BlockSpan>)
    requires
        p <= s.len(),
    ensures
        match r {
            Some(b) => block_at(s@, p as int, opening@, closing@) == Some(b@),
            None => block_at(s@, p as int, opening@, closing@) is None,
        },
{
    if !starts_at(s, p, opening) {
        return None;
    }
    let a = run(s, p + opening.len(), ByteClass::Blank);
    let first = match command(s, a) {
        None => {
            return None;
        },
        Some(c) => c,
    };
    let mut i: usize = run(s, first.next, ByteClass::Blank);
    let mut v: Vec<CommandSpan> = Vec::new();
    let ghost head = first@;
    v.push(first);
    let ghost tail = block_tail(s@, i as int, closing@);
    let mut end: Option<usize> = None;
    loop
        invariant_except_break
            end is None,
        invariant
            i <= s.len(),
            v.len() > 0,
            v@[0]@ == head,
            match block_tail(s@, i as int, closing@) {
                Some((more, e)) => tail == Some((commands_view(v@).drop_first() + more, e)),
                None => tail is None,
            },
        ensures
            match end {
                Some(e) => tail == Some((commands_view(v@).drop_first(), e as int)) && e
                    <= s.len(),
                None => tail is None,
            },
            v.len() > 0,
            v@[0]@ == head,
        decreases s.len() - i,
    {
        if starts_at(s, i, closing) {
            proof {
                assert(commands_view(v@).drop_first() + Seq::<CommandAt>::empty()
                    =~= commands_view(v@).drop_first());
            }
            end = Some(i + closing.len());
            break ;
        }
        if i >= s.len() || s[i] != PIPE {
            break ;
        }
        let j = run(s, i + 1, ByteClass::Blank);
        match command(s, j) {
            None => {
                break ;
            },
            Some(c) => {
                let k = run(s, c.next, ByteClass::Blank);
                proof {
                    match block_tail(s@, k as int, closing@) {
                        Some((more, e)) => {
                            assert(commands_view(v@.push(c)).drop_first() + more =~= commands_view(
                                v@,
                            ).drop_first() + (seq![c@] + more));
                        },
                        None => {},
                    }
                }
                v.push(c);
                i = k;
            },
        }
    }
    match end {
        None => None,
        Some(e) => {
            let r = BlockSpan { commands: v, start: p, end: e };
            proof {
                assert(r@.commands =~= seq![head] + commands_view(r.commands@).drop_first());
            }
            Some(r)
        },
    }
}

/// What a search for the next block found.
pub enum Found {
    /// A block.
    Block(BlockSpan),
    /// No block, but an opening tag at this offset.
    Dangling(usize),
    /// Neither a block nor an opening tag.
    Nothing,
}

/// Searches for the first command block that starts at `c` or later.
pub fn find_block(s: &[u8], c: usize, opening: &[u8], closing: &[u8]) -> (r: Found)
    requires
        c <= s.len(),
    ensures
        match r {
            Found::Block(b) => next_block(s@, c as int, opening@, closing@) == Some(b@),
            Found::Dangling(at) => next_block(s@, c as int, opening@, closing@) is None
                && next_occurrence(s@, c as int, opening@) == Some(at as int),
            Found::Nothing => next_block(s@, c as int, opening@, closing@) is None
                && next_occurrence(s@, c as int, opening@) is None,
        },
{
    let mut p: usize = c;
    let mut tag: Option<usize> = None;
    loop
        invariant
            c <= p <= s.len(),
            next_block(s@, p as int, opening@, closing@) == next_block(
                s@,
                c as int,
                opening@,
                closing@,
            ),
            match tag {
                Some(at) => next_occurrence(s@, c as int, opening@) == Some(at as int),
                None => next_occurrence(s@, p as int, opening@) == next_occurrence(
                    s@,
                    c as int,
                    opening@,
                ),
            },
        decreases s.len() - p,
    {
        if starts_at(s, p, opening) {
            if tag.is_none() {
                tag = Some(p);
            }
            match block(s, p, opening, closing) {
                Some(b) => {
                    return Found::Block(b);
                },
                None => {},
            }
        }
        if p == s.len() {
            return match tag {
                Some(at) => Found::Dangling(at),
                None => Found::Nothing,
            };
        }
        p += 1;
    }
}

/// Reads all command blocks of `s`.
pub fn scan_blocks(s: &[u8], opening: &[u8], closing: &[u8]) -> (r: Result<Vec<BlockSpan>, usize>)
    requires
        opening@.len() > 0,
    ensures
        match r {
            Ok(v) => scan(s@, opening@, closing@) == Ok::<Seq<BlockAt>, int>(blocks_view(v@)),
            Err(at) => scan(s@, opening@, closing@) == Err::<Seq<BlockAt>, int>(at as int),
        },
{
    let mut v: Vec<BlockSpan> = Vec::new();
    let mut c: usize = 0;
    let ghost whole = scan(s@, opening@, closing@);
    loop
        invariant
            c <= s.len(),
            opening@.len() > 0,
            whole == scan(s@, opening@, closing@),
            match scan_from(s@, c as int, opening@, closing@) {
                Ok(rest) => whole == Ok::<Seq<BlockAt>, int>(blocks_view(v@) + rest),
                Err(at) => whole == Err::<Seq<BlockAt>, int>(at),
            },
        decreases s.len() - c,
    {
        match find_block(s, c, opening, closing) {
            Found::Block(b) => {
                proof {
                    lemma_next_block(s@, c as int, opening@, closing@);
                    match scan_from(s@, b.end as int, opening@, closing@) {
                        Ok(rest) => {
                            assert(blocks_view(v@.push(b)) + rest =~= blocks_view(v@) + (seq![b@]
                                + rest));
                        },
                        Err(at) => {},
                    }
                }
                c = b.end;
                v.push(b);
            },
            Found::Dangling(at) => {
                return Err(at);
            },
            Found::Nothing => {
                proof {
                    assert(blocks_view(v@) + Seq::<BlockAt>::empty() =~= blocks_view(v@));
                }
                return Ok(v);
            },
        }
    }
}

} // verus!
