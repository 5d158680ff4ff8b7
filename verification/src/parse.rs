//! The parser of a document: it scans the command blocks, pairs each
//! begin-block with an end-block, and puts the transformed files between
//! them.

use crate::command::{command_views, CommandSec, CommandView};
use crate::config::{joined_path, path_join};
use crate::pieces::{joined, newline, push_text, NEWLINE};
use crate::scan::{block_cuts, blocks_in_order, blocks_view, lemma_block_cuts, lemma_scan_from, scan, scan_blocks, BlockAt, BlockSpan};
use crate::syntax::{
    block_matches, block_texts, lemma_nonempty, piece, rest_of, to_sec, CommandTags,
};
use crate::text::{byte_len, cut, lemma_cut_ends, starts_at, substr, utf8};
use crate::transform::{transform, transform_spec, TransformError};
use vstd::prelude::*;
use vstd::string::*;
use vstd::utf8::*;

verus! {

pub const DEFAULT_TAG_BEGIN: &'static str = "<!--{";

pub const DEFAULT_TAG_END: &'static str = "}-->";

pub const DEFAULT_END_COMMAND: &'static str = "end";

/// What a parse needs beside the document: the tags, the name of the
/// command that ends a block, and the directory of the files to include.
#[derive(Clone, Debug)]
pub struct ParserConfig {
    pub tags: CommandTags,
    pub end_command: String,
    pub base_dir: String,
}

impl Default for ParserConfig {
    /// The default tags and end command, and an empty base directory, which
    /// stands for the directory the program runs in.
    fn default() -> (r: Self)
        ensures
            r.tags.opening@ == DEFAULT_TAG_BEGIN@,
            r.tags.closing@ == DEFAULT_TAG_END@,
            r.end_command@ == DEFAULT_END_COMMAND@,
            r.base_dir@ == Seq::<char>::empty(),
    {
        ParserConfig {
            tags: CommandTags::new(DEFAULT_TAG_BEGIN, DEFAULT_TAG_END),
            end_command: String::from_str(DEFAULT_END_COMMAND),
            base_dir: String::new(),
        }
    }
}

/// Why a parse failed.
#[derive(Debug, Clone, PartialEq, Eq)]
pub enum ParseError {
    /// After the last command block an opening tag stands at `at`, and no
    /// block starts there or later.
    Scan { at: usize },
    /// The document has this many begin-blocks and this many end-blocks.
    CountMismatch { commands: usize, ends: usize },
    /// The end-block that belongs to the begin-block at `start..end` does
    /// not start after it.
    ExtraEnd { start: usize, end: usize },
    /// The begin-block at `start..end` ends before the end-block of the pair
    /// before it starts.
    Unordered { start: usize, end: usize },
    /// The file of this pair, counted from 0, could not be read.
    Unreadable { pair: usize },
    /// A transform of this pair, counted from 0, failed.
    Transform { pair: usize, error: TransformError },
}

/// A parser state: the configuration and the document.
pub struct Parser {
    pub config: ParserConfig,
    pub content: String,
}

/// A piece of the output: a part of the document that stays as it is, given
/// by the byte offsets of its start and of its end, or a text that takes the
/// place of what stood between the two blocks of a pair.
#[derive(Debug, PartialEq, Eq)]
pub enum Span {
    Existing((usize, usize)),
    Replace(String),
}

/// A span as plain values.
pub enum SpanView {
    Existing(int, int),
    Replace(Seq<u8>),
}

impl View for Span {
    type V = SpanView;

    open spec fn view(&self) -> SpanView {
        match self {
            Span::Existing((from, to)) => SpanView::Existing(*from as int, *to as int),
            Span::Replace(t) => SpanView::Replace(utf8(t@)),
        }
    }
}

impl SpanView {
    /// The text of the span in the output for the document `s`.
    pub open spec fn text(self, s: Seq<u8>) -> Seq<u8> {
        match self {
            SpanView::Existing(from, to) => s.subrange(from, to),
            SpanView::Replace(t) => t,
        }
    }

    /// A part of the document lies inside it, between two offsets at which
    /// it may be cut.
    pub open spec fn fits(self, s: Seq<u8>) -> bool {
        match self {
            SpanView::Existing(from, to) => 0 <= from <= to <= s.len() && cut(s, from) && cut(
                s,
                to,
            ),
            SpanView::Replace(_) => true,
        }
    }
}

/// The plain values of a list of spans.
pub open spec fn span_views(v: Seq<Span>) -> Seq<SpanView> {
    Seq::new(v.len(), |i: int| v[i]@)
}

/// The texts of a list of spans.
pub open spec fn span_texts(s: Seq<u8>, spans: Seq<SpanView>) -> Seq<Seq<u8>> {
    Seq::new(spans.len(), |i: int| spans[i].text(s))
}

/// Whether the first command of the block is the end command.
pub open spec fn is_end(s: Seq<u8>, b: BlockAt, end_command: Seq<u8>) -> bool {
    b.commands.len() > 0 && piece(s, b.commands[0].name) == end_command
}

/// The end-blocks among `blocks`, or the begin-blocks, in their order.
pub open spec fn chosen(s: Seq<u8>, blocks: Seq<BlockAt>, end_command: Seq<u8>, ends: bool) -> Seq<
    BlockAt,
>
    decreases blocks.len(),
{
    if blocks.len() == 0 {
        Seq::empty()
    } else {
        let before = chosen(s, blocks.drop_last(), end_command, ends);
        if is_end(s, blocks.last(), end_command) == ends {
            before.push(blocks.last())
        } else {
            before
        }
    }
}

/// The first of the first `k` pairs whose end-block does not start after
/// the end of its begin-block.
pub open spec fn first_extra_end(begins: Seq<BlockAt>, ends: Seq<BlockAt>, k: int) -> Option<int>
    decreases k,
{
    if k <= 0 {
        None
    } else {
        match first_extra_end(begins, ends, k - 1) {
            Some(i) => Some(i),
            None => if begins[k - 1].end >= ends[k - 1].start {
                Some(k - 1)
            } else {
                None
            },
        }
    }
}

/// The i-th begin-block with the i-th end-block.
pub open spec fn paired(begins: Seq<BlockAt>, ends: Seq<BlockAt>) -> Seq<(BlockAt, BlockAt)> {
    Seq::new(begins.len(), |i: int| (begins[i], ends[i]))
}

/// The pairs of a begin-block and an end-block of a list of blocks.
pub open spec fn pairs_of(s: Seq<u8>, blocks: Seq<BlockAt>, end_command: Seq<u8>) -> Result<
    Seq<(BlockAt, BlockAt)>,
    ParseError,
> {
    let begins = chosen(s, blocks, end_command, false);
    let ends = chosen(s, blocks, end_command, true);
    if begins.len() != ends.len() {
        Err(ParseError::CountMismatch { commands: begins.len() as usize, ends: ends.len() as usize })
    } else {
        match first_extra_end(begins, ends, begins.len() as int) {
            Some(i) => Err(
                ParseError::ExtraEnd { start: begins[i].start as usize, end: begins[i].end as usize },
            ),
            None => Ok(paired(begins, ends)),
        }
    }
}

/// The pairs of a begin-block and an end-block of the document `s`.
pub open spec fn groups_of(
    s: Seq<u8>,
    opening: Seq<u8>,
    closing: Seq<u8>,
    end_command: Seq<u8>,
) -> Result<Seq<(BlockAt, BlockAt)>, ParseError> {
    match scan(s, opening, closing) {
        Err(at) => Err(ParseError::Scan { at: at as usize }),
        Ok(blocks) => pairs_of(s, blocks, end_command),
    }
}

/// Whether `c` is white space: whether it has the Unicode property
/// `White_Space`, as `char::is_whitespace` tells.
pub uninterp spec fn white_space(c: char) -> bool;

/// The number of white space characters that `text` starts with.
pub open spec fn leading_space(text: Seq<char>) -> nat
    decreases text.len(),
{
    if text.len() > 0 && white_space(text[0]) {
        1 + leading_space(text.drop_first())
    } else {
        0
    }
}

/// The number of white space characters that `text` ends with.
pub open spec fn trailing_space(text: Seq<char>) -> nat
    decreases text.len(),
{
    if text.len() > 0 && white_space(text.last()) {
        1 + trailing_space(text.drop_last())
    } else {
        0
    }
}

/// A text without the white space at its start and at its end.
pub open spec fn trimmed(text: Seq<char>) -> Seq<char> {
    let from = leading_space(text);
    if from >= text.len() {
        Seq::empty()
    } else {
        text.subrange(from as int, text.len() - trailing_space(text))
    }
}

/// Calls `str::trim`, which returns the slice of `text` that is left when
/// the characters with the Unicode property `White_Space` are taken off
/// both ends. The contract says so over `white_space`, which stands for
/// that property: the result is `trimmed`, and so it neither starts nor
/// ends with white space.
#[verifier::external_body]
fn trim<'a>(text: &'a str) -> (r: &'a str)
    ensures
        r@ == trimmed(text@),
        r@.len() > 0 ==> !white_space(r@.first()) && !white_space(r@.last()),
{
    text.trim()
}

/// What was read of the files, as plain values.
pub open spec fn sources_view(v: Seq<Option<String>>) -> Seq<Option<Seq<char>>> {
    Seq::new(
        v.len(),
        |i: int|
            match v[i] {
                Some(t) => Some(t@),
                None => None,
            },
    )
}

/// The trimmed text of the file of pair `i`, if it was read.
pub open spec fn source_of(sources: Seq<Option<Seq<char>>>, i: int) -> Option<Seq<u8>> {
    if 0 <= i < sources.len() {
        match sources[i] {
            Some(t) => Some(utf8(trimmed(t))),
            None => None,
        }
    } else {
        None
    }
}

/// `text` after the commands 1 up to, not including, `k`, each applied to
/// what the one before made.
pub open spec fn pipeline(text: Seq<u8>, commands: Seq<CommandView>, k: int) -> Result<
    Seq<u8>,
    TransformError,
>
    decreases k,
{
    if k <= 1 {
        Ok(text)
    } else {
        match pipeline(text, commands, k - 1) {
            Ok(t) => transform_spec(t, commands[k - 1]),
            Err(e) => Err(e),
        }
    }
}

/// Where the untouched text goes on after `n` pairs: at the start of the
/// document, or at the start of the end-block of the last pair.
pub open spec fn cursor(pairs: Seq<(BlockAt, BlockAt)>, n: int) -> int {
    if n <= 0 {
        0
    } else {
        pairs[n - 1].1.start
    }
}

/// The text that takes the place of what stood between the two blocks of a
/// pair: the text of its file after all transforms. The pair fails where
/// its begin-block ends before `from`, where its file was not read, and
/// where a transform fails.
pub open spec fn made_of(
    s: Seq<u8>,
    from: int,
    begin: BlockAt,
    source: Option<Seq<u8>>,
    pair: int,
) -> Result<Seq<u8>, ParseError> {
    if from > begin.end {
        Err(ParseError::Unordered { start: begin.start as usize, end: begin.end as usize })
    } else {
        match source {
            None => Err(ParseError::Unreadable { pair: pair as usize }),
            Some(text) => match pipeline(text, block_texts(s, begin), begin.commands.len() as int) {
                Err(e) => Err(ParseError::Transform { pair: pair as usize, error: e }),
                Ok(made) => Ok(made),
            },
        }
    }
}

/// What one pair adds to the output: the untouched text from `from` up to
/// the end of its begin-block, a newline, the text of its file after all
/// transforms, and a newline.
pub open spec fn pair_output(
    s: Seq<u8>,
    from: int,
    begin: BlockAt,
    source: Option<Seq<u8>>,
    pair: int,
) -> Result<Seq<u8>, ParseError> {
    match made_of(s, from, begin, source, pair) {
        Err(e) => Err(e),
        Ok(made) => Ok(s.subrange(from, begin.end) + seq![NEWLINE] + made + seq![NEWLINE]),
    }
}

/// The spans for the first `n` pairs, two for each: the untouched text up
/// to the end of the begin-block, and the text that takes the place of
/// what stood between the blocks.
pub open spec fn pair_spans(
    s: Seq<u8>,
    pairs: Seq<(BlockAt, BlockAt)>,
    sources: Seq<Option<Seq<char>>>,
    n: int,
) -> Result<Seq<SpanView>, ParseError>
    decreases n,
{
    if n <= 0 {
        Ok(Seq::empty())
    } else {
        match pair_spans(s, pairs, sources, n - 1) {
            Err(e) => Err(e),
            Ok(list) => match made_of(
                s,
                cursor(pairs, n - 1),
                pairs[n - 1].0,
                source_of(sources, n - 1),
                n - 1,
            ) {
                Err(e) => Err(e),
                Ok(made) => Ok(
                    list.push(SpanView::Existing(cursor(pairs, n - 1), pairs[n - 1].0.end)).push(
                        SpanView::Replace(made),
                    ),
                ),
            },
        }
    }
}

/// All spans of the output, in its order: those of the pairs, and the
/// untouched text from the last end-block on.
pub open spec fn all_spans(
    s: Seq<u8>,
    pairs: Seq<(BlockAt, BlockAt)>,
    sources: Seq<Option<Seq<char>>>,
) -> Result<Seq<SpanView>, ParseError> {
    match pair_spans(s, pairs, sources, pairs.len() as int) {
        Err(e) => Err(e),
        Ok(list) => Ok(list.push(SpanView::Existing(cursor(pairs, pairs.len() as int), s.len() as int))),
    }
}

/// The spans of the output of a parse of the document `s`.
pub open spec fn spans_spec(
    s: Seq<u8>,
    opening: Seq<u8>,
    closing: Seq<u8>,
    end_command: Seq<u8>,
    sources: Seq<Option<Seq<char>>>,
) -> Result<Seq<SpanView>, ParseError> {
    match groups_of(s, opening, closing, end_command) {
        Err(e) => Err(e),
        Ok(pairs) => all_spans(s, pairs, sources),
    }
}

/// The output for the first `n` pairs, or the failure of the first pair
/// that fails.
pub open spec fn spliced(
    s: Seq<u8>,
    pairs: Seq<(BlockAt, BlockAt)>,
    sources: Seq<Option<Seq<char>>>,
    n: int,
) -> Result<Seq<u8>, ParseError>
    decreases n,
{
    if n <= 0 {
        Ok(Seq::empty())
    } else {
        match spliced(s, pairs, sources, n - 1) {
            Err(e) => Err(e),
            Ok(out) => match pair_output(
                s,
                cursor(pairs, n - 1),
                pairs[n - 1].0,
                source_of(sources, n - 1),
                n - 1,
            ) {
                Err(e) => Err(e),
                Ok(added) => Ok(out + added),
            },
        }
    }
}

/// The whole output: what the pairs add, and the untouched text from the
/// last end-block on.
pub open spec fn assembled(
    s: Seq<u8>,
    pairs: Seq<(BlockAt, BlockAt)>,
    sources: Seq<Option<Seq<char>>>,
) -> Result<Seq<u8>, ParseError> {
    match spliced(s, pairs, sources, pairs.len() as int) {
        Err(e) => Err(e),
        Ok(out) => Ok(out + rest_of(s, cursor(pairs, pairs.len() as int))),
    }
}

/// What a parse of the document `s` gives.
pub open spec fn parse_spec(
    s: Seq<u8>,
    opening: Seq<u8>,
    closing: Seq<u8>,
    end_command: Seq<u8>,
    sources: Seq<Option<Seq<char>>>,
) -> Result<Seq<u8>, ParseError> {
    match groups_of(s, opening, closing, end_command) {
        Err(e) => Err(e),
        Ok(pairs) => assembled(s, pairs, sources),
    }
}

/// What a parse returned, as bytes.
pub open spec fn parsed(r: Result<String, ParseError>) -> Result<Seq<u8>, ParseError> {
    match r {
        Ok(t) => Ok(utf8(t@)),
        Err(e) => Err(e),
    }
}

/// The blocks with the given indices.
pub open spec fn picked(blocks: Seq<BlockAt>, indices: Seq<usize>) -> Seq<BlockAt> {
    Seq::new(indices.len(), |k: int| blocks[indices[k] as int])
}

/// Every block that was chosen is one of the blocks, and is an end-block
/// if end-blocks were chosen, a begin-block if not.
pub proof fn lemma_chosen_within(
    s: Seq<u8>,
    blocks: Seq<BlockAt>,
    end_command: Seq<u8>,
    ends: bool,
)
    ensures
        chosen(s, blocks, end_command, ends).len() <= blocks.len(),
        forall|k: int|
            0 <= k < chosen(s, blocks, end_command, ends).len() ==> is_end(
                s,
                #[trigger] chosen(s, blocks, end_command, ends)[k],
                end_command,
            ) == ends && exists|i: int|
                0 <= i < blocks.len() && blocks[i] == chosen(s, blocks, end_command, ends)[k],
    decreases blocks.len(),
{
    if blocks.len() > 0 {
        let front = blocks.drop_last();
        lemma_chosen_within(s, front, end_command, ends);
        let before = chosen(s, front, end_command, ends);
        let all = chosen(s, blocks, end_command, ends);
        assert forall|k: int| 0 <= k < all.len() implies is_end(s, #[trigger] all[k], end_command)
            == ends && exists|i: int| 0 <= i < blocks.len() && blocks[i] == all[k] by {
            if k < before.len() {
                let i = choose|i: int| 0 <= i < front.len() && front[i] == before[k];
                assert(blocks[i] == all[k]);
            } else {
                assert(blocks[blocks.len() - 1] == all[k]);
            }
        }
    }
}

/// Where no pair is out of order, the end-block of each pair starts after
/// the end of its begin-block.
pub proof fn lemma_no_extra_end(begins: Seq<BlockAt>, ends: Seq<BlockAt>, k: int, i: int)
    requires
        first_extra_end(begins, ends, k) is None,
        0 <= i < k,
    ensures
        begins[i].end < ends[i].start,
    decreases k,
{
    if i < k - 1 {
        lemma_no_extra_end(begins, ends, k - 1, i);
    }
}

impl Parser {
    pub fn new(config: ParserConfig, content: String) -> (r: Self)
        ensures
            r.config == config,
            r.content == content,
    {
        Self { config, content }
    }

    /// The document as bytes.
    pub open spec fn doc(&self) -> Seq<u8> {
        utf8(self.content@)
    }

    /// The opening tag as bytes.
    pub open spec fn opening(&self) -> Seq<u8> {
        utf8(self.config.tags.opening@)
    }

    /// The closing tag as bytes.
    pub open spec fn closing(&self) -> Seq<u8> {
        utf8(self.config.tags.closing@)
    }

    /// The end command as bytes.
    pub open spec fn end_command(&self) -> Seq<u8> {
        utf8(self.config.end_command@)
    }

    /// The pairs of the document.
    pub open spec fn groups(&self) -> Result<Seq<(BlockAt, BlockAt)>, ParseError> {
        groups_of(self.doc(), self.opening(), self.closing(), self.end_command())
    }

    fn scan_spans(&self) -> (r: Result<Vec<BlockSpan>, ParseError>)
        requires
            self.config.tags.opening@.len() > 0,
        ensures
            match r {
                Ok(v) => scan(self.doc(), self.opening(), self.closing()) == Ok::<
                    Seq<BlockAt>,
                    int,
                >(blocks_view(v@)) && blocks_in_order(
                    self.doc(),
                    blocks_view(v@),
                    0,
                    self.opening(),
                    self.closing(),
                ) && forall|i: int|
                    0 <= i < v.len() ==> block_cuts(self.doc(), (#[trigger] v[i])@),
                Err(e) => scan(self.doc(), self.opening(), self.closing()) is Err && e
                    == (ParseError::Scan {
                    at: scan(self.doc(), self.opening(), self.closing())->Err_0 as usize,
                }),
            },
    {
        let s = self.content.as_str().as_bytes();
        let opening = self.config.tags.opening.as_str().as_bytes();
        let closing = self.config.tags.closing.as_str().as_bytes();
        proof {
            lemma_nonempty(self.config.tags.opening@);
        }
        match scan_blocks(s, opening, closing) {
            Err(at) => Err(ParseError::Scan { at }),
            Ok(v) => {
                proof {
                    encode_utf8_valid_utf8(self.content@);
                    encode_utf8_valid_utf8(self.config.tags.opening@);
                    encode_utf8_valid_utf8(self.config.tags.closing@);
                    lemma_scan_from(s@, 0, opening@, closing@);
                    assert forall|i: int| 0 <= i < v.len() implies block_cuts(
                        s@,
                        (#[trigger] v[i])@,
                    ) by {
                        assert(blocks_view(v@)[i] == v[i]@);
                        lemma_block_cuts(s@, v[i]@.start, opening@, closing@);
                    }
                }
                Ok(v)
            },
        }
    }

    /// Scans the command blocks of the document. Returns them in the order
    /// of the document, with the rest of the document after the last.
    pub fn command_blocks(&self) -> (r: Result<(&str, Vec<CommandSec<'_>>), ParseError>)
        requires
            self.config.tags.opening@.len() > 0,
        ensures
            match scan(self.doc(), self.opening(), self.closing()) {
                Ok(blocks) => r is Ok && ({
                    let (rest, list) = r->Ok_0;
                    &&& list.len() == blocks.len()
                    &&& forall|i: int|
                        0 <= i < list.len() ==> block_matches(
                            self.doc(),
                            #[trigger] list[i],
                            blocks[i],
                        )
                    &&& utf8(rest@) == rest_of(
                        self.doc(),
                        if blocks.len() == 0 {
                            0
                        } else {
                            blocks.last().end
                        },
                    )
                }),
                Err(at) => r == Err::<(&str, Vec<CommandSec<'_>>), ParseError>(
                    ParseError::Scan { at: at as usize },
                ),
            },
    {
        let doc = self.content.as_str();
        let spans = match self.scan_spans() {
            Err(e) => {
                return Err(e);
            },
            Ok(v) => v,
        };
        let mut list: Vec<CommandSec<'_>> = Vec::new();
        let mut i: usize = 0;
        while i < spans.len()
            invariant
                doc@ == self.content@,
                i <= spans.len(),
                list.len() == i,
                forall|k: int| 0 <= k < spans.len() ==> block_cuts(utf8(doc@), (#[trigger] spans[k])@),
                forall|k: int|
                    0 <= k < i ==> block_matches(utf8(doc@), #[trigger] list[k], spans[k]@),
            decreases spans.len() - i,
        {
            let sec = to_sec(doc, &spans[i]);
            list.push(sec);
            i += 1;
        }
        let n = spans.len();
        let from = if n == 0 {
            0
        } else {
            spans[n - 1].end
        };
        proof {
            encode_utf8_valid_utf8(self.content@);
            lemma_cut_ends(utf8(doc@));
            assert forall|k: int| 0 <= k < list.len() implies block_matches(
                self.doc(),
                #[trigger] list[k],
                blocks_view(spans@)[k],
            ) by {}
        }
        Ok((substr(doc, from, byte_len(doc)), list))
    }

    fn is_end_block(&self, b: &BlockSpan) -> (r: bool)
        requires
            block_cuts(self.doc(), b@),
        ensures
            r == is_end(self.doc(), b@, self.end_command()),
    {
        let s = self.content.as_str().as_bytes();
        let name = b.commands[0].name;
        let wanted = self.config.end_command.as_str().as_bytes();
        proof {
            assert(b@.commands[0] == b.commands[0]@);
        }
        name.end - name.start == wanted.len() && starts_at(s, name.start, wanted)
    }

    /// The indices, among the blocks, of the begin-blocks and of the
    /// end-blocks.
    fn partition(&self, spans: &Vec<BlockSpan>) -> (r: (Vec<usize>, Vec<usize>))
        requires
            forall|i: int| 0 <= i < spans.len() ==> block_cuts(self.doc(), (#[trigger] spans[i])@),
        ensures
            picked(blocks_view(spans@), r.0@) == chosen(
                self.doc(),
                blocks_view(spans@),
                self.end_command(),
                false,
            ),
            picked(blocks_view(spans@), r.1@) == chosen(
                self.doc(),
                blocks_view(spans@),
                self.end_command(),
                true,
            ),
            forall|k: int| 0 <= k < r.0.len() ==> (#[trigger] r.0[k]) < spans.len(),
            forall|k: int| 0 <= k < r.1.len() ==> (#[trigger] r.1[k]) < spans.len(),
    {
        let mut begins: Vec<usize> = Vec::new();
        let mut ends: Vec<usize> = Vec::new();
        let mut i: usize = 0;
        let ghost all = blocks_view(spans@);
        proof {
            assert(all.take(0) =~= Seq::<BlockAt>::empty());
            assert(picked(all, begins@) =~= Seq::<BlockAt>::empty());
            assert(picked(all, ends@) =~= Seq::<BlockAt>::empty());
        }
        while i < spans.len()
            invariant
                forall|i: int|
                    0 <= i < spans.len() ==> block_cuts(self.doc(), (#[trigger] spans[i])@),
                all == blocks_view(spans@),
                i <= spans.len(),
                picked(all, begins@) == chosen(self.doc(), all.take(i as int), self.end_command(), false),
                picked(all, ends@) == chosen(self.doc(), all.take(i as int), self.end_command(), true),
                forall|k: int| 0 <= k < begins.len() ==> (#[trigger] begins[k]) < spans.len(),
                forall|k: int| 0 <= k < ends.len() ==> (#[trigger] ends[k]) < spans.len(),
            decreases spans.len() - i,
        {
            let closes = self.is_end_block(&spans[i]);
            proof {
                assert(all.take(i as int + 1).drop_last() =~= all.take(i as int));
                assert(all.take(i as int + 1).last() == all[i as int]);
                assert(all[i as int] == spans[i as int]@);
            }
            if closes {
                proof {
                    assert(picked(all, ends@.push(i)) =~= picked(all, ends@).push(all[i as int]));
                }
                ends.push(i);
            } else {
                proof {
                    assert(picked(all, begins@.push(i)) =~= picked(all, begins@).push(
                        all[i as int],
                    ));
                }
                begins.push(i);
            }
            i += 1;
        }
        proof {
            assert(all.take(i as int) =~= all);
        }
        (begins, ends)
    }

    /// The indices, among the blocks, of the begin-block and of the
    /// end-block of each pair.
    fn group_indices(&self, spans: &Vec<BlockSpan>) -> (r: Result<Vec<(usize, usize)>, ParseError>)
        requires
            forall|i: int| 0 <= i < spans.len() ==> block_cuts(self.doc(), (#[trigger] spans[i])@),
        ensures
            match pairs_of(self.doc(), blocks_view(spans@), self.end_command()) {
                Ok(pairs) => r is Ok && r->Ok_0.len() == pairs.len() && forall|k: int|
                    0 <= k < pairs.len() ==> {
                        let (b, e) = #[trigger] r->Ok_0[k];
                        &&& b < spans.len()
                        &&& e < spans.len()
                        &&& pairs[k] == (spans[b as int]@, spans[e as int]@)
                    },
                Err(e) => r == Err::<Vec<(usize, usize)>, ParseError>(e),
            },
    {
        let (begins, ends) = self.partition(spans);
        let ghost all = blocks_view(spans@);
        let ghost bs = chosen(self.doc(), all, self.end_command(), false);
        let ghost es = chosen(self.doc(), all, self.end_command(), true);
        if begins.len() != ends.len() {
            return Err(ParseError::CountMismatch { commands: begins.len(), ends: ends.len() });
        }
        let n = begins.len();
        let mut v: Vec<(usize, usize)> = Vec::new();
        let mut k: usize = 0;
        while k < n
            invariant
                all == blocks_view(spans@),
                bs == chosen(self.doc(), all, self.end_command(), false),
                es == chosen(self.doc(), all, self.end_command(), true),
                bs == picked(all, begins@),
                es == picked(all, ends@),
                n == begins.len(),
                n == ends.len(),
                k <= n,
                v.len() == k,
                forall|i: int|
                    0 <= i < spans.len() ==> block_cuts(self.doc(), (#[trigger] spans[i])@),
                forall|k: int| 0 <= k < begins.len() ==> (#[trigger] begins[k]) < spans.len(),
                forall|k: int| 0 <= k < ends.len() ==> (#[trigger] ends[k]) < spans.len(),
                first_extra_end(bs, es, k as int) is None,
                forall|j: int| 0 <= j < k ==> (#[trigger] v[j]) == (begins[j], ends[j]),
            decreases n - k,
        {
            let b = begins[k];
            let e = ends[k];
            proof {
                assert(bs[k as int] == all[b as int]);
                assert(es[k as int] == all[e as int]);
                assert(all[b as int] == spans[b as int]@);
                assert(all[e as int] == spans[e as int]@);
                lemma_first_extra_end_stays(bs, es, k as int + 1, n as int);
            }
            if spans[b].end >= spans[e].start {
                return Err(ParseError::ExtraEnd { start: spans[b].start, end: spans[b].end });
            }
            v.push((b, e));
            k += 1;
        }
        proof {
            let pairs = paired(bs, es);
            assert forall|j: int| 0 <= j < pairs.len() implies {
                let (b, e) = #[trigger] v[j];
                &&& b < spans.len()
                &&& e < spans.len()
                &&& pairs[j] == (spans[b as int]@, spans[e as int]@)
            } by {
                assert(bs[j] == all[begins[j] as int]);
                assert(es[j] == all[ends[j] as int]);
            }
        }
        Ok(v)
    }

    /// Pairs the i-th begin-block with the i-th end-block. A begin-block is
    /// a block whose first command is not the end command.
    pub fn command_groups(&self) -> (r: Result<Vec<(CommandSec<'_>, CommandSec<'_>)>, ParseError>)
        requires
            self.config.tags.opening@.len() > 0,
        ensures
            match self.groups() {
                Ok(pairs) => r is Ok && r->Ok_0.len() == pairs.len() && forall|k: int|
                    0 <= k < pairs.len() ==> block_matches(
                        self.doc(),
                        (#[trigger] r->Ok_0[k]).0,
                        pairs[k].0,
                    ) && block_matches(self.doc(), r->Ok_0[k].1, pairs[k].1) && block_cuts(
                        self.doc(),
                        pairs[k].0,
                    ) && block_cuts(self.doc(), pairs[k].1),
                Err(e) => r == Err::<Vec<(CommandSec<'_>, CommandSec<'_>)>, ParseError>(e),
            },
    {
        let doc = self.content.as_str();
        let spans = match self.scan_spans() {
            Err(e) => {
                return Err(e);
            },
            Ok(v) => v,
        };
        let indices = match self.group_indices(&spans) {
            Err(e) => {
                return Err(e);
            },
            Ok(v) => v,
        };
        let ghost pairs = self.groups()->Ok_0;
        let mut list: Vec<(CommandSec<'_>, CommandSec<'_>)> = Vec::new();
        let mut k: usize = 0;
        while k < indices.len()
            invariant
                doc@ == self.content@,
                k <= indices.len(),
                list.len() == k,
                indices.len() == pairs.len(),
                forall|i: int|
                    0 <= i < spans.len() ==> block_cuts(utf8(doc@), (#[trigger] spans[i])@),
                forall|j: int|
                    0 <= j < pairs.len() ==> {
                        let (b, e) = #[trigger] indices[j];
                        &&& b < spans.len()
                        &&& e < spans.len()
                        &&& pairs[j] == (spans[b as int]@, spans[e as int]@)
                    },
                forall|j: int|
                    0 <= j < k ==> block_matches(utf8(doc@), (#[trigger] list[j]).0, pairs[j].0)
                        && block_matches(utf8(doc@), list[j].1, pairs[j].1),
            decreases indices.len() - k,
        {
            let (b, e) = indices[k];
            let begin = to_sec(doc, &spans[b]);
            let end = to_sec(doc, &spans[e]);
            list.push((begin, end));
            k += 1;
        }
        proof {
            assert forall|j: int| 0 <= j < pairs.len() implies block_cuts(
                self.doc(),
                (#[trigger] pairs[j]).0,
            ) && block_cuts(self.doc(), pairs[j].1) by {
                let (b, e) = indices[j];
                assert(pairs[j] == (spans[b as int]@, spans[e as int]@));
            }
        }
        Ok(list)
    }

    /// The names of the files that the document includes, one for each
    /// pair, in the order of the document: the name of the first command of
    /// each begin-block.
    pub fn includes(&self) -> (r: Result<Vec<&str>, ParseError>)
        requires
            self.config.tags.opening@.len() > 0,
        ensures
            match self.groups() {
                Ok(pairs) => r is Ok && r->Ok_0.len() == pairs.len() && forall|k: int|
                    0 <= k < pairs.len() ==> utf8((#[trigger] r->Ok_0[k])@) == piece(
                        self.doc(),
                        pairs[k].0.commands[0].name,
                    ),
                Err(e) => r == Err::<Vec<&str>, ParseError>(e),
            },
    {
        let groups = match self.command_groups() {
            Err(e) => {
                return Err(e);
            },
            Ok(g) => g,
        };
        let ghost pairs = self.groups()->Ok_0;
        let mut names: Vec<&str> = Vec::new();
        let mut k: usize = 0;
        while k < groups.len()
            invariant
                k <= groups.len(),
                names.len() == k,
                groups.len() == pairs.len(),
                forall|j: int|
                    0 <= j < pairs.len() ==> block_matches(
                        self.doc(),
                        (#[trigger] groups[j]).0,
                        pairs[j].0,
                    ) && block_cuts(self.doc(), pairs[j].0),
                forall|j: int|
                    0 <= j < k ==> utf8((#[trigger] names[j])@) == piece(
                        self.doc(),
                        pairs[j].0.commands[0].name,
                    ),
            decreases groups.len() - k,
        {
            let begin = &groups[k].0;
            proof {
                let texts = block_texts(self.doc(), pairs[k as int].0);
                assert(block_matches(self.doc(), groups[k as int].0, pairs[k as int].0));
                assert(command_views(begin.commands@).len() == begin.commands.len());
                assert(texts.len() == pairs[k as int].0.commands.len());
                assert(command_views(begin.commands@)[0] == texts[0]);
            }
            names.push(begin.commands[0].command);
            k += 1;
        }
        Ok(names)
    }

    /// The paths of the files that the document includes, one for each
    /// pair, in the order of the document: each name that `includes` gives,
    /// seen from the base directory.
    pub fn include_paths(&self) -> (r: Result<Vec<String>, ParseError>)
        requires
            self.config.tags.opening@.len() > 0,
        ensures
            match self.groups() {
                Ok(pairs) => r is Ok && r->Ok_0.len() == pairs.len() && forall|k: int|
                    0 <= k < pairs.len() ==> (#[trigger] r->Ok_0[k])@ == joined_path(
                        self.config.base_dir@,
                        decode_utf8(piece(self.doc(), pairs[k].0.commands[0].name)),
                    ),
                Err(e) => r == Err::<Vec<String>, ParseError>(e),
            },
    {
        let names = match self.includes() {
            Err(e) => {
                return Err(e);
            },
            Ok(n) => n,
        };
        let ghost pairs = self.groups()->Ok_0;
        let mut paths: Vec<String> = Vec::new();
        let mut k: usize = 0;
        while k < names.len()
            invariant
                k <= names.len(),
                paths.len() == k,
                names.len() == pairs.len(),
                forall|j: int|
                    0 <= j < pairs.len() ==> utf8((#[trigger] names[j])@) == piece(
                        self.doc(),
                        pairs[j].0.commands[0].name,
                    ),
                forall|j: int|
                    0 <= j < k ==> (#[trigger] paths[j])@ == joined_path(
                        self.config.base_dir@,
                        decode_utf8(piece(self.doc(), pairs[j].0.commands[0].name)),
                    ),
            decreases names.len() - k,
        {
            proof {
                encode_utf8_decode_utf8(names[k as int]@);
            }
            paths.push(path_join(self.config.base_dir.as_str(), names[k]));
            k += 1;
        }
        Ok(paths)
    }

    /// The text that goes between the blocks of a pair: the file's text
    /// without the white space around it, after the commands that follow
    /// the first one.
    fn replacement(begin: &CommandSec<'_>, text: &str) -> (r: Result<String, TransformError>)
        requires
            begin.commands.len() > 0,
        ensures
            crate::transform::outcome(r) == pipeline(
                utf8(trimmed(text@)),
                command_views(begin.commands@),
                begin.commands.len() as int,
            ),
    {
        let mut made = String::from_str(trim(text));
        let mut k: usize = 1;
        while k < begin.commands.len()
            invariant
                1 <= k <= begin.commands.len(),
                pipeline(utf8(trimmed(text@)), command_views(begin.commands@), k as int) == Ok::<
                    Seq<u8>,
                    TransformError,
                >(utf8(made@)),
            decreases begin.commands.len() - k,
        {
            proof {
                lemma_pipeline_error_stays(
                    utf8(trimmed(text@)),
                    command_views(begin.commands@),
                    k as int + 1,
                    begin.commands.len() as int,
                );
            }
            match transform(made.as_str(), &begin.commands[k]) {
                Err(e) => {
                    return Err(e);
                },
                Ok(t) => {
                    made = t;
                },
            }
            k += 1;
        }
        Ok(made)
    }

    /// The text that takes the place of what stood between the blocks of
    /// the pair with the number `pair`.
    fn made_text(
        &self,
        from: usize,
        begin: &CommandSec<'_>,
        source: Option<&str>,
        pair: usize,
        Ghost(b): Ghost<BlockAt>,
    ) -> (r: Result<String, ParseError>)
        requires
            block_matches(self.doc(), *begin, b),
            block_cuts(self.doc(), b),
        ensures
            parsed(r) == made_of(
                self.doc(),
                from as int,
                b,
                match source {
                    Some(t) => Some(utf8(trimmed(t@))),
                    None => None,
                },
                pair as int,
            ),
    {
        let doc = self.content.as_str();
        let begin_end = begin.end(doc);
        if from > begin_end {
            return Err(ParseError::Unordered { start: begin.start(doc), end: begin_end });
        }
        let text = match source {
            Some(t) => t,
            None => {
                return Err(ParseError::Unreadable { pair });
            },
        };
        proof {
            assert(command_views(begin.commands@) == block_texts(self.doc(), b));
            assert(begin.commands.len() == command_views(begin.commands@).len());
        }
        match Self::replacement(begin, text) {
            Err(e) => Err(ParseError::Transform { pair, error: e }),
            Ok(t) => Ok(t),
        }
    }

    /// The spans of the output, in its order: for each pair the untouched
    /// text up to the end of its begin-block and the text of its file after
    /// its transforms, and at the end the untouched text from the last
    /// end-block on. `sources[i]` is the text of the file that the i-th pair
    /// names, or `None` where it could not be read. The first failure in
    /// the order of the document ends the parse.
    pub fn spans(&self, sources: &Vec<Option<String>>) -> (r: Result<Vec<Span>, ParseError>)
        requires
            self.config.tags.opening@.len() > 0,
        ensures
            match spans_spec(
                self.doc(),
                self.opening(),
                self.closing(),
                self.end_command(),
                sources_view(sources@),
            ) {
                Ok(list) => r is Ok && span_views(r->Ok_0@) == list && forall|k: int|
                    0 <= k < list.len() ==> (#[trigger] list[k]).fits(self.doc()),
                Err(e) => r == Err::<Vec<Span>, ParseError>(e),
            },
    {
        let doc = self.content.as_str();
        let groups = match self.command_groups() {
            Err(e) => {
                return Err(e);
            },
            Ok(g) => g,
        };
        let ghost s = self.doc();
        let ghost pairs = self.groups()->Ok_0;
        let ghost files = sources_view(sources@);
        let ghost whole = all_spans(s, pairs, files);
        let len = byte_len(doc);
        let mut spans: Vec<Span> = Vec::new();
        let mut from: usize = 0;
        let mut i: usize = 0;
        proof {
            encode_utf8_valid_utf8(self.content@);
            lemma_cut_ends(s);
            assert(span_views(spans@) =~= Seq::<SpanView>::empty());
            reveal(groups_match);
            assert(groups_match(s, groups@, pairs));
        }
        while i < groups.len()
            invariant
                doc@ == self.content@,
                s == self.doc(),
                len == s.len(),
                files == sources_view(sources@),
                whole == all_spans(s, pairs, files),
                whole == spans_spec(
                    self.doc(),
                    self.opening(),
                    self.closing(),
                    self.end_command(),
                    sources_view(sources@),
                ),
                i <= groups.len(),
                groups.len() == pairs.len(),
                groups_match(s, groups@, pairs),
                from == cursor(pairs, i as int),
                from <= len,
                cut(s, from as int),
                pair_spans(s, pairs, files, i as int) == Ok::<Seq<SpanView>, ParseError>(
                    span_views(spans@),
                ),
                forall|k: int| 0 <= k < spans.len() ==> (#[trigger] spans[k])@.fits(s),
            ensures
                i == groups.len(),
                from == cursor(pairs, pairs.len() as int),
                from <= len,
                cut(s, from as int),
                pair_spans(s, pairs, files, pairs.len() as int) == Ok::<
                    Seq<SpanView>,
                    ParseError,
                >(span_views(spans@)),
                forall|k: int| 0 <= k < spans.len() ==> (#[trigger] spans[k])@.fits(s),
            decreases groups.len() - i,
        {
            let begin = &groups[i].0;
            let end = &groups[i].1;
            let source = if i < sources.len() {
                match &sources[i] {
                    Some(t) => Some(t.as_str()),
                    None => None,
                }
            } else {
                None
            };
            proof {
                lemma_groups_match_at(s, groups@, pairs, i as int);
                assert(source_of(files, i as int) == match source {
                    Some(t) => Some(utf8(trimmed(t@))),
                    None => None,
                });
                lemma_pair_spans_error_stays(s, pairs, files, i as int + 1, pairs.len() as int);
            }
            let made = match self.made_text(from, begin, source, i, Ghost(pairs[i as int].0)) {
                Err(e) => {
                    return Err(e);
                },
                Ok(t) => t,
            };
            let kept = Span::Existing((from, begin.end(doc)));
            let put = Span::Replace(made);
            proof {
                assert(span_views(spans@.push(kept).push(put)) =~= span_views(spans@).push(
                    kept@,
                ).push(put@));
            }
            spans.push(kept);
            spans.push(put);
            from = end.start(doc);
            i += 1;
        }
        let last = Span::Existing((from, len));
        proof {
            assert(span_views(spans@.push(last)) =~= span_views(spans@).push(last@));
        }
        spans.push(last);
        Ok(spans)
    }

    /// The texts of the spans in a row, a newline between each two.
    fn assemble(&self, spans: &Vec<Span>) -> (out: String)
        requires
            forall|k: int| 0 <= k < spans.len() ==> (#[trigger] spans[k])@.fits(self.doc()),
        ensures
            utf8(out@) == joined(span_texts(self.doc(), span_views(spans@)), seq![NEWLINE]),
    {
        let doc = self.content.as_str();
        let mut out = String::new();
        let mut k: usize = 0;
        let ghost texts = span_texts(self.doc(), span_views(spans@));
        proof {
            assert(utf8(out@) =~= Seq::<u8>::empty());
            assert(texts.take(0) =~= Seq::<Seq<u8>>::empty());
        }
        while k < spans.len()
            invariant
                doc@ == self.content@,
                k <= spans.len(),
                texts == span_texts(self.doc(), span_views(spans@)),
                forall|k: int| 0 <= k < spans.len() ==> (#[trigger] spans[k])@.fits(self.doc()),
                utf8(out@) == joined(texts.take(k as int), seq![NEWLINE]),
            decreases spans.len() - k,
        {
            if k > 0 {
                push_text(&mut out, newline());
            }
            proof {
                assert(texts.take(k as int + 1).drop_last() =~= texts.take(k as int));
                assert(texts.take(k as int + 1).last() == spans[k as int]@.text(self.doc()));
            }
            match &spans[k] {
                Span::Existing((from, to)) => {
                    push_text(&mut out, substr(doc, *from, *to));
                },
                Span::Replace(text) => {
                    push_text(&mut out, text.as_str());
                },
            }
            k += 1;
        }
        proof {
            assert(texts.take(k as int) =~= texts);
        }
        out
    }

    /// Puts the text of each included file, after its transforms, between
    /// the begin-block and the end-block of its pair, on lines of its own,
    /// and leaves the rest of the document as it is: the output is the
    /// texts of the spans in a row, a newline between each two.
    /// `sources[i]` is the text of the file that the i-th pair names, or
    /// `None` where it could not be read. The first failure in the order of
    /// the document ends the parse.
    pub fn parse(&self, sources: &Vec<Option<String>>) -> (r: Result<String, ParseError>)
        requires
            self.config.tags.opening@.len() > 0,
        ensures
            parsed(r) == parse_spec(
                self.doc(),
                self.opening(),
                self.closing(),
                self.end_command(),
                sources_view(sources@),
            ),
    {
        proof {
            lemma_output_of_spans(
                self.doc(),
                self.opening(),
                self.closing(),
                self.end_command(),
                sources_view(sources@),
            );
        }
        match self.spans(sources) {
            Err(e) => Err(e),
            Ok(spans) => {
                proof {
                    assert forall|k: int| 0 <= k < spans.len() implies (#[trigger] spans[k])@.fits(
                        self.doc(),
                    ) by {
                        assert(span_views(spans@)[k] == spans[k]@);
                    }
                }
                Ok(self.assemble(&spans))
            },
        }
    }
}

/// Each pair of `groups` is the pair of `pairs` with the same number, cut
/// out of the document `s`, which can be cut at the ends of these blocks.
#[verifier::opaque]
pub open spec fn groups_match(
    s: Seq<u8>,
    groups: Seq<(CommandSec<'_>, CommandSec<'_>)>,
    pairs: Seq<(BlockAt, BlockAt)>,
) -> bool {
    &&& groups.len() == pairs.len()
    &&& forall|j: int|
        0 <= j < pairs.len() ==> block_matches(s, (#[trigger] groups[j]).0, pairs[j].0)
            && block_matches(s, groups[j].1, pairs[j].1) && block_cuts(s, pairs[j].0)
            && block_cuts(s, pairs[j].1)
}

proof fn lemma_groups_match_at(
    s: Seq<u8>,
    groups: Seq<(CommandSec<'_>, CommandSec<'_>)>,
    pairs: Seq<(BlockAt, BlockAt)>,
    j: int,
)
    requires
        groups_match(s, groups, pairs),
        0 <= j < groups.len(),
    ensures
        groups.len() == pairs.len(),
        block_matches(s, groups[j].0, pairs[j].0),
        block_matches(s, groups[j].1, pairs[j].1),
        block_cuts(s, pairs[j].0),
        block_cuts(s, pairs[j].1),
{
    reveal(groups_match);
}

/// Once a pair has failed, more pairs do not change the failure.
pub proof fn lemma_pair_spans_error_stays(
    s: Seq<u8>,
    pairs: Seq<(BlockAt, BlockAt)>,
    sources: Seq<Option<Seq<char>>>,
    k: int,
    n: int,
)
    requires
        0 <= k <= n,
    ensures
        pair_spans(s, pairs, sources, k) is Err ==> pair_spans(s, pairs, sources, n) == pair_spans(
            s,
            pairs,
            sources,
            k,
        ),
    decreases n - k,
{
    if k < n {
        lemma_pair_spans_error_stays(s, pairs, sources, k, n - 1);
    }
}

/// The output for the first `n` pairs is the texts of their spans in a row,
/// a newline between each two and one at the end.
pub proof fn lemma_spliced_spans(
    s: Seq<u8>,
    pairs: Seq<(BlockAt, BlockAt)>,
    sources: Seq<Option<Seq<char>>>,
    n: int,
)
    requires
        0 <= n,
    ensures
        match pair_spans(s, pairs, sources, n) {
            Err(e) => spliced(s, pairs, sources, n) == Err::<Seq<u8>, ParseError>(e),
            Ok(list) => list.len() == 2 * n && spliced(s, pairs, sources, n) == Ok::<
                Seq<u8>,
                ParseError,
            >(
                if n == 0 {
                    Seq::empty()
                } else {
                    joined(span_texts(s, list), seq![NEWLINE]) + seq![NEWLINE]
                },
            ),
        },
    decreases n,
{
    if n > 0 {
        lemma_spliced_spans(s, pairs, sources, n - 1);
        match pair_spans(s, pairs, sources, n) {
            Err(e) => {},
            Ok(list) => {
                let before = pair_spans(s, pairs, sources, n - 1)->Ok_0;
                let from = cursor(pairs, n - 1);
                let begin = pairs[n - 1].0;
                let made = made_of(s, from, begin, source_of(sources, n - 1), n - 1)->Ok_0;
                let kept = s.subrange(from, begin.end);
                let nl = seq![NEWLINE];
                let texts = span_texts(s, list);
                let front = texts.drop_last();
                assert(list == before.push(SpanView::Existing(from, begin.end)).push(
                    SpanView::Replace(made),
                ));
                assert(front =~= span_texts(s, before).push(kept));
                assert(texts.last() == made);
                assert(front.drop_last() =~= span_texts(s, before));
                assert(front.last() == kept);
                assert(joined(texts, nl) == joined(front, nl) + nl + made);
                assert(spliced(s, pairs, sources, n) == Ok::<Seq<u8>, ParseError>(
                    spliced(s, pairs, sources, n - 1)->Ok_0 + (kept + nl + made + nl),
                ));
                if n == 1 {
                    assert(front.len() == 1);
                    assert(joined(front, nl) == kept);
                    assert(Seq::<u8>::empty() + (kept + nl + made + nl) =~= kept + nl + made + nl);
                } else {
                    assert(joined(front, nl) == joined(front.drop_last(), nl) + nl + kept);
                    let old = joined(span_texts(s, before), nl);
                    assert(old + nl + kept + nl + made + nl =~= (old + nl) + (kept + nl + made
                        + nl));
                    assert((old + nl) + (kept + nl + made + nl) =~= old + nl + kept + nl + made
                        + nl);
                }
            },
        }
    }
}

/// The output is the texts of the spans in a row, a newline between each
/// two.
pub proof fn lemma_output_of_spans(
    s: Seq<u8>,
    opening: Seq<u8>,
    closing: Seq<u8>,
    end_command: Seq<u8>,
    sources: Seq<Option<Seq<char>>>,
)
    ensures
        match spans_spec(s, opening, closing, end_command, sources) {
            Err(e) => parse_spec(s, opening, closing, end_command, sources) == Err::<
                Seq<u8>,
                ParseError,
            >(e),
            Ok(list) => parse_spec(s, opening, closing, end_command, sources) == Ok::<
                Seq<u8>,
                ParseError,
            >(joined(span_texts(s, list), seq![NEWLINE])),
        },
{
    match groups_of(s, opening, closing, end_command) {
        Err(e) => {},
        Ok(pairs) => {
            let n = pairs.len() as int;
            lemma_spliced_spans(s, pairs, sources, n);
            match pair_spans(s, pairs, sources, n) {
                Err(e) => {},
                Ok(list) => {
                    let tail = SpanView::Existing(cursor(pairs, n), s.len() as int);
                    let all = list.push(tail);
                    let texts = span_texts(s, all);
                    let nl = seq![NEWLINE];
                    assert(texts.drop_last() =~= span_texts(s, list));
                    assert(texts.last() == rest_of(s, cursor(pairs, n)));
                    if n == 0 {
                        assert(Seq::<u8>::empty() + rest_of(s, cursor(pairs, n)) =~= rest_of(
                            s,
                            cursor(pairs, n),
                        ));
                    }
                },
            }
        },
    }
}

/// Once a pair is out of order, more pairs do not change which is the
/// first.
pub proof fn lemma_first_extra_end_stays(begins: Seq<BlockAt>, ends: Seq<BlockAt>, k: int, n: int)
    requires
        0 <= k <= n,
    ensures
        first_extra_end(begins, ends, k) is Some ==> first_extra_end(begins, ends, n)
            == first_extra_end(begins, ends, k),
    decreases n - k,
{
    if k < n {
        lemma_first_extra_end_stays(begins, ends, k, n - 1);
    }
}

/// Once a transform has failed, more commands do not change the failure.
pub proof fn lemma_pipeline_error_stays(
    text: Seq<u8>,
    commands: Seq<CommandView>,
    k: int,
    n: int,
)
    requires
        1 <= k <= n,
    ensures
        pipeline(text, commands, k) is Err ==> pipeline(text, commands, n) == pipeline(
            text,
            commands,
            k,
        ),
    decreases n - k,
{
    if k < n {
        lemma_pipeline_error_stays(text, commands, k, n - 1);
    }
}

} // verus!
