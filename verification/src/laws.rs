//! What holds of every parse.

use crate::parse::{
    assembled, chosen, cursor, groups_of, is_end, lemma_chosen_within, lemma_no_extra_end,
    pair_output, pair_spans, pairs_of, parse_spec, source_of, spans_spec, spliced, ParseError,
    SpanView,
};
use crate::scan::{
    block_at, lemma_block_at, lemma_next_block, lemma_next_occurrence, lemma_scan_from,
    next_block, next_occurrence, scan, BlockAt,
};
use crate::syntax::{block_texts, rest_of};
use crate::text::has_at;
use vstd::prelude::*;

verus! {

/// The untouched text that pair `i` adds to the output: what lies between
/// the start of the end-block of the pair before it, or the start of the
/// document, and the end of its own begin-block. For `i` the number of
/// pairs it is the text from the last end-block on.
pub open spec fn untouched(s: Seq<u8>, pairs: Seq<(BlockAt, BlockAt)>, i: int) -> Seq<u8> {
    if i < pairs.len() {
        s.subrange(cursor(pairs, i), pairs[i].0.end)
    } else {
        rest_of(s, cursor(pairs, i))
    }
}

/// The offset in the output at which the untouched text of pair `i` starts.
pub open spec fn kept_at(
    s: Seq<u8>,
    pairs: Seq<(BlockAt, BlockAt)>,
    sources: Seq<Option<Seq<char>>>,
    i: int,
) -> int {
    spliced(s, pairs, sources, i)->Ok_0.len() as int
}

/// The output for `k` pairs is the start of the output for more pairs, and
/// the untouched text of pair `k` follows it.
pub proof fn lemma_spliced_prefix(
    s: Seq<u8>,
    pairs: Seq<(BlockAt, BlockAt)>,
    sources: Seq<Option<Seq<char>>>,
    k: int,
    n: int,
)
    requires
        0 <= k <= n <= pairs.len(),
        spliced(s, pairs, sources, n) is Ok,
    ensures
        spliced(s, pairs, sources, k) is Ok,
        kept_at(s, pairs, sources, k) <= kept_at(s, pairs, sources, n),
        spliced(s, pairs, sources, n)->Ok_0.subrange(0, kept_at(s, pairs, sources, k)) == spliced(
            s,
            pairs,
            sources,
            k,
        )->Ok_0,
        k < n ==> cursor(pairs, k) <= pairs[k].0.end && kept_at(s, pairs, sources, k) + untouched(
            s,
            pairs,
            k,
        ).len() < kept_at(s, pairs, sources, k + 1) <= kept_at(s, pairs, sources, n)
            && spliced(s, pairs, sources, n)->Ok_0.subrange(
            kept_at(s, pairs, sources, k),
            kept_at(s, pairs, sources, k) + untouched(s, pairs, k).len(),
        ) == untouched(s, pairs, k),
    decreases n - k,
{
    let whole = spliced(s, pairs, sources, n)->Ok_0;
    if k == n {
        assert(whole.subrange(0, whole.len() as int) =~= whole);
    } else {
        lemma_spliced_prefix(s, pairs, sources, k + 1, n);
        let next = spliced(s, pairs, sources, k + 1)->Ok_0;
        let here = spliced(s, pairs, sources, k)->Ok_0;
        let added = pair_output(
            s,
            cursor(pairs, k),
            pairs[k].0,
            source_of(sources, k),
            k,
        )->Ok_0;
        assert(next == here + added);
        assert(whole.subrange(0, next.len() as int) == next);
        assert(whole.subrange(0, here.len() as int) =~= next.subrange(0, here.len() as int));
        assert(next.subrange(0, here.len() as int) =~= here);
        let kept = untouched(s, pairs, k);
        assert(added.subrange(0, kept.len() as int) =~= kept);
        assert(whole.subrange(here.len() as int, (here.len() + kept.len()) as int) =~= next.subrange(
            here.len() as int,
            (here.len() + kept.len()) as int,
        ));
        assert(next.subrange(here.len() as int, (here.len() + kept.len()) as int) =~= added.subrange(
            0,
            kept.len() as int,
        ));
    }
}

/// The shape of a pair. Each of its two blocks is the command block that
/// stands at its start in the document and holds a command. The first
/// command of the begin-block is not the end command, the first command of
/// the end-block is, and the end-block starts after the end of the
/// begin-block.
pub proof fn law_pair_shape(
    s: Seq<u8>,
    opening: Seq<u8>,
    closing: Seq<u8>,
    end_command: Seq<u8>,
    i: int,
)
    requires
        opening.len() > 0,
        groups_of(s, opening, closing, end_command) is Ok,
        0 <= i < groups_of(s, opening, closing, end_command)->Ok_0.len(),
    ensures
        ({
            let (begin, end) = groups_of(s, opening, closing, end_command)->Ok_0[i];
            &&& block_at(s, begin.start, opening, closing) == Some(begin)
            &&& block_at(s, end.start, opening, closing) == Some(end)
            &&& begin.commands.len() > 0
            &&& end.commands.len() > 0
            &&& !is_end(s, begin, end_command)
            &&& is_end(s, end, end_command)
            &&& 0 <= begin.start < begin.end < end.start < end.end <= s.len()
        }),
{
    let blocks = scan(s, opening, closing)->Ok_0;
    let begins = chosen(s, blocks, end_command, false);
    let ends = chosen(s, blocks, end_command, true);
    lemma_scan_from(s, 0, opening, closing);
    lemma_chosen_within(s, blocks, end_command, false);
    lemma_chosen_within(s, blocks, end_command, true);
    lemma_no_extra_end(begins, ends, begins.len() as int, i);
    let b = choose|k: int| 0 <= k < blocks.len() && blocks[k] == begins[i];
    let e = choose|k: int| 0 <= k < blocks.len() && blocks[k] == ends[i];
    lemma_block_at(s, blocks[b].start, opening, closing);
    lemma_block_at(s, blocks[e].start, opening, closing);
}

/// A document in which the opening tag stands nowhere has no command
/// blocks.
pub proof fn law_no_tag_no_blocks(s: Seq<u8>, opening: Seq<u8>, closing: Seq<u8>)
    requires
        opening.len() > 0,
        forall|p: int| !has_at(s, p, opening),
    ensures
        scan(s, opening, closing) == Ok::<Seq<BlockAt>, int>(Seq::empty()),
{
    lemma_next_block(s, 0, opening, closing);
    lemma_next_occurrence(s, 0, opening);
    if next_block(s, 0, opening, closing) is Some {
        let b = next_block(s, 0, opening, closing)->0;
        assert(has_at(s, b.start, opening));
    }
}

/// A document with an opening tag and without a command block fails: the
/// parse gives the offset of the first opening tag, whatever the files
/// hold.
pub proof fn law_dangling_tag(
    s: Seq<u8>,
    opening: Seq<u8>,
    closing: Seq<u8>,
    end_command: Seq<u8>,
    sources: Seq<Option<Seq<char>>>,
    at: int,
)
    requires
        opening.len() > 0,
        forall|p: int| block_at(s, p, opening, closing) is None,
        has_at(s, at, opening),
    ensures
        next_occurrence(s, 0, opening) is Some,
        0 <= next_occurrence(s, 0, opening)->0 <= at,
        parse_spec(s, opening, closing, end_command, sources) == Err::<Seq<u8>, ParseError>(
            ParseError::Scan { at: next_occurrence(s, 0, opening)->0 as usize },
        ),
{
    lemma_next_block(s, 0, opening, closing);
    lemma_next_occurrence(s, 0, opening);
    if next_block(s, 0, opening, closing) is Some {
        let b = next_block(s, 0, opening, closing)->0;
        assert(block_at(s, b.start, opening, closing) is Some);
    }
}

/// A document whose scan finds no command block is parsed to itself,
/// whatever the files hold.
pub proof fn law_preservation(
    s: Seq<u8>,
    opening: Seq<u8>,
    closing: Seq<u8>,
    end_command: Seq<u8>,
    sources: Seq<Option<Seq<char>>>,
)
    requires
        opening.len() > 0,
        scan(s, opening, closing) == Ok::<Seq<BlockAt>, int>(Seq::empty()),
    ensures
        parse_spec(s, opening, closing, end_command, sources) == Ok::<Seq<u8>, ParseError>(s),
{
    let blocks = Seq::<BlockAt>::empty();
    assert(chosen(s, blocks, end_command, false) =~= Seq::<BlockAt>::empty());
    assert(chosen(s, blocks, end_command, true) =~= Seq::<BlockAt>::empty());
    let pairs = pairs_of(s, blocks, end_command)->Ok_0;
    assert(pairs.len() == 0);
    assert(Seq::<u8>::empty() + rest_of(s, 0) =~= s);
}

/// The text outside the pairs is kept. Where a parse succeeds, the
/// untouched text of each pair, and the text after the last pair, stands in
/// the output as it stood in the document: at the offset `kept_at`, before
/// the untouched text of the next pair, the first at the start of the
/// output and the last at its end.
pub proof fn law_untouched_text_is_kept(
    s: Seq<u8>,
    opening: Seq<u8>,
    closing: Seq<u8>,
    end_command: Seq<u8>,
    sources: Seq<Option<Seq<char>>>,
    i: int,
)
    requires
        opening.len() > 0,
        parse_spec(s, opening, closing, end_command, sources) is Ok,
        0 <= i <= groups_of(s, opening, closing, end_command)->Ok_0.len(),
    ensures
        ({
            let pairs = groups_of(s, opening, closing, end_command)->Ok_0;
            let out = parse_spec(s, opening, closing, end_command, sources)->Ok_0;
            let at = kept_at(s, pairs, sources, i);
            let kept = untouched(s, pairs, i);
            &&& 0 <= at && at + kept.len() <= out.len()
            &&& out.subrange(at, at + kept.len()) == kept
            &&& i == 0 ==> at == 0
            &&& i == pairs.len() ==> at + kept.len() == out.len()
            &&& i < pairs.len() ==> at + kept.len() < kept_at(s, pairs, sources, i + 1)
            &&& i < pairs.len() ==> cursor(pairs, i) <= pairs[i].0.end < cursor(pairs, i + 1)
        }),
{
    let pairs = groups_of(s, opening, closing, end_command)->Ok_0;
    let out = parse_spec(s, opening, closing, end_command, sources)->Ok_0;
    let n = pairs.len() as int;
    let body = spliced(s, pairs, sources, n)->Ok_0;
    let tail = rest_of(s, cursor(pairs, n));
    assert(out == body + tail);
    lemma_spliced_prefix(s, pairs, sources, i, n);
    if i < n {
        law_pair_shape(s, opening, closing, end_command, i);
        let at = kept_at(s, pairs, sources, i);
        let kept = untouched(s, pairs, i);
        assert(out.subrange(at, at + kept.len()) =~= body.subrange(at, at + kept.len()));
    } else {
        assert(out.subrange(body.len() as int, (body.len() + tail.len()) as int) =~= tail);
    }
}

proof fn lemma_pair_spans_shape(
    s: Seq<u8>,
    pairs: Seq<(BlockAt, BlockAt)>,
    sources: Seq<Option<Seq<char>>>,
    n: int,
)
    requires
        0 <= n,
        pair_spans(s, pairs, sources, n) is Ok,
    ensures
        ({
            let list = pair_spans(s, pairs, sources, n)->Ok_0;
            &&& list.len() == 2 * n
            &&& forall|i: int|
                0 <= i < n ==> #[trigger] list[2 * i] == SpanView::Existing(
                    cursor(pairs, i),
                    pairs[i].0.end,
                ) && list[2 * i + 1] is Replace && cursor(pairs, i) <= pairs[i].0.end
        }),
    decreases n,
{
    if n > 0 {
        lemma_pair_spans_shape(s, pairs, sources, n - 1);
        let before = pair_spans(s, pairs, sources, n - 1)->Ok_0;
        let list = pair_spans(s, pairs, sources, n)->Ok_0;
        assert forall|i: int| 0 <= i < n implies #[trigger] list[2 * i] == SpanView::Existing(
            cursor(pairs, i),
            pairs[i].0.end,
        ) && list[2 * i + 1] is Replace && cursor(pairs, i) <= pairs[i].0.end by {
            if i < n - 1 {
                assert(list[2 * i] == before[2 * i]);
                assert(list[2 * i + 1] == before[2 * i + 1]);
            }
        }
    }
}

/// The spans come in the order of the document and do not overlap. Where a
/// parse succeeds, each pair gives two spans, a part of the document and
/// then a text that is put in; a last part of the document follows. Each
/// part starts where the part before it and the text after that one left
/// off, at the end-block of the pair before, and ends at the end of a
/// begin-block or of the document.
pub proof fn law_spans_in_order(
    s: Seq<u8>,
    opening: Seq<u8>,
    closing: Seq<u8>,
    end_command: Seq<u8>,
    sources: Seq<Option<Seq<char>>>,
)
    requires
        opening.len() > 0,
        spans_spec(s, opening, closing, end_command, sources) is Ok,
    ensures
        ({
            let pairs = groups_of(s, opening, closing, end_command)->Ok_0;
            let list = spans_spec(s, opening, closing, end_command, sources)->Ok_0;
            let n = pairs.len() as int;
            &&& list.len() == 2 * n + 1
            &&& forall|i: int|
                0 <= i < n ==> #[trigger] list[2 * i] == SpanView::Existing(
                    cursor(pairs, i),
                    pairs[i].0.end,
                ) && list[2 * i + 1] is Replace && 0 <= cursor(pairs, i) <= pairs[i].0.end
                    < cursor(pairs, i + 1)
            &&& list[2 * n] == SpanView::Existing(cursor(pairs, n), s.len() as int)
            &&& 0 <= cursor(pairs, n) <= s.len()
        }),
{
    let pairs = groups_of(s, opening, closing, end_command)->Ok_0;
    let list = spans_spec(s, opening, closing, end_command, sources)->Ok_0;
    let n = pairs.len() as int;
    lemma_pair_spans_shape(s, pairs, sources, n);
    let front = pair_spans(s, pairs, sources, n)->Ok_0;
    assert forall|i: int| 0 <= i < n implies #[trigger] list[2 * i] == SpanView::Existing(
        cursor(pairs, i),
        pairs[i].0.end,
    ) && list[2 * i + 1] is Replace && 0 <= cursor(pairs, i) <= pairs[i].0.end < cursor(
        pairs,
        i + 1,
    ) by {
        assert(list[2 * i] == front[2 * i]);
        assert(list[2 * i + 1] == front[2 * i + 1]);
        law_pair_shape(s, opening, closing, end_command, i);
        if i > 0 {
            law_pair_shape(s, opening, closing, end_command, i - 1);
        }
    }
    if n > 0 {
        law_pair_shape(s, opening, closing, end_command, n - 1);
    }
}

/// A document that scans, with a number of begin-blocks that differs from
/// the number of its end-blocks, fails with both numbers, whatever the
/// files hold.
pub proof fn law_count_mismatch(
    s: Seq<u8>,
    opening: Seq<u8>,
    closing: Seq<u8>,
    end_command: Seq<u8>,
    sources: Seq<Option<Seq<char>>>,
)
    requires
        opening.len() > 0,
        scan(s, opening, closing) is Ok,
        chosen(s, scan(s, opening, closing)->Ok_0, end_command, false).len() != chosen(
            s,
            scan(s, opening, closing)->Ok_0,
            end_command,
            true,
        ).len(),
    ensures
        parse_spec(s, opening, closing, end_command, sources) == Err::<Seq<u8>, ParseError>(
            ParseError::CountMismatch {
                commands: chosen(s, scan(s, opening, closing)->Ok_0, end_command, false).len() as usize,
                ends: chosen(s, scan(s, opening, closing)->Ok_0, end_command, true).len() as usize,
            },
        ),
{
}

/// The pairs `again` of the output are the pairs of the document, found
/// where the parse left them: each begin-block says what it said, and ends
/// where the untouched text of its pair ends in the output, and each
/// end-block starts where the untouched text after its pair starts.
pub open spec fn found_again(
    s: Seq<u8>,
    pairs: Seq<(BlockAt, BlockAt)>,
    sources: Seq<Option<Seq<char>>>,
    out: Seq<u8>,
    again: Seq<(BlockAt, BlockAt)>,
) -> bool {
    &&& again.len() == pairs.len()
    &&& forall|i: int|
        0 <= i < pairs.len() ==> {
            &&& (#[trigger] again[i]).0.commands.len() == pairs[i].0.commands.len()
            &&& block_texts(out, again[i].0) == block_texts(s, pairs[i].0)
            &&& again[i].0.end == kept_at(s, pairs, sources, i) + untouched(s, pairs, i).len()
            &&& again[i].1.start == kept_at(s, pairs, sources, i + 1)
        }
}

proof fn lemma_spliced_again(
    s: Seq<u8>,
    pairs: Seq<(BlockAt, BlockAt)>,
    sources: Seq<Option<Seq<char>>>,
    out: Seq<u8>,
    again: Seq<(BlockAt, BlockAt)>,
    k: int,
)
    requires
        0 <= k <= pairs.len(),
        assembled(s, pairs, sources) == Ok::<Seq<u8>, ParseError>(out),
        found_again(s, pairs, sources, out, again),
    ensures
        spliced(out, again, sources, k) == spliced(s, pairs, sources, k),
        spliced(s, pairs, sources, k) is Ok,
        cursor(again, k) == kept_at(s, pairs, sources, k),
    decreases k,
{
    let n = pairs.len() as int;
    let body = spliced(s, pairs, sources, n)->Ok_0;
    lemma_spliced_prefix(s, pairs, sources, k, n);
    if k > 0 {
        lemma_spliced_again(s, pairs, sources, out, again, k - 1);
        lemma_spliced_prefix(s, pairs, sources, k - 1, n);
        let i = k - 1;
        let at = kept_at(s, pairs, sources, i);
        let kept = untouched(s, pairs, i);
        assert(again[i].0.end == at + kept.len());
        assert(out == body + rest_of(s, cursor(pairs, n)));
        assert(out.subrange(at, at + kept.len()) =~= body.subrange(at, at + kept.len()));
        assert(out.subrange(cursor(again, i), again[i].0.end) == kept);
        assert(pair_output(out, cursor(again, i), again[i].0, source_of(sources, i), i)
            == pair_output(s, cursor(pairs, i), pairs[i].0, source_of(sources, i), i));
    }
}

/// Parsing the output again changes nothing. Where a parse succeeds and the
/// pairs of its output are the pairs of the document, found where the parse
/// left them, a parse of the output with the same tags, the same end
/// command and the same files gives the output.
pub proof fn law_idempotence(
    s: Seq<u8>,
    opening: Seq<u8>,
    closing: Seq<u8>,
    end_command: Seq<u8>,
    sources: Seq<Option<Seq<char>>>,
)
    requires
        opening.len() > 0,
        parse_spec(s, opening, closing, end_command, sources) is Ok,
        groups_of(
            parse_spec(s, opening, closing, end_command, sources)->Ok_0,
            opening,
            closing,
            end_command,
        ) is Ok,
        found_again(
            s,
            groups_of(s, opening, closing, end_command)->Ok_0,
            sources,
            parse_spec(s, opening, closing, end_command, sources)->Ok_0,
            groups_of(
                parse_spec(s, opening, closing, end_command, sources)->Ok_0,
                opening,
                closing,
                end_command,
            )->Ok_0,
        ),
    ensures
        parse_spec(
            parse_spec(s, opening, closing, end_command, sources)->Ok_0,
            opening,
            closing,
            end_command,
            sources,
        ) == parse_spec(s, opening, closing, end_command, sources),
{
    let pairs = groups_of(s, opening, closing, end_command)->Ok_0;
    let out = parse_spec(s, opening, closing, end_command, sources)->Ok_0;
    let again = groups_of(out, opening, closing, end_command)->Ok_0;
    let n = pairs.len() as int;
    lemma_spliced_again(s, pairs, sources, out, again, n);
    let body = spliced(s, pairs, sources, n)->Ok_0;
    let tail = rest_of(s, cursor(pairs, n));
    assert(out == body + tail);
    assert(rest_of(out, cursor(again, n)) =~= tail);
}

} // verus!
