//! What the transforms are made of: escape sequences, decimal indices, the
//! lines of a text, and joining texts.

use crate::text::{cut, lemma_cut_ascii_adjacent, lemma_utf8_concat, substr, utf8};
use crate::token::{Token, TokenSpan, QUOTE};
use vstd::prelude::*;
use vstd::string::*;
use vstd::utf8::*;

verus! {

pub const NEWLINE: u8 = 0x0a;

pub const RETURN: u8 = 0x0d;

pub const BACKSLASH: u8 = 0x5c;

pub const PLUS: u8 = 0x2b;

pub const LOWER_N: u8 = 0x6e;

/// The byte that a backslash and `c` stand for.
pub open spec fn escape_code(c: u8) -> Option<u8> {
    if c == BACKSLASH {
        Some(BACKSLASH)
    } else if c == QUOTE {
        Some(QUOTE)
    } else if c == LOWER_N {
        Some(NEWLINE)
    } else {
        None
    }
}

/// The bytes of `s` from `i` on with every escape sequence replaced, or
/// `None` where a backslash is the last byte or is followed by a byte that
/// `escape_code` does not know.
pub open spec fn unescape_from(s: Seq<u8>, i: int) -> Option<Seq<u8>>
    decreases s.len() - i,
{
    if i < 0 || i >= s.len() {
        Some(Seq::empty())
    } else if s[i] != BACKSLASH {
        match unescape_from(s, i + 1) {
            Some(r) => Some(seq![s[i]] + r),
            None => None,
        }
    } else if i + 1 >= s.len() {
        None
    } else {
        match (escape_code(s[i + 1]), unescape_from(s, i + 2)) {
            (Some(b), Some(r)) => Some(seq![b] + r),
            _ => None,
        }
    }
}

/// `s` with `\\`, `\"` and `\n` replaced by a backslash, a quote and a
/// newline. A text with any other use of the backslash gives the empty
/// text.
pub open spec fn escaped_bytes(s: Seq<u8>) -> Seq<u8> {
    match unescape_from(s, 0) {
        Some(r) => r,
        None => Seq::empty(),
    }
}

proof fn lemma_one_ascii(t: &str, c: char)
    requires
        t@ == seq![c],
        c as u32 <= 0x7f,
    ensures
        utf8(t@) == seq![c as u8],
{
    assert(is_ascii_chars(t@));
    is_ascii_chars_encode_utf8(t@);
    assert(utf8(t@) =~= seq![c as u8]);
}

fn escape_text(c: u8) -> (r: Option<&'static str>)
    ensures
        match r {
            Some(t) => escape_code(c) is Some && utf8(t@) == seq![escape_code(c)->0],
            None => escape_code(c) is None,
        },
{
    if c == BACKSLASH {
        let t = "\\";
        proof {
            reveal_strlit("\\");
            assert(t@ =~= seq!['\\']);
            lemma_one_ascii(t, '\\');
        }
        Some(t)
    } else if c == QUOTE {
        let t = "\"";
        proof {
            reveal_strlit("\"");
            assert(t@ =~= seq!['"']);
            lemma_one_ascii(t, '"');
        }
        Some(t)
    } else if c == LOWER_N {
        let t = "\n";
        proof {
            reveal_strlit("\n");
            assert(t@ =~= seq!['\n']);
            lemma_one_ascii(t, '\n');
        }
        Some(t)
    } else {
        None
    }
}

/// A newline as a text.
pub fn newline() -> (t: &'static str)
    ensures
        utf8(t@) == seq![NEWLINE],
{
    let t = "\n";
    proof {
        reveal_strlit("\n");
        assert(t@ =~= seq!['\n']);
        lemma_one_ascii(t, '\n');
    }
    t
}

/// Appends `t` to `out`.
pub fn push_text(out: &mut String, t: &str)
    ensures
        utf8(final(out)@) == utf8(old(out)@) + utf8(t@),
{
    proof {
        lemma_utf8_concat(out@, t@);
    }
    out.append(t);
}

proof fn lemma_unescape_plain(s: Seq<u8>, from: int, i: int)
    requires
        0 <= from <= i <= s.len(),
        forall|k: int| from <= k < i ==> s[k] != BACKSLASH,
    ensures
        match unescape_from(s, i) {
            Some(r) => unescape_from(s, from) == Some(s.subrange(from, i) + r),
            None => unescape_from(s, from) is None,
        },
    decreases i - from,
{
    if from < i {
        lemma_unescape_plain(s, from + 1, i);
        match unescape_from(s, i) {
            Some(r) => {
                assert(seq![s[from]] + (s.subrange(from + 1, i) + r) =~= s.subrange(from, i) + r);
            },
            None => {},
        }
    } else {
        match unescape_from(s, i) {
            Some(r) => {
                assert(s.subrange(from, i) + r =~= r);
            },
            None => {},
        }
    }
}

/// Replaces the escape sequences of `input`.
pub fn escaped(input: &str) -> (out: String)
    ensures
        utf8(out@) == escaped_bytes(utf8(input@)),
{
    let s = input.as_bytes();
    let mut out = String::new();
    let mut i: usize = 0;
    let mut from: usize = 0;
    proof {
        encode_utf8_valid_utf8(input@);
        assert(utf8(out@) =~= Seq::<u8>::empty());
    }
    while i < s.len()
        invariant
            s@ == utf8(input@),
            valid_utf8(s@),
            from <= i <= s.len(),
            cut(s@, from as int),
            forall|k: int| from <= k < i ==> s@[k] != BACKSLASH,
            match unescape_from(s@, from as int) {
                Some(r) => unescape_from(s@, 0) == Some(utf8(out@) + r),
                None => unescape_from(s@, 0) is None,
            },
        decreases s.len() - i,
    {
        if s[i] == BACKSLASH {
            proof {
                lemma_unescape_plain(s@, from as int, i as int);
            }
            if i + 1 >= s.len() {
                return String::new();
            }
            let code = match escape_text(s[i + 1]) {
                None => {
                    return String::new();
                },
                Some(t) => t,
            };
            let ghost before = utf8(out@);
            push_text(&mut out, substr(input, from, i));
            push_text(&mut out, code);
            proof {
                lemma_cut_ascii_adjacent(s@, i as int + 2);
                match unescape_from(s@, i as int + 2) {
                    Some(r) => {
                        let b = escape_code(s@[i as int + 1])->0;
                        assert(before + (s@.subrange(from as int, i as int) + (seq![b] + r))
                            =~= before + s@.subrange(from as int, i as int) + seq![b] + r);
                    },
                    None => {},
                }
            }
            i += 2;
            from = i;
        } else {
            i += 1;
        }
    }
    proof {
        lemma_unescape_plain(s@, from as int, i as int);
        assert(utf8(out@) + (s@.subrange(from as int, i as int) + Seq::<u8>::empty()) =~= utf8(
            out@,
        ) + s@.subrange(from as int, i as int));
    }
    push_text(&mut out, substr(input, from, i));
    out
}

/// Whether every byte is a decimal digit.
pub open spec fn all_digits(d: Seq<u8>) -> bool {
    forall|i: int| 0 <= i < d.len() ==> 0x30 <= #[trigger] d[i] <= 0x39
}

/// The number that the decimal digits `d` write.
pub open spec fn decimal(d: Seq<u8>) -> nat
    decreases d.len(),
{
    if d.len() == 0 {
        0
    } else {
        (decimal(d.drop_last()) * 10 + (d.last() - 0x30)) as nat
    }
}

/// The index that `s` writes: decimal digits, at least one, after an
/// optional plus sign, for a number that fits the machine word.
pub open spec fn index_of(s: Seq<u8>) -> Option<usize> {
    let d = if s.len() > 0 && s[0] == PLUS {
        s.subrange(1, s.len() as int)
    } else {
        s
    };
    if d.len() > 0 && all_digits(d) && decimal(d) <= usize::MAX {
        Some(decimal(d) as usize)
    } else {
        None
    }
}

proof fn lemma_decimal_grows(d: Seq<u8>, k: int)
    requires
        all_digits(d),
        0 <= k <= d.len(),
    ensures
        decimal(d.take(k)) <= decimal(d),
    decreases d.len() - k,
{
    if k < d.len() {
        lemma_decimal_grows(d, k + 1);
        assert(d.take(k + 1).drop_last() =~= d.take(k));
        assert(d.take(k + 1).last() == d[k]);
    } else {
        assert(d.take(k) =~= d);
    }
}

/// Reads an index.
pub fn parse_index(text: &str) -> (r: Option<usize>)
    ensures
        r == index_of(utf8(text@)),
{
    let s = text.as_bytes();
    let start: usize = if s.len() > 0 && s[0] == PLUS {
        1
    } else {
        0
    };
    if start == s.len() {
        return None;
    }
    let ghost d = s@.subrange(start as int, s.len() as int);
    let mut value: usize = 0;
    let mut i: usize = start;
    proof {
        assert(d.take(0) =~= Seq::<u8>::empty());
        assert(start == 0 ==> d =~= s@);
    }
    while i < s.len()
        invariant
            s@ == utf8(text@),
            start <= i <= s.len(),
            start < s.len(),
            start == 0 || start == 1,
            start == 1 <==> s@[0] == PLUS,
            d == s@.subrange(start as int, s.len() as int),
            start == 0 ==> d == s@,
            all_digits(d.take(i - start)),
            value == decimal(d.take(i - start)),
        decreases s.len() - i,
    {
        let b = s[i];
        if b < 0x30 || b > 0x39 {
            proof {
                assert(d[i - start] == b);
            }
            return None;
        }
        proof {
            assert(d.take(i - start + 1).drop_last() =~= d.take(i - start));
            assert(d.take(i - start + 1).last() == b);
            assert forall|j: int| 0 <= j < i - start + 1 implies 0x30 <= #[trigger] d.take(
                i - start + 1,
            )[j] <= 0x39 by {
                if j < i - start {
                    assert(d.take(i - start)[j] == d[j]);
                }
            }
        }
        let next = match value.checked_mul(10) {
            None => None,
            Some(v) => v.checked_add((b - 0x30) as usize),
        };
        match next {
            None => {
                proof {
                    if all_digits(d) {
                        lemma_decimal_grows(d, i - start + 1);
                    }
                }
                return None;
            },
            Some(v) => {
                value = v;
            },
        }
        i += 1;
    }
    proof {
        assert(d.take(i - start) =~= d);
    }
    Some(value)
}

/// The offset of the first newline from `p` on, or the end of the text.
pub open spec fn line_end(s: Seq<u8>, p: int) -> int
    decreases s.len() - p,
{
    if p < 0 || p >= s.len() || s[p] == NEWLINE {
        p
    } else {
        line_end(s, p + 1)
    }
}

/// The line that starts at `p`: it ends before the next newline, or before
/// the carriage return that comes right before that newline, or at the end
/// of the text.
pub open spec fn line_at(s: Seq<u8>, p: int) -> Token {
    let e = line_end(s, p);
    Token {
        start: p,
        end: if p < e < s.len() && s[e - 1] == RETURN {
            e - 1
        } else {
            e
        },
        next: if e < s.len() {
            e + 1
        } else {
            e
        },
    }
}

/// The lines of `s` from `p` on. A newline ends a line; after the last
/// newline no empty line follows.
pub open spec fn lines_from(s: Seq<u8>, p: int) -> Seq<Token>
    decreases s.len() - p,
    via lines_from_decreases
{
    if p < 0 || p >= s.len() {
        Seq::empty()
    } else {
        seq![line_at(s, p)] + lines_from(s, line_at(s, p).next)
    }
}

#[via_fn]
proof fn lines_from_decreases(s: Seq<u8>, p: int) {
    if 0 <= p < s.len() {
        lemma_line_end(s, p);
    }
}

/// A line ends inside the text, at a newline or at the end, and holds no
/// newline.
pub proof fn lemma_line_end(s: Seq<u8>, p: int)
    requires
        0 <= p <= s.len(),
    ensures
        p <= line_end(s, p) <= s.len(),
        line_end(s, p) < s.len() ==> s[line_end(s, p)] == NEWLINE,
        forall|k: int| p <= k < line_end(s, p) ==> s[k] != NEWLINE,
    decreases s.len() - p,
{
    if p < s.len() && s[p] != NEWLINE {
        lemma_line_end(s, p + 1);
    }
}

/// The lines of a text.
pub open spec fn lines_of(s: Seq<u8>) -> Seq<Seq<u8>> {
    let spans = lines_from(s, 0);
    Seq::new(spans.len(), |i: int| s.subrange(spans[i].start, spans[i].end))
}

/// The texts of `parts` in a row with `sep` between each two.
pub open spec fn joined(parts: Seq<Seq<u8>>, sep: Seq<u8>) -> Seq<u8>
    decreases parts.len(),
{
    if parts.len() == 0 {
        Seq::empty()
    } else if parts.len() == 1 {
        parts[0]
    } else {
        joined(parts.drop_last(), sep) + sep + parts.last()
    }
}

/// A line span lies inside the text and can be cut out of valid UTF-8.
pub open spec fn line_span_ok(s: Seq<u8>, t: TokenSpan) -> bool {
    &&& t.start <= t.end <= s.len()
    &&& cut(s, t.start as int)
    &&& cut(s, t.end as int)
}

/// The tokens of a list of spans.
pub open spec fn spans_view(v: Seq<TokenSpan>) -> Seq<Token> {
    Seq::new(v.len(), |i: int| v[i]@)
}

/// Finds the lines of `text`.
pub fn line_spans(text: &str) -> (v: Vec<TokenSpan>)
    ensures
        spans_view(v@) == lines_from(utf8(text@), 0),
        forall|k: int| 0 <= k < v.len() ==> line_span_ok(utf8(text@), #[trigger] v[k]),
{
    let s = text.as_bytes();
    let mut v: Vec<TokenSpan> = Vec::new();
    let mut p: usize = 0;
    proof {
        encode_utf8_valid_utf8(text@);
    }
    while p < s.len()
        invariant
            s@ == utf8(text@),
            valid_utf8(s@),
            p <= s.len(),
            cut(s@, p as int),
            lines_from(s@, 0) == spans_view(v@) + lines_from(s@, p as int),
            forall|k: int| 0 <= k < v.len() ==> line_span_ok(s@, #[trigger] v[k]),
        decreases s.len() - p,
    {
        let mut e: usize = p;
        while e < s.len() && s[e] != NEWLINE
            invariant
                p <= e <= s.len(),
                line_end(s@, e as int) == line_end(s@, p as int),
            decreases s.len() - e,
        {
            e += 1;
        }
        proof {
            lemma_line_end(s@, p as int);
        }
        let end = if p < e && e < s.len() && s[e - 1] == RETURN {
            e - 1
        } else {
            e
        };
        let next = if e < s.len() {
            e + 1
        } else {
            e
        };
        let span = TokenSpan { start: p, end, next };
        proof {
            assert(span@ == line_at(s@, p as int));
            if end < s.len() {
                lemma_cut_ascii_adjacent(s@, end as int);
            }
            if e < s.len() {
                lemma_cut_ascii_adjacent(s@, e as int + 1);
            }
            let rest = lines_from(s@, next as int);
            assert(spans_view(v@.push(span)) + rest =~= spans_view(v@) + (seq![span@] + rest));
        }
        v.push(span);
        p = next;
    }
    proof {
        assert(spans_view(v@) + Seq::<Token>::empty() =~= spans_view(v@));
    }
    v
}

} // verus!
