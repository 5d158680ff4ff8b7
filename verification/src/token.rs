//! Lexical primitives: runs of bytes of one class, bare tokens and quoted
//! tokens. Everything here works on bytes and byte offsets.

use crate::text::ascii_adjacent;
use vstd::prelude::*;

verus! {

pub const QUOTE: u8 = 0x22;

pub const HASH: u8 = 0x23;

pub const COLON: u8 = 0x3a;

pub const PIPE: u8 = 0x7c;

/// The classes of bytes that the grammar takes in runs.
#[derive(Clone, Copy, Debug, PartialEq, Eq)]
pub enum ByteClass {
    /// ASCII letters and digits and the five characters `/ \ - _ .`
    Name,
    /// Space and tab.
    Blank,
    /// The character `#`.
    Hash,
}

impl ByteClass {
    /// Whether `b` belongs to the class.
    pub open spec fn has(self, b: u8) -> bool {
        match self {
            ByteClass::Name => (0x30 <= b <= 0x39) || (0x41 <= b <= 0x5a) || (0x61 <= b <= 0x7a)
                || b == 0x2f || b == 0x5c || b == 0x2d || b == 0x5f || b == 0x2e,
            ByteClass::Blank => b == 0x20 || b == 0x09,
            ByteClass::Hash => b == HASH,
        }
    }

    pub fn contains(&self, b: u8) -> (r: bool)
        ensures
            r == self.has(b),
    {
        match self {
            ByteClass::Name => (0x30 <= b && b <= 0x39) || (0x41 <= b && b <= 0x5a) || (0x61 <= b
                && b <= 0x7a) || b == 0x2f || b == 0x5c || b == 0x2d || b == 0x5f || b == 0x2e,
            ByteClass::Blank => b == 0x20 || b == 0x09,
            ByteClass::Hash => b == HASH,
        }
    }
}

/// The end of the longest run of bytes of class `c` that starts at `p`.
pub open spec fn run_end(s: Seq<u8>, p: int, c: ByteClass) -> int
    decreases s.len() - p,
{
    if 0 <= p < s.len() && c.has(s[p]) {
        run_end(s, p + 1, c)
    } else {
        p
    }
}

/// A run ends inside the text, holds only bytes of its class, and cannot be
/// made longer.
pub proof fn lemma_run_end(s: Seq<u8>, p: int, c: ByteClass)
    requires
        0 <= p <= s.len(),
    ensures
        p <= run_end(s, p, c) <= s.len(),
        forall|k: int| p <= k < run_end(s, p, c) ==> c.has(#[trigger] s[k]),
        run_end(s, p, c) < s.len() ==> !c.has(s[run_end(s, p, c)]),
        run_end(s, p, c) == p || ascii_adjacent(s, run_end(s, p, c)),
    decreases s.len() - p,
{
    if p < s.len() && c.has(s[p]) {
        lemma_run_end(s, p + 1, c);
        let e = run_end(s, p, c);
        assert(c.has(s[e - 1]));
    }
}

/// Computes the end of the run of class `c` that starts at `p`.
pub fn run(s: &[u8], p: usize, c: ByteClass) -> (e: usize)
    requires
        p <= s.len(),
    ensures
        e == run_end(s@, p as int, c),
        p <= e <= s.len(),
{
    let mut e: usize = p;
    proof {
        lemma_run_end(s@, p as int, c);
    }
    while e < s.len() && c.contains(s[e])
        invariant
            p <= e <= s.len(),
            e <= run_end(s@, p as int, c),
            run_end(s@, e as int, c) == run_end(s@, p as int, c),
        decreases s.len() - e,
    {
        proof {
            lemma_run_end(s@, e as int + 1, c);
        }
        e += 1;
    }
    e
}

/// Where a token lies: its content is `[start, end)` and the text goes on at
/// `next`.
pub struct Token {
    pub start: int,
    pub end: int,
    pub next: int,
}

/// A token as byte offsets into the text it was read from.
#[derive(Clone, Copy, Debug, PartialEq, Eq)]
pub struct TokenSpan {
    pub start: usize,
    pub end: usize,
    pub next: usize,
}

impl View for TokenSpan {
    type V = Token;

    open spec fn view(&self) -> Token {
        Token { start: self.start as int, end: self.end as int, next: self.next as int }
    }
}

/// A quote at `i` followed by `n` hashes: the closing delimiter of a quoted
/// token that was opened with `n` hashes.
pub open spec fn closes_at(s: Seq<u8>, i: int, n: int) -> bool {
    0 <= i < s.len() && s[i] == QUOTE && run_end(s, i + 1, ByteClass::Hash) >= i + 1 + n
}

/// The first offset from `i` on at which a quoted token with `n` hashes
/// closes.
pub open spec fn quote_close(s: Seq<u8>, i: int, n: int) -> Option<int>
    decreases s.len() - i,
{
    if i < 0 || i >= s.len() {
        None
    } else if closes_at(s, i, n) {
        Some(i)
    } else {
        quote_close(s, i + 1, n)
    }
}

/// `quote_close` finds the first closing delimiter, if there is one.
pub proof fn lemma_quote_close(s: Seq<u8>, i: int, n: int)
    requires
        0 <= i,
    ensures
        match quote_close(s, i, n) {
            Some(j) => i <= j < s.len() && closes_at(s, j, n) && forall|k: int|
                i <= k < j ==> !closes_at(s, k, n),
            None => forall|k: int| i <= k ==> !closes_at(s, k, n),
        },
    decreases s.len() - i,
{
    if i < s.len() && !closes_at(s, i, n) {
        lemma_quote_close(s, i + 1, n);
    }
}

/// The quoted token at `p`: any number of hashes, a quote, the content, and
/// the first quote that the same number of hashes follows.
pub open spec fn quoted_token(s: Seq<u8>, p: int) -> Option<Token> {
    let q = run_end(s, p, ByteClass::Hash);
    if 0 <= p <= q < s.len() && s[q] == QUOTE {
        match quote_close(s, q + 1, q - p) {
            Some(j) => Some(Token { start: q + 1, end: j, next: j + 1 + (q - p) }),
            None => None,
        }
    } else {
        None
    }
}

/// The bare token at `p`: the longest run of name bytes, which may be empty.
pub open spec fn bare_token(s: Seq<u8>, p: int) -> Token {
    Token { start: p, end: run_end(s, p, ByteClass::Name), next: run_end(s, p, ByteClass::Name) }
}

/// The token at `p`. The first byte decides: a quote or a hash asks for a
/// quoted token, anything else gives a bare one.
pub open spec fn token_at(s: Seq<u8>, p: int) -> Option<Token> {
    if 0 <= p < s.len() && (s[p] == QUOTE || s[p] == HASH) {
        quoted_token(s, p)
    } else {
        Some(bare_token(s, p))
    }
}

/// `q` is `p` itself or touches an ASCII byte: in valid UTF-8 it is a cut
/// whenever `p` is one.
pub open spec fn anchored(s: Seq<u8>, p: int, q: int) -> bool {
    q == p || ascii_adjacent(s, q)
}

/// A token lies inside the text, after the offset it was read at, and each
/// of its offsets is anchored.
pub proof fn lemma_token_at(s: Seq<u8>, p: int)
    requires
        0 <= p <= s.len(),
        token_at(s, p) is Some,
    ensures
        ({
            let t = token_at(s, p)->0;
            &&& p <= t.start <= t.end <= t.next <= s.len()
            &&& anchored(s, p, t.start)
            &&& anchored(s, p, t.end)
            &&& anchored(s, p, t.next)
        }),
{
    let t = token_at(s, p)->0;
    if p < s.len() && (s[p] == QUOTE || s[p] == HASH) {
        let q = run_end(s, p, ByteClass::Hash);
        lemma_run_end(s, p, ByteClass::Hash);
        lemma_quote_close(s, q + 1, q - p);
        let j = quote_close(s, q + 1, q - p)->0;
        lemma_run_end(s, j + 1, ByteClass::Hash);
        assert(s[t.start - 1] == QUOTE);
        if q - p > 0 {
            assert(ByteClass::Hash.has(s[t.next - 1]));
        }
    } else {
        lemma_run_end(s, p, ByteClass::Name);
    }
}

/// Reads the quoted token at `p`.
pub fn quoted_at(s: &[u8], p: usize) -> (r: Option<TokenSpan>)
    requires
        p <= s.len(),
    ensures
        r is Some <==> quoted_token(s@, p as int) is Some,
        r is Some ==> r->0@ == quoted_token(s@, p as int)->0,
{
    let q = run(s, p, ByteClass::Hash);
    if q >= s.len() || s[q] != QUOTE {
        return None;
    }
    let n = q - p;
    let mut i: usize = q + 1;
    while i < s.len()
        invariant
            q + 1 <= i <= s.len(),
            n == q - p,
            p <= q < s.len(),
            q == run_end(s@, p as int, ByteClass::Hash),
            s@[q as int] == QUOTE,
            quote_close(s@, i as int, n as int) == quote_close(s@, q + 1, n as int),
        decreases s.len() - i,
    {
        if s[i] == QUOTE {
            let h = run(s, i + 1, ByteClass::Hash);
            if h - (i + 1) >= n {
                assert(closes_at(s@, i as int, n as int));
                assert(quote_close(s@, i as int, n as int) == Some(i as int));
                return Some(TokenSpan { start: q + 1, end: i, next: i + 1 + n });
            }
        }
        assert(!closes_at(s@, i as int, n as int));
        i += 1;
    }
    None
}

/// Reads the token at `p`.
pub fn token(s: &[u8], p: usize) -> (r: Option<TokenSpan>)
    requires
        p <= s.len(),
    ensures
        r is Some <==> token_at(s@, p as int) is Some,
        r is Some ==> r->0@ == token_at(s@, p as int)->0,
        r is Some ==> p <= r->0.start <= r->0.end <= r->0.next <= s.len(),
{
    proof {
        if token_at(s@, p as int) is Some {
            lemma_token_at(s@, p as int);
        }
    }
    if p < s.len() && (s[p] == QUOTE || s[p] == HASH) {
        quoted_at(s, p)
    } else {
        let e = run(s, p, ByteClass::Name);
        Some(TokenSpan { start: p, end: e, next: e })
    }
}

} // verus!
