//! Texts as UTF-8 bytes: the byte view of a string, cutting a string at byte
//! offsets, and the facts about character boundaries that make the cuts safe.

use vstd::prelude::*;
use vstd::string::*;
use vstd::utf8::*;

verus! {

/// The UTF-8 bytes of a text. Every contract of this crate speaks of texts
/// through this view, so an offset is always a byte offset.
pub open spec fn utf8(s: Seq<char>) -> Seq<u8> {
    encode_utf8(s)
}

/// The byte views of a list of string slices.
pub open spec fn utf8_all(v: Seq<&str>) -> Seq<Seq<u8>> {
    Seq::new(v.len(), |i: int| utf8(v[i]@))
}

/// `t` stands in `s` at offset `p`.
pub open spec fn has_at(s: Seq<u8>, p: int, t: Seq<u8>) -> bool {
    0 <= p && p + t.len() <= s.len() && s.subrange(p, p + t.len()) == t
}

/// `p` is an offset at which `s` may be cut: the end of `s`, or a byte that
/// does not continue a character.
pub open spec fn cut(s: Seq<u8>, p: int) -> bool {
    0 <= p <= s.len() && (p == s.len() || !is_continuation_byte(s[p]))
}

/// `q` touches an ASCII byte of `s`: the byte before it or the byte at it.
pub open spec fn ascii_adjacent(s: Seq<u8>, q: int) -> bool {
    (0 < q <= s.len() && s[q - 1] < 0x80) || (0 <= q < s.len() && s[q] < 0x80)
}

/// Two texts with the same bytes are the same text.
pub proof fn lemma_utf8_injective(a: Seq<char>, b: Seq<char>)
    requires
        utf8(a) == utf8(b),
    ensures
        a == b,
{
    encode_utf8_decode_utf8(a);
    encode_utf8_decode_utf8(b);
}

/// The bytes of a concatenation are the concatenation of the bytes.
pub proof fn lemma_utf8_concat(a: Seq<char>, b: Seq<char>)
    ensures
        utf8(a + b) == utf8(a) + utf8(b),
    decreases a.len(),
{
    if a.len() == 0 {
        assert(a + b =~= b);
        assert(utf8(a) + utf8(b) =~= utf8(b));
    } else {
        lemma_utf8_concat(a.drop_first(), b);
        assert((a + b).drop_first() =~= a.drop_first() + b);
        assert((a + b)[0] == a[0]);
        assert(utf8(a + b) =~= utf8(a) + utf8(b));
    }
}

/// In valid UTF-8 a cut is a character boundary.
pub proof fn lemma_cut_is_boundary(s: Seq<u8>, p: int)
    requires
        valid_utf8(s),
        cut(s, p),
    ensures
        is_char_boundary(s, p),
{
    if p == s.len() {
        is_char_boundary_start_end_of_seq(s);
    } else {
        is_char_boundary_iff_not_is_continuation_byte(s, p);
    }
}

/// Valid UTF-8 may be cut at its start and at its end.
pub proof fn lemma_cut_ends(s: Seq<u8>)
    requires
        valid_utf8(s),
    ensures
        cut(s, 0),
        cut(s, s.len() as int),
{
    if s.len() > 0 {
        assert(valid_first_scalar(s));
    }
}

/// In valid UTF-8 the byte after an ASCII byte starts a character.
pub proof fn lemma_cut_after_ascii(s: Seq<u8>, p: int)
    requires
        valid_utf8(s),
        0 <= p < s.len(),
        s[p] < 0x80,
    ensures
        cut(s, p + 1),
{
    if p + 1 < s.len() {
        lemma_cut_is_boundary(s, p);
        valid_utf8_split(s, p);
        let t = s.subrange(p, s.len() as int);
        assert(t[0] == s[p]);
        assert(length_of_first_scalar(t) == 1);
        let u = pop_first_scalar(t);
        assert(valid_utf8(u));
        assert(u.len() > 0);
        assert(u[0] == s[p + 1]);
        assert(valid_first_scalar(u));
    }
}

/// In valid UTF-8 every offset that touches an ASCII byte is a cut.
pub proof fn lemma_cut_ascii_adjacent(s: Seq<u8>, q: int)
    requires
        valid_utf8(s),
        ascii_adjacent(s, q),
    ensures
        cut(s, q),
{
    if 0 <= q < s.len() && s[q] < 0x80 {
    } else {
        lemma_cut_after_ascii(s, q - 1);
    }
}

proof fn lemma_prefix_boundary(u: Seq<u8>, t: Seq<u8>)
    requires
        valid_utf8(u),
        valid_utf8(t),
        has_at(u, 0, t),
    ensures
        is_char_boundary(u, t.len() as int),
    decreases t.len(),
{
    if t.len() > 0 {
        assert(forall|i: int| 0 <= i < t.len() ==> t[i] == u.subrange(0, t.len() as int)[i]);
        assert(t[0] == u[0]);
        let k = length_of_first_scalar(t);
        assert(k == length_of_first_scalar(u));
        assert(k <= t.len());
        let t1 = pop_first_scalar(t);
        let u1 = pop_first_scalar(u);
        assert(valid_first_scalar(u)) by {
            if u.len() > 1 {
                assert(t.len() > 1 ==> t[1] == u[1]);
            }
            if u.len() > 2 {
                assert(t.len() > 2 ==> t[2] == u[2]);
            }
            if u.len() > 3 {
                assert(t.len() > 3 ==> t[3] == u[3]);
            }
        }
        assert(u1.subrange(0, t1.len() as int) =~= t1) by {
            assert(forall|i: int| 0 <= i < t1.len() ==> t1[i] == t[i + k] && u1[i] == u[i + k]);
        }
        lemma_prefix_boundary(u1, t1);
    }
}

/// In valid UTF-8 the end of an occurrence of a valid text is a cut.
pub proof fn lemma_cut_after_match(s: Seq<u8>, p: int, t: Seq<u8>)
    requires
        valid_utf8(s),
        valid_utf8(t),
        has_at(s, p, t),
        t.len() > 0,
    ensures
        cut(s, p),
        cut(s, p + t.len()),
{
    assert(s[p] == s.subrange(p, p + t.len())[0]);
    assert(valid_first_scalar(t));
    assert(!is_continuation_byte(s[p]));
    lemma_cut_is_boundary(s, p);
    valid_utf8_split(s, p);
    let u = s.subrange(p, s.len() as int);
    assert(u.subrange(0, t.len() as int) =~= s.subrange(p, p + t.len()));
    lemma_prefix_boundary(u, t);
    if p + t.len() < s.len() {
        is_char_boundary_iff_not_is_continuation_byte(u, t.len() as int);
        assert(u[t.len() as int] == s[p + t.len()]);
    }
}

/// The number of bytes of `s`.
pub fn byte_len(s: &str) -> (n: usize)
    ensures
        n == utf8(s@).len(),
{
    s.as_bytes().len()
}

/// The part of `s` between the byte offsets `from` and `to`.
pub fn substr<'a>(s: &'a str, from: usize, to: usize) -> (r: &'a str)
    requires
        from <= to <= utf8(s@).len(),
        cut(utf8(s@), from as int),
        cut(utf8(s@), to as int),
    ensures
        utf8(r@) == utf8(s@).subrange(from as int, to as int),
{
    proof {
        encode_utf8_valid_utf8(s@);
        lemma_cut_is_boundary(utf8(s@), from as int);
        lemma_cut_is_boundary(utf8(s@), to as int);
    }
    let (head, _) = s.split_at(to);
    proof {
        let b = utf8(s@);
        let h = head.spec_bytes();
        encode_utf8_valid_utf8(head@);
        assert(h == b.subrange(0, to as int));
        if from < to {
            is_char_boundary_iff_not_is_continuation_byte(b, from as int);
            is_char_boundary_iff_not_is_continuation_byte(h, from as int);
        } else {
            is_char_boundary_start_end_of_seq(h);
        }
    }
    let (_, r) = head.split_at(from);
    proof {
        assert(utf8(s@).subrange(0, to as int).subrange(from as int, to as int) =~= utf8(
            s@,
        ).subrange(from as int, to as int));
    }
    r
}

/// Whether `t` stands in `s` at offset `p`.
pub fn starts_at(s: &[u8], p: usize, t: &[u8]) -> (b: bool)
    ensures
        b == has_at(s@, p as int, t@),
{
    if p > s.len() || t.len() > s.len() - p {
        return false;
    }
    let mut i: usize = 0;
    while i < t.len()
        invariant
            p + t.len() <= s.len(),
            i <= t.len(),
            forall|j: int| 0 <= j < i ==> s@[p + j] == t@[j],
        decreases t.len() - i,
    {
        if s[p + i] != t[i] {
            proof {
                assert(s@.subrange(p as int, p + t.len())[i as int] == s@[p + i]);
            }
            return false;
        }
        i += 1;
    }
    proof {
        assert(s@.subrange(p as int, p + t.len()) =~= t@);
    }
    true
}

/// Whether two byte strings are equal.
pub fn same_bytes(a: &[u8], b: &[u8]) -> (r: bool)
    ensures
        r == (a@ == b@),
{
    if a.len() != b.len() {
        return false;
    }
    let r = starts_at(a, 0, b);
    proof {
        assert(a@.subrange(0, a@.len() as int) =~= a@);
    }
    r
}

/// Whether two texts are equal.
pub fn same_text(a: &str, b: &str) -> (r: bool)
    ensures
        r == (utf8(a@) == utf8(b@)),
        r == (a@ == b@),
{
    let r = same_bytes(a.as_bytes(), b.as_bytes());
    proof {
        if r {
            lemma_utf8_injective(a@, b@);
        }
    }
    r
}

} // verus!
