//! Byte-level text utilities shared by the translator and the decoder:
//! whitespace trimming, byte-order-mark stripping, byte search, and the
//! splitting of a document into physical lines.

use vstd::prelude::*;

verus! {

/// ASCII `\n`.
pub const NL: u8 = 10;

/// ASCII space.
pub const SP: u8 = 32;

/// ASCII `#`.
pub const HASH: u8 = 35;

/// ASCII `"`.
pub const QUOTE: u8 = 34;

/// ASCII `-`.
pub const DASH: u8 = 45;

/// ASCII `.`.
pub const DOT: u8 = 46;

/// ASCII `0`.
pub const D0: u8 = 48;

/// ASCII `9`.
pub const D9: u8 = 57;

/// ASCII `=`.
pub const EQ: u8 = 61;

/// ASCII `[`.
pub const LBRACKET: u8 = 91;

/// ASCII `\`.
pub const BACKSLASH: u8 = 92;

/// ASCII `]`.
pub const RBRACKET: u8 = 93;

/// ASCII `_`.
pub const UNDERSCORE: u8 = 95;

/// The ASCII digit bytes.
pub open spec fn is_digit(b: u8) -> bool {
    D0 <= b <= D9
}

/// The ASCII whitespace bytes (space, tab, line feed, form feed,
/// carriage return).
pub open spec fn is_ws(b: u8) -> bool {
    b == 32 || b == 9 || b == 10 || b == 12 || b == 13
}

/// `s` without its leading whitespace.
pub open spec fn trim_start_s(s: Seq<u8>) -> Seq<u8>
    decreases s.len(),
{
    if s.len() > 0 && is_ws(s[0]) {
        trim_start_s(s.subrange(1, s.len() as int))
    } else {
        s
    }
}

/// `s` without its trailing whitespace.
pub open spec fn trim_end_s(s: Seq<u8>) -> Seq<u8>
    decreases s.len(),
{
    if s.len() > 0 && is_ws(s.last()) {
        trim_end_s(s.drop_last())
    } else {
        s
    }
}

/// `s` without leading and trailing whitespace.
pub open spec fn trim_s(s: Seq<u8>) -> Seq<u8> {
    trim_end_s(trim_start_s(s))
}

/// `s` without any leading UTF-8 byte-order marks (`EF BB BF`).
pub open spec fn strip_bom_s(s: Seq<u8>) -> Seq<u8>
    decreases s.len(),
{
    if s.len() >= 3 && s[0] == 0xefu8 && s[1] == 0xbbu8 && s[2] == 0xbfu8 {
        strip_bom_s(s.subrange(3, s.len() as int))
    } else {
        s
    }
}

/// The index of the first occurrence of `b` in `s`, or `s.len()` if there
/// is none.
pub open spec fn find_byte_s(s: Seq<u8>, b: u8) -> int
    decreases s.len(),
{
    if s.len() == 0 {
        0
    } else if s[0] == b {
        0
    } else {
        1 + find_byte_s(s.subrange(1, s.len() as int), b)
    }
}

pub proof fn lemma_find_byte(s: Seq<u8>, b: u8)
    ensures
        0 <= find_byte_s(s, b) <= s.len(),
        find_byte_s(s, b) < s.len() ==> s[find_byte_s(s, b)] == b,
        forall|j: int| 0 <= j < find_byte_s(s, b) ==> s[j] != b,
    decreases s.len(),
{
    if s.len() > 0 && s[0] != b {
        let sub = s.subrange(1, s.len() as int);
        lemma_find_byte(sub, b);
        assert forall|j: int| 0 <= j < find_byte_s(s, b) implies s[j] != b by {
            if j > 0 {
                assert(sub[j - 1] != b);
            }
        }
    }
}

pub fn is_ws_byte(b: u8) -> (r: bool)
    ensures
        r == is_ws(b),
{
    b == 32 || b == 9 || b == 10 || b == 12 || b == 13
}

pub fn trim(s: &[u8]) -> (r: &[u8])
    ensures
        r@ == trim_s(s@),
{
    let mut lo: usize = 0;
    let len: usize = s.len();
    proof {
        assert(s@.subrange(0, len as int) =~= s@);
    }
    while lo < len && is_ws_byte(s[lo])
        invariant
            0 <= lo <= len == s@.len(),
            trim_start_s(s@) == trim_start_s(s@.subrange(lo as int, len as int)),
        decreases len - lo,
    {
        proof {
            assert(s@.subrange(lo as int, len as int).subrange(1, (len - lo) as int) =~= s@
                .subrange(lo as int + 1, len as int));
        }
        lo = lo + 1;
    }
    proof {
        assert(trim_start_s(s@) == s@.subrange(lo as int, len as int));
    }
    let mut hi: usize = len;
    while hi > lo && is_ws_byte(s[hi - 1])
        invariant
            0 <= lo <= hi <= len == s@.len(),
            trim_end_s(s@.subrange(lo as int, len as int)) == trim_end_s(
                s@.subrange(lo as int, hi as int),
            ),
        decreases hi,
    {
        proof {
            assert(s@.subrange(lo as int, hi as int).drop_last() =~= s@.subrange(
                lo as int,
                hi as int - 1,
            ));
        }
        hi = hi - 1;
    }
    &s[lo..hi]
}

pub fn strip_bom(s: &[u8]) -> (r: &[u8])
    ensures
        r@ == strip_bom_s(s@),
{
    let mut lo: usize = 0;
    let len: usize = s.len();
    proof {
        assert(s@.subrange(0, len as int) =~= s@);
    }
    while len - lo >= 3 && s[lo] == 0xefu8 && s[lo + 1] == 0xbbu8 && s[lo + 2] == 0xbfu8
        invariant
            0 <= lo <= len == s@.len(),
            strip_bom_s(s@) == strip_bom_s(s@.subrange(lo as int, len as int)),
        decreases len - lo,
    {
        proof {
            assert(s@.subrange(lo as int, len as int).subrange(3, (len - lo) as int) =~= s@
                .subrange(lo as int + 3, len as int));
        }
        lo = lo + 3;
    }
    &s[lo..len]
}

pub fn find_byte(s: &[u8], b: u8) -> (r: usize)
    ensures
        r as int == find_byte_s(s@, b),
{
    let len: usize = s.len();
    let mut i: usize = 0;
    while i < len && s[i] != b
        invariant
            0 <= i <= len == s@.len(),
            forall|j: int| 0 <= j < i ==> s@[j] != b,
        decreases len - i,
    {
        i = i + 1;
    }
    proof {
        lemma_find_byte(s@, b);
    }
    i
}

/// Whether two byte slices hold the same bytes.
pub fn bytes_eq(a: &[u8], b: &[u8]) -> (r: bool)
    ensures
        r == (a@ == b@),
{
    if a.len() != b.len() {
        return false;
    }
    let len: usize = a.len();
    let mut i: usize = 0;
    while i < len
        invariant
            0 <= i <= len == a@.len() == b@.len(),
            forall|j: int| 0 <= j < i ==> a@[j] == b@[j],
        decreases len - i,
    {
        if a[i] != b[i] {
            return false;
        }
        i = i + 1;
    }
    proof {
        assert(a@ =~= b@);
    }
    true
}

/// Appends every byte of `s` to `out`.
pub fn push_bytes(out: &mut Vec<u8>, s: &[u8])
    ensures
        final(out)@ == old(out)@ + s@,
{
    let len: usize = s.len();
    let mut i: usize = 0;
    while i < len
        invariant
            0 <= i <= len == s@.len(),
            out@ == old(out)@ + s@.take(i as int),
        decreases len - i,
    {
        out.push(s[i]);
        proof {
            assert(s@.take(i as int + 1) =~= s@.take(i as int).push(s@[i as int]));
        }
        i = i + 1;
    }
    proof {
        assert(s@.take(len as int) =~= s@);
    }
}

pub fn trim_start(s: &[u8]) -> (r: &[u8])
    ensures
        r@ == trim_start_s(s@),
{
    let mut lo: usize = 0;
    let len: usize = s.len();
    proof {
        assert(s@.subrange(0, len as int) =~= s@);
    }
    while lo < len && is_ws_byte(s[lo])
        invariant
            0 <= lo <= len == s@.len(),
            trim_start_s(s@) == trim_start_s(s@.subrange(lo as int, len as int)),
        decreases len - lo,
    {
        proof {
            assert(s@.subrange(lo as int, len as int).subrange(1, (len - lo) as int) =~= s@
                .subrange(lo as int + 1, len as int));
        }
        lo = lo + 1;
    }
    &s[lo..len]
}

pub fn trim_end(s: &[u8]) -> (r: &[u8])
    ensures
        r@ == trim_end_s(s@),
{
    let mut hi: usize = s.len();
    proof {
        assert(s@.subrange(0, s@.len() as int) =~= s@);
    }
    while hi > 0 && is_ws_byte(s[hi - 1])
        invariant
            0 <= hi <= s@.len(),
            trim_end_s(s@) == trim_end_s(s@.subrange(0, hi as int)),
        decreases hi,
    {
        proof {
            assert(s@.subrange(0, hi as int).drop_last() =~= s@.subrange(0, hi as int - 1));
        }
        hi = hi - 1;
    }
    proof {
        assert(s@.subrange(0, s@.len() as int) =~= s@);
    }
    &s[0..hi]
}

/// The physical lines of a document: the pieces between `\n` bytes, with no
/// empty piece after a final `\n`.
pub open spec fn lines_of(t: Seq<u8>) -> Seq<Seq<u8>>
    decreases t.len(),
    via lines_of_decreases
{
    if t.len() == 0 {
        Seq::empty()
    } else {
        let i = find_byte_s(t, NL);
        if i == t.len() {
            seq![t]
        } else {
            seq![t.take(i)] + lines_of(t.subrange(i + 1, t.len() as int))
        }
    }
}

#[via_fn]
proof fn lines_of_decreases(t: Seq<u8>) {
    lemma_find_byte(t, NL);
}

/// A document has no more lines than bytes.
pub proof fn lemma_lines_of_len(t: Seq<u8>)
    ensures
        lines_of(t).len() <= t.len(),
    decreases t.len(),
{
    if t.len() > 0 {
        lemma_find_byte(t, NL);
        let i = find_byte_s(t, NL);
        if i < t.len() {
            lemma_lines_of_len(t.subrange(i + 1, t.len() as int));
        }
    }
}

} // verus!
