//! Scalar values of the canonical structured document: a bare decimal
//! integer or a quoted, backslash-escaped string, together with their
//! grammar and the proof that encoding a directive value and decoding it
//! back returns the original value.

use vstd::prelude::*;

use crate::ini_to_toml::{encode_value, escape_s, is_numeric_value};
use crate::text::{is_digit, BACKSLASH, D0, D9, DASH, QUOTE};

verus! {

/// A decoded scalar: a 64-bit integer or a byte string.
#[derive(Debug, Clone, PartialEq, Eq)]
pub enum Scalar {
    Int(i64),
    Str(Vec<u8>),
}

/// The mathematical value of a [`Scalar`].
pub enum ScalarV {
    Int(int),
    Str(Seq<u8>),
}

impl View for Scalar {
    type V = ScalarV;

    open spec fn view(&self) -> ScalarV {
        match self {
            Scalar::Int(n) => ScalarV::Int(*n as int),
            Scalar::Str(s) => ScalarV::Str(s@),
        }
    }
}

/// The value of a digit sequence read as a decimal number.
pub open spec fn digits_val(ds: Seq<u8>) -> int
    decreases ds.len(),
{
    if ds.len() == 0 {
        0
    } else {
        digits_val(ds.drop_last()) * 10 + (ds.last() - D0)
    }
}

/// Whether every byte of `ds` is an ASCII digit.
pub open spec fn all_digits(ds: Seq<u8>) -> bool {
    forall|i: int| 0 <= i < ds.len() ==> is_digit(ds[i])
}

/// Ten to the `n`.
pub open spec fn pow10(n: nat) -> int
    decreases n,
{
    if n == 0 {
        1
    } else {
        10 * pow10((n - 1) as nat)
    }
}

pub proof fn lemma_pow10_19()
    ensures
        pow10(18) == 1000000000000000000,
        pow10(19) == 10000000000000000000,
        forall|a: nat, b: nat| a <= b ==> #[trigger] pow10(a) <= #[trigger] pow10(b),
{
    reveal_with_fuel(pow10, 21);
    assert(pow10(18) == 1000000000000000000);
    assert(pow10(19) == 10000000000000000000);
    assert forall|a: nat, b: nat| a <= b implies #[trigger] pow10(a) <= #[trigger] pow10(b) by {
        lemma_pow10_mono(a, b);
    }
}

pub proof fn lemma_pow10_mono(a: nat, b: nat)
    ensures
        a <= b ==> pow10(a) <= pow10(b),
        pow10(a) >= 1,
    decreases b,
{
    lemma_pow10_mono_ge(a);
    if a <= b && b > 0 {
        lemma_pow10_mono(a, (b - 1) as nat);
        lemma_pow10_mono_ge((b - 1) as nat);
    }
}

proof fn lemma_pow10_mono_ge(a: nat)
    ensures
        pow10(a) >= 1,
    decreases a,
{
    if a > 0 {
        lemma_pow10_mono_ge((a - 1) as nat);
    }
}

/// A digit sequence's value is bounded by ten to its length.
pub proof fn lemma_digits_val_bound(ds: Seq<u8>)
    requires
        all_digits(ds),
    ensures
        0 <= digits_val(ds) < pow10(ds.len() as nat),
    decreases ds.len(),
{
    if ds.len() > 0 {
        assert(all_digits(ds.drop_last()));
        lemma_digits_val_bound(ds.drop_last());
    }
}

/// A digit sequence that does not start with `0` has a value of at least
/// ten to one less than its length.
pub proof fn lemma_digits_val_lower(ds: Seq<u8>)
    requires
        all_digits(ds),
        ds.len() >= 1,
        ds[0] != D0,
    ensures
        digits_val(ds) >= pow10((ds.len() - 1) as nat),
    decreases ds.len(),
{
    if ds.len() == 1 {
        assert(digits_val(Seq::<u8>::empty()) == 0);
        assert(ds.drop_last() =~= Seq::<u8>::empty());
        assert(is_digit(ds[0]));
        assert(digits_val(ds) == ds[0] - D0);
    } else {
        assert(all_digits(ds.drop_last()));
        assert(ds.drop_last()[0] == ds[0]);
        assert(is_digit(ds.last()));
        lemma_digits_val_lower(ds.drop_last());
    }
}

/// The decimal digits of a non-negative number.
pub open spec fn dec_u_s(n: nat) -> Seq<u8>
    decreases n,
{
    if n < 10 {
        seq![(D0 + n) as u8]
    } else {
        dec_u_s((n / 10) as nat).push((D0 + n % 10) as u8)
    }
}

/// The decimal rendering of an integer, with a leading `-` when negative.
pub open spec fn int_render(m: int) -> Seq<u8> {
    if m < 0 {
        seq![DASH] + dec_u_s((-m) as nat)
    } else {
        dec_u_s(m as nat)
    }
}

/// How a decoded scalar is typed back to the directive text it stands for.
pub open spec fn render_scalar(s: ScalarV) -> Seq<u8> {
    match s {
        ScalarV::Int(n) => int_render(n),
        ScalarV::Str(t) => t,
    }
}

/// Rendering the value of a canonical digit sequence (non-empty, digits
/// only, no leading zero unless it is `0` itself) yields that sequence.
pub proof fn lemma_dec_u_digits_val(ds: Seq<u8>)
    requires
        all_digits(ds),
        ds.len() >= 1,
        ds[0] != D0 || ds.len() == 1,
    ensures
        dec_u_s(digits_val(ds) as nat) == ds,
    decreases ds.len(),
{
    lemma_digits_val_bound(ds);
    if ds.len() == 1 {
        assert(digits_val(Seq::<u8>::empty()) == 0);
        assert(ds.drop_last() =~= Seq::<u8>::empty());
        assert(digits_val(ds) == digits_val(ds.drop_last()) * 10 + (ds.last() - D0));
        assert(digits_val(ds) == ds[0] - D0);
        assert(dec_u_s((ds[0] - D0) as nat) =~= ds);
    } else {
        let dsp = ds.drop_last();
        assert(all_digits(dsp));
        lemma_dec_u_digits_val(dsp);
        lemma_digits_val_lower(dsp);
        lemma_pow10_mono(0, (dsp.len() - 1) as nat);
        let vp = digits_val(dsp);
        let d = ds.last() - D0;
        let n = digits_val(ds);
        assert(n == vp * 10 + d);
        assert(vp >= 1);
        assert(n >= 10);
        assert(n / 10 == vp && n % 10 == d) by (nonlinear_arith)
            requires
                n == vp * 10 + d,
                0 <= d < 10,
                vp >= 1,
        ;
        assert(dec_u_s(n as nat) == dec_u_s(vp as nat).push((D0 + d) as u8));
        assert((D0 + d) as u8 == ds.last());
        assert(dec_u_s(vp as nat).push(ds.last()) =~= ds);
    }
}

/// The integer that a bare canonical literal denotes: an optional `-`, then
/// 1 to 19 digits with no leading zero (unless the literal is `0`), the
/// whole fitting a 64-bit signed integer.
pub open spec fn parse_int_s(v: Seq<u8>) -> Option<int> {
    let neg = v.len() > 0 && v[0] == DASH;
    let ds = if neg {
        v.subrange(1, v.len() as int)
    } else {
        v
    };
    if !(1 <= ds.len() <= 19) {
        None
    } else if !all_digits(ds) {
        None
    } else if ds[0] == D0 && ds.len() > 1 {
        None
    } else {
        let m = if neg {
            -digits_val(ds)
        } else {
            digits_val(ds)
        };
        if i64::MIN <= m <= i64::MAX {
            Some(m)
        } else {
            None
        }
    }
}

/// Parses a bare canonical integer literal.
pub fn parse_int(v: &[u8]) -> (r: Option<i64>)
    ensures
        match r {
            Some(n) => parse_int_s(v@) == Some(n as int),
            None => parse_int_s(v@) is None,
        },
{
    let len = v.len();
    let neg = len > 0 && v[0] == DASH;
    let start: usize = if neg {
        1
    } else {
        0
    };
    let ghost ds = if neg {
        v@.subrange(1, len as int)
    } else {
        v@
    };
    proof {
        if !neg {
            assert(ds =~= v@.subrange(0, len as int));
        }
    }
    let nd = len - start;
    if nd == 0 || nd > 19 {
        return None;
    }
    if v[start] == D0 && nd > 1 {
        proof {
            assert(ds[0] == v@[start as int]);
        }
        return None;
    }
    proof {
        lemma_pow10_19();
    }
    let mut mag: u64 = 0;
    let mut i = start;
    while i < len
        invariant
            start <= i <= len == v@.len(),
            start + 1 <= len,
            len - start <= 19,
            neg == (v@.len() > 0 && v@[0] == DASH),
            start == if neg {
                1usize
            } else {
                0usize
            },
            ds == if neg {
                v@.subrange(1, len as int)
            } else {
                v@
            },
            ds == v@.subrange(start as int, len as int),
            !(ds[0] == D0 && ds.len() > 1),
            forall|j: int| start <= j < i ==> is_digit(v@[j]),
            mag == digits_val(v@.subrange(start as int, i as int)),
            mag < pow10((i - start) as nat),
            pow10(18) == 1000000000000000000,
            pow10(19) == 10000000000000000000,
            forall|a: nat, b: nat| a <= b ==> #[trigger] pow10(a) <= #[trigger] pow10(b),
        decreases len - i,
    {
        let b = v[i];
        if !(D0 <= b && b <= D9) {
            proof {
                assert(ds[i - start] == v@[i as int]);
                assert(!all_digits(ds));
            }
            return None;
        }
        proof {
            assert(pow10((i - start) as nat) <= pow10(18));
            assert(v@.subrange(start as int, i as int + 1).drop_last() =~= v@.subrange(
                start as int,
                i as int,
            ));
            assert(v@.subrange(start as int, i as int + 1).last() == v@[i as int]);
        }
        mag = mag * 10 + ((b - D0) as u64);
        i = i + 1;
    }
    proof {
        assert(v@.subrange(start as int, len as int) == ds);
        assert(mag == digits_val(ds));
        assert(all_digits(ds));
        lemma_digits_val_bound(ds);
    }
    if neg {
        if mag <= 0x7fff_ffff_ffff_ffffu64 {
            Some(-(mag as i64))
        } else if mag == 0x8000_0000_0000_0000u64 {
            Some(i64::MIN)
        } else {
            None
        }
    } else {
        if mag <= 0x7fff_ffff_ffff_ffffu64 {
            Some(mag as i64)
        } else {
            None
        }
    }
}

/// The decimal digits of `n`.
pub fn u64_to_dec(n: u64) -> (r: Vec<u8>)
    ensures
        r@ == dec_u_s(n as nat),
    decreases n,
{
    if n < 10 {
        let mut r: Vec<u8> = Vec::new();
        r.push(D0 + (n as u8));
        proof {
            assert(r@ =~= dec_u_s(n as nat));
        }
        r
    } else {
        let mut r = u64_to_dec(n / 10);
        r.push(D0 + ((n % 10) as u8));
        r
    }
}

/// The decimal rendering of `n`, with a leading `-` when negative.
pub fn i64_to_dec(n: i64) -> (r: Vec<u8>)
    ensures
        r@ == int_render(n as int),
{
    if n >= 0 {
        u64_to_dec(n as u64)
    } else {
        let mag: u64 = if n == i64::MIN {
            0x8000_0000_0000_0000u64
        } else {
            (-n) as u64
        };
        let mut r: Vec<u8> = Vec::new();
        r.push(DASH);
        let tail = u64_to_dec(mag);
        crate::text::push_bytes(&mut r, tail.as_slice());
        proof {
            assert(r@ =~= seq![DASH] + dec_u_s(mag as nat));
        }
        r
    }
}

/// The string a quoted canonical literal denotes: each `\\` reads back as
/// one backslash; a stray backslash or an unescaped quote is malformed.
pub open spec fn unescape_s(s: Seq<u8>) -> Option<Seq<u8>>
    decreases s.len(),
{
    if s.len() == 0 {
        Some(Seq::empty())
    } else if s[0] == BACKSLASH {
        if s.len() >= 2 && s[1] == BACKSLASH {
            match unescape_s(s.subrange(2, s.len() as int)) {
                Some(t) => Some(seq![BACKSLASH] + t),
                None => None,
            }
        } else {
            None
        }
    } else if s[0] == QUOTE {
        None
    } else {
        match unescape_s(s.subrange(1, s.len() as int)) {
            Some(t) => Some(seq![s[0]] + t),
            None => None,
        }
    }
}

/// Reads back a quoted literal's inner bytes.
pub fn unescape(s: &[u8]) -> (r: Option<Vec<u8>>)
    ensures
        match r {
            Some(out) => unescape_s(s@) == Some(out@),
            None => unescape_s(s@) is None,
        },
{
    let len = s.len();
    let mut out: Vec<u8> = Vec::new();
    let mut i: usize = 0;
    proof {
        assert(s@.subrange(0, len as int) =~= s@);
    }
    while i < len
        invariant
            0 <= i <= len == s@.len(),
            unescape_s(s@) == match unescape_s(s@.subrange(i as int, len as int)) {
                Some(t) => Some(out@ + t),
                None => None::<Seq<u8>>,
            },
        decreases len - i,
    {
        let ghost tail = s@.subrange(i as int, len as int);
        let b = s[i];
        if b == BACKSLASH {
            if i + 1 < len && s[i + 1] == BACKSLASH {
                proof {
                    assert(tail.subrange(2, tail.len() as int) =~= s@.subrange(
                        i as int + 2,
                        len as int,
                    ));
                }
                out.push(BACKSLASH);
                i = i + 2;
            } else {
                proof {
                    if i + 1 < len {
                        assert(tail.len() >= 2 && tail[1] != BACKSLASH);
                    } else {
                        assert(tail.len() == 1);
                    }
                    assert(unescape_s(tail) is None);
                }
                return None;
            }
        } else if b == QUOTE {
            return None;
        } else {
            proof {
                assert(tail.subrange(1, tail.len() as int) =~= s@.subrange(
                    i as int + 1,
                    len as int,
                ));
            }
            out.push(b);
            i = i + 1;
        }
    }
    proof {
        assert(s@.subrange(len as int, len as int) =~= Seq::<u8>::empty());
        assert(out@ + Seq::<u8>::empty() =~= out@);
    }
    Some(out)
}

/// The scalar a canonical value literal denotes: a quoted literal reads as
/// a string, anything else must be a canonical integer literal.
pub open spec fn decode_value_s(v: Seq<u8>) -> Option<ScalarV> {
    if v.len() > 0 && v[0] == QUOTE {
        if v.len() >= 2 && v.last() == QUOTE {
            match unescape_s(v.subrange(1, v.len() - 1)) {
                Some(t) => Some(ScalarV::Str(t)),
                None => None,
            }
        } else {
            None
        }
    } else {
        match parse_int_s(v) {
            Some(n) => Some(ScalarV::Int(n)),
            None => None,
        }
    }
}

/// Escaping distributes over concatenation.
pub proof fn lemma_escape_append(a: Seq<u8>, b: Seq<u8>)
    ensures
        escape_s(a + b) == escape_s(a) + escape_s(b),
    decreases b.len(),
{
    if b.len() == 0 {
        assert(a + b =~= a);
        assert(escape_s(a) + escape_s(b) =~= escape_s(a));
    } else {
        let bp = b.drop_last();
        lemma_escape_append(a, bp);
        assert((a + b).drop_last() =~= a + bp);
        assert((a + b).last() == b.last());
        assert(escape_s(a + b) =~= escape_s(a) + escape_s(b));
    }
}

/// Reading back an escaped string that held no quote yields the original.
pub proof fn lemma_unescape_escape(v: Seq<u8>)
    requires
        forall|i: int| 0 <= i < v.len() ==> v[i] != QUOTE,
    ensures
        unescape_s(escape_s(v)) == Some(v),
    decreases v.len(),
{
    if v.len() == 0 {
        assert(unescape_s(escape_s(v)) == Some(Seq::<u8>::empty()));
        assert(Seq::<u8>::empty() =~= v);
    } else {
        let rest = v.subrange(1, v.len() as int);
        assert(v =~= seq![v[0]] + rest);
        lemma_escape_append(seq![v[0]], rest);
        assert(seq![v[0]].drop_last() =~= Seq::<u8>::empty());
        assert(escape_s(Seq::<u8>::empty()) + (if v[0] == BACKSLASH {
            seq![BACKSLASH, BACKSLASH]
        } else {
            seq![v[0]]
        }) =~= (if v[0] == BACKSLASH {
            seq![BACKSLASH, BACKSLASH]
        } else {
            seq![v[0]]
        }));
        lemma_unescape_escape(rest);
        let e = escape_s(v);
        if v[0] == BACKSLASH {
            assert(e == seq![BACKSLASH, BACKSLASH] + escape_s(rest));
            assert(e.subrange(2, e.len() as int) =~= escape_s(rest));
            assert(unescape_s(e) == Some(seq![BACKSLASH] + rest));
            assert(seq![BACKSLASH] + rest =~= v);
        } else {
            assert(e == seq![v[0]] + escape_s(rest));
            assert(e.subrange(1, e.len() as int) =~= escape_s(rest));
            assert(unescape_s(e) == Some(seq![v[0]] + rest));
            assert(seq![v[0]] + rest =~= v);
        }
    }
}

/// Whether a value that the numeric-typing rule classifies as numeric is a
/// canonical integer literal: an optional `-` (of a non-zero number), then
/// digits with no leading zero, denoting a value that fits 64 signed bits.
pub open spec fn is_canonical_int(v: Seq<u8>) -> bool {
    let neg = v.len() > 0 && v[0] == DASH;
    let ds = if neg {
        v.subrange(1, v.len() as int)
    } else {
        v
    };
    &&& 1 <= ds.len() <= 19
    &&& all_digits(ds)
    &&& (ds[0] != D0 || ds.len() == 1)
    &&& (neg ==> digits_val(ds) >= 1)
    &&& i64::MIN <= (if neg {
        -digits_val(ds)
    } else {
        digits_val(ds)
    }) <= i64::MAX
}

/// Round trip: a directive value that the translator encodes — provided it
/// is a canonical integer when the numeric-typing rule applies, and holds
/// no quote otherwise — decodes to a scalar that renders back to the
/// original value.
pub proof fn lemma_value_round_trip(v: Seq<u8>)
    requires
        is_numeric_value(v) ==> is_canonical_int(v),
        !is_numeric_value(v) ==> forall|i: int| 0 <= i < v.len() ==> v[i] != QUOTE,
    ensures
        decode_value_s(encode_value(v)) matches Some(sc) && render_scalar(sc) == v,
{
    if is_numeric_value(v) {
        let neg = v.len() > 0 && v[0] == DASH;
        let ds = if neg {
            v.subrange(1, v.len() as int)
        } else {
            v
        };
        let m = if neg {
            -digits_val(ds)
        } else {
            digits_val(ds)
        };
        lemma_digits_val_bound(ds);
        assert(encode_value(v) == v);
        assert(v[0] != QUOTE);
        assert(parse_int_s(v) == Some(m));
        assert(decode_value_s(v) == Some(ScalarV::Int(m)));
        lemma_dec_u_digits_val(ds);
        if neg {
            assert(m < 0);
            assert((-m) as nat == digits_val(ds) as nat);
            assert(int_render(m) == seq![DASH] + ds);
            assert(seq![DASH] + ds =~= v);
        } else {
            assert(m >= 0);
            assert(int_render(m) == ds);
        }
    } else {
        let e = encode_value(v);
        assert(e == seq![QUOTE] + escape_s(v) + seq![QUOTE]);
        assert(e[0] == QUOTE);
        assert(e.last() == QUOTE);
        assert(e.len() >= 2);
        assert(e.subrange(1, e.len() - 1) =~= escape_s(v));
        lemma_unescape_escape(v);
        assert(decode_value_s(e) == Some(ScalarV::Str(v)));
    }
}

/// Decodes one canonical value literal.
pub fn decode_value(v: &[u8]) -> (r: Option<Scalar>)
    ensures
        match r {
            Some(sc) => decode_value_s(v@) == Some(sc@),
            None => decode_value_s(v@) is None,
        },
{
    let len = v.len();
    if len > 0 && v[0] == QUOTE {
        if len >= 2 && v[len - 1] == QUOTE {
            match unescape(&v[1..len - 1]) {
                Some(t) => Some(Scalar::Str(t)),
                None => None,
            }
        } else {
            None
        }
    } else {
        match parse_int(v) {
            Some(n) => Some(Scalar::Int(n)),
            None => None,
        }
    }
}

} // verus!
