//! The dialect translator: rewrites one source-dialect document (bracketed
//! sections of `Key = Value` directives, `#` comments) into a canonical
//! structured-document text with one array-of-tables header per section and
//! one `key=value` assignment per directive.
//!
//! Per physical line: leading byte-order marks are stripped and the line is
//! trimmed; a trailing `#` comment is split off; empty lines are skipped; a
//! line starting with `[` must end with `]` and name a non-empty section; any
//! other line must hold a `=` separator. Keys have every `.` replaced by `_`.
//! A value is emitted as a bare numeric literal exactly when it is `0`, or
//! when it does not start with `0`, is 1 to 19 bytes long, and holds only
//! ASCII digits and `-`; every other value (leading zeros included, which
//! are significant) is emitted as a quoted string with backslashes doubled.

use vstd::prelude::*;

use crate::errors::ProtoError;
use crate::text::{
    find_byte, find_byte_s, is_digit, lines_of, strip_bom, strip_bom_s, trim, trim_end,
    trim_end_s, trim_s, trim_start, trim_start_s, BACKSLASH, D0, D9, DASH, DOT, EQ, HASH,
    LBRACKET, NL, QUOTE, RBRACKET, SP, UNDERSCORE,
};

verus! {

/// What can go wrong on one line of the source dialect.
#[derive(Clone, Copy, Debug, PartialEq, Eq, Structural)]
pub enum LineErr {
    /// A bracket header that does not end in `]` or is shorter than 3 bytes.
    Section,
    /// A directive line without `=`.
    Separator,
}

/// The translator's numeric-typing rule: a value is rendered as a bare
/// numeric literal iff it is exactly `0`, or it does not start with `0`,
/// is 1 to 19 bytes long, and holds only ASCII digits and `-`.
pub open spec fn is_numeric_value(v: Seq<u8>) -> bool {
    v == seq![D0] || (!(v.len() > 0 && v[0] == D0) && v.len() > 0 && v.len() < 20 && (forall|
        i: int,
    |
        0 <= i < v.len() ==> v[i] == DASH || is_digit(v[i])))
}

/// `v` with every backslash doubled.
pub open spec fn escape_s(v: Seq<u8>) -> Seq<u8>
    decreases v.len(),
{
    if v.len() == 0 {
        Seq::empty()
    } else {
        escape_s(v.drop_last()) + (if v.last() == BACKSLASH {
            seq![BACKSLASH, BACKSLASH]
        } else {
            seq![v.last()]
        })
    }
}

/// `k` with every `.` replaced by `_`.
pub open spec fn underscore_key(k: Seq<u8>) -> Seq<u8> {
    Seq::new(k.len(), |i: int| if k[i] == DOT {
        UNDERSCORE
    } else {
        k[i]
    })
}

/// How one directive value is rendered in the canonical text: bare if the
/// numeric-typing rule classifies it as a number, quoted and
/// backslash-escaped otherwise.
pub open spec fn encode_value(v: Seq<u8>) -> Seq<u8> {
    if is_numeric_value(v) {
        v
    } else {
        seq![QUOTE] + escape_s(v) + seq![QUOTE]
    }
}

/// The canonical text that one source line contributes: nothing for a line
/// that is empty once its comment is stripped, a `[["name"]]` header for a
/// bracket line, `key=value` for a directive, each followed by the retained
/// comment (when requested) and a line feed.
pub open spec fn translate_line(line: Seq<u8>, with_comments: bool) -> Result<Seq<u8>, LineErr> {
    let l = trim_s(strip_bom_s(line));
    let i = find_byte_s(l, HASH);
    let code = trim_end_s(l.take(i));
    if code.len() == 0 {
        Ok(Seq::empty())
    } else {
        let body = if code[0] == LBRACKET {
            if code.last() == RBRACKET && code.len() >= 3 {
                Ok(seq![LBRACKET, LBRACKET, QUOTE] + code.subrange(1, code.len() - 1) + seq![QUOTE, RBRACKET, RBRACKET])
            } else {
                Err(LineErr::Section)
            }
        } else {
            let j = find_byte_s(code, EQ);
            if j == code.len() {
                Err(LineErr::Separator)
            } else {
                Ok(
                    underscore_key(trim_end_s(code.take(j))) + seq![EQ] + encode_value(
                        trim_start_s(code.subrange(j + 1, code.len() as int)),
                    ),
                )
            }
        };
        match body {
            Err(e) => Err(e),
            Ok(out) => {
                let c = if with_comments && i < l.len() {
                    seq![SP, HASH] + trim_start_s(l.subrange(i + 1, l.len() as int))
                } else {
                    Seq::<u8>::empty()
                };
                Ok(out + c + seq![NL])
            },
        }
    }
}

/// The canonical text of the first `n` lines, or the index and kind of the
/// first offending line among them.
pub open spec fn translate_prefix(lines: Seq<Seq<u8>>, with_comments: bool, n: int) -> Result<
    Seq<u8>,
    (int, LineErr),
>
    decreases n,
{
    if n <= 0 {
        Ok(Seq::empty())
    } else {
        match translate_prefix(lines, with_comments, n - 1) {
            Err(e) => Err(e),
            Ok(acc) => match translate_line(lines[n - 1], with_comments) {
                Err(k) => Err((n - 1, k)),
                Ok(o) => Ok(acc + o),
            },
        }
    }
}

/// The translation of a whole document, or the index and kind of its first
/// offending line.
pub open spec fn translate_s(t: Seq<u8>, with_comments: bool) -> Result<Seq<u8>, (int, LineErr)> {
    translate_prefix(lines_of(t), with_comments, lines_of(t).len() as int)
}

/// The error that the translator reports for the offending line `e`.
pub open spec fn translate_err(e: (int, LineErr)) -> ProtoError {
    match e.1 {
        LineErr::Section => ProtoError::MalformedSection { line: e.0 as usize },
        LineErr::Separator => ProtoError::MissingSeparator { line: e.0 as usize },
    }
}

/// Splits `s` at the first occurrence of `delimiter`: the part before it,
/// trimmed at its end, and the part after it, trimmed at its start, or
/// `None` if the delimiter does not occur.
pub fn split_until(s: &[u8], delimiter: u8) -> (r: (&[u8], Option<&[u8]>))
    ensures
        r.0@ == trim_end_s(s@.take(find_byte_s(s@, delimiter))),
        find_byte_s(s@, delimiter) < s@.len() ==> (r.1 matches Some(rest) && rest@ == trim_start_s(
            s@.subrange(find_byte_s(s@, delimiter) + 1, s@.len() as int),
        )),
        find_byte_s(s@, delimiter) == s@.len() ==> r.1 is None,
{
    let i = find_byte(s, delimiter);
    proof {
        crate::text::lemma_find_byte(s@, delimiter);
    }
    let head = trim_end(&s[0..i]);
    if i < s.len() {
        let tail = trim_start(&s[i + 1..s.len()]);
        (head, Some(tail))
    } else {
        (head, None)
    }
}

/// Whether the numeric-typing rule classifies `v` as a bare numeric literal.
pub fn is_numeric(v: &[u8]) -> (r: bool)
    ensures
        r == is_numeric_value(v@),
{
    let len = v.len();
    if len == 1 && v[0] == D0 {
        proof {
            assert(v@ =~= seq![D0]);
        }
        return true;
    }
    if len == 0 || v[0] == D0 || len >= 20 {
        proof {
            assert(v@ != seq![D0]) by {
                if v@ == seq![D0] {
                    assert(v@.len() == 1);
                    assert(v@[0] == D0);
                }
            }
        }
        return false;
    }
    let mut i: usize = 0;
    while i < len
        invariant
            0 <= i <= len == v@.len(),
            1 <= len < 20,
            v@[0] != D0,
            forall|j: int| 0 <= j < i ==> v@[j] == DASH || is_digit(v@[j]),
        decreases len - i,
    {
        let b = v[i];
        if !(b == DASH || (D0 <= b && b <= D9)) {
            proof {
                assert(v@ != seq![D0]) by {
                    if v@ == seq![D0] {
                        assert(v@[0] == D0);
                    }
                }
            }
            return false;
        }
        i = i + 1;
    }
    true
}

/// Appends `v` to `out` with every backslash doubled.
fn push_escaped(out: &mut Vec<u8>, v: &[u8])
    ensures
        final(out)@ == old(out)@ + escape_s(v@),
{
    let len = v.len();
    let mut i: usize = 0;
    while i < len
        invariant
            0 <= i <= len == v@.len(),
            out@ == old(out)@ + escape_s(v@.take(i as int)),
        decreases len - i,
    {
        let b = v[i];
        if b == BACKSLASH {
            out.push(BACKSLASH);
            out.push(BACKSLASH);
        } else {
            out.push(b);
        }
        proof {
            assert(v@.take(i as int + 1).drop_last() =~= v@.take(i as int));
            assert(v@.take(i as int + 1).last() == v@[i as int]);
        }
        i = i + 1;
    }
    proof {
        assert(v@.take(len as int) =~= v@);
    }
}

/// Appends the underscored key to `out`.
fn push_key(out: &mut Vec<u8>, k: &[u8])
    ensures
        final(out)@ == old(out)@ + underscore_key(k@),
{
    let len = k.len();
    let mut i: usize = 0;
    while i < len
        invariant
            0 <= i <= len == k@.len(),
            out@ == old(out)@ + underscore_key(k@).take(i as int),
        decreases len - i,
    {
        let b = k[i];
        if b == DOT {
            out.push(UNDERSCORE);
        } else {
            out.push(b);
        }
        proof {
            assert(underscore_key(k@).take(i as int + 1) =~= underscore_key(k@).take(
                i as int,
            ).push(underscore_key(k@)[i as int]));
        }
        i = i + 1;
    }
    proof {
        assert(underscore_key(k@).take(len as int) =~= underscore_key(k@));
    }
}

/// Translates one physical line, returning the canonical bytes it
/// contributes (empty for a skipped line).
fn translate_one(line: &[u8], with_comments: bool) -> (r: Result<Vec<u8>, LineErr>)
    ensures
        match r {
            Ok(buf) => translate_line(line@, with_comments) == Ok::<Seq<u8>, LineErr>(buf@),
            Err(k) => translate_line(line@, with_comments) == Err::<Seq<u8>, LineErr>(k),
        },
{
    let l = trim(strip_bom(line));
    let (code, comment) = split_until(l, HASH);
    proof {
        crate::text::lemma_find_byte(l@, HASH);
    }
    let mut buf: Vec<u8> = Vec::new();
    if code.len() == 0 {
        return Ok(buf);
    }
    if code[0] == LBRACKET {
        if !(code[code.len() - 1] == RBRACKET && code.len() >= 3) {
            return Err(LineErr::Section);
        }
        buf.push(LBRACKET);
        buf.push(LBRACKET);
        buf.push(QUOTE);
        crate::text::push_bytes(&mut buf, &code[1..code.len() - 1]);
        buf.push(QUOTE);
        buf.push(RBRACKET);
        buf.push(RBRACKET);
        proof {
            assert(buf@ =~= seq![LBRACKET, LBRACKET, QUOTE] + code@.subrange(1, code@.len() - 1)
                + seq![QUOTE, RBRACKET, RBRACKET]);
        }
    } else {
        let (key, val) = split_until(code, EQ);
        proof {
            crate::text::lemma_find_byte(code@, EQ);
        }
        match val {
            None => {
                proof {
                    crate::text::lemma_find_byte(code@, EQ);
                }
                return Err(LineErr::Separator);
            },
            Some(val) => {
                push_key(&mut buf, key);
                buf.push(EQ);
                if is_numeric(val) {
                    crate::text::push_bytes(&mut buf, val);
                } else {
                    buf.push(QUOTE);
                    push_escaped(&mut buf, val);
                    buf.push(QUOTE);
                    proof {
                        assert(buf@ =~= underscore_key(key@) + seq![EQ] + (seq![QUOTE] + escape_s(
                            val@,
                        ) + seq![QUOTE]));
                    }
                }
                proof {
                    assert(buf@ =~= underscore_key(key@) + seq![EQ] + encode_value(val@));
                }
            },
        }
    }
    let ghost bodyv = buf@;
    proof {
        let lv = trim_s(strip_bom_s(line@));
        let i = find_byte_s(lv, HASH);
        let codev = trim_end_s(lv.take(i));
        assert(code@ == codev);
        if codev[0] == LBRACKET {
            assert(bodyv == seq![LBRACKET, LBRACKET, QUOTE] + codev.subrange(1, codev.len() - 1)
                + seq![QUOTE, RBRACKET, RBRACKET]);
        } else {
            let j = find_byte_s(codev, EQ);
            crate::text::lemma_find_byte(codev, EQ);
            assert(bodyv == underscore_key(trim_end_s(codev.take(j))) + seq![EQ] + encode_value(
                trim_start_s(codev.subrange(j + 1, codev.len() as int)),
            ));
        }
    }
    if with_comments {
        match comment {
            Some(c) => {
                buf.push(SP);
                buf.push(HASH);
                crate::text::push_bytes(&mut buf, c);
                proof {
                    assert(buf@ =~= bodyv + (seq![SP, HASH] + c@));
                }
            },
            None => {},
        }
    }
    buf.push(NL);
    proof {
        let lv = trim_s(strip_bom_s(line@));
        let i = find_byte_s(lv, HASH);
        crate::text::lemma_find_byte(lv, HASH);
        let c = if with_comments && i < lv.len() {
            seq![SP, HASH] + trim_start_s(lv.subrange(i + 1, lv.len() as int))
        } else {
            Seq::<u8>::empty()
        };
        if with_comments && i < lv.len() {
            assert(comment matches Some(cm) && cm@ == trim_start_s(
                lv.subrange(i + 1, lv.len() as int),
            ));
            assert(buf@ =~= bodyv + c + seq![NL]);
        } else {
            assert(buf@ =~= bodyv + c + seq![NL]);
        }
        assert(translate_line(line@, with_comments) == Ok::<Seq<u8>, LineErr>(buf@));
    }
    Ok(buf)
}

/// Rewrites one source-dialect document into the canonical structured
/// document, or reports the first malformed line.
pub fn translate(ini: &[u8], with_comments: bool) -> (r: Result<Vec<u8>, ProtoError>)
    ensures
        match r {
            Ok(out) => translate_s(ini@, with_comments) == Ok::<Seq<u8>, (int, LineErr)>(out@),
            Err(e) => translate_s(ini@, with_comments) matches Err(se) && e == translate_err(se),
        },
{
    let ghost glines = lines_of(ini@);
    let len = ini.len();
    let mut out: Vec<u8> = Vec::new();
    let mut pos: usize = 0;
    let mut line_no: usize = 0;
    proof {
        crate::text::lemma_lines_of_len(ini@);
        assert(glines.subrange(0, glines.len() as int) =~= glines);
        assert(ini@.subrange(0, len as int) =~= ini@);
    }
    while pos < len
        invariant
            0 <= pos <= len == ini@.len(),
            glines == lines_of(ini@),
            glines.len() <= len,
            0 <= line_no <= glines.len(),
            glines.subrange(line_no as int, glines.len() as int) == lines_of(
                ini@.subrange(pos as int, len as int),
            ),
            pos == len ==> line_no == glines.len(),
            translate_prefix(glines, with_comments, line_no as int) == Ok::<Seq<u8>, (int, LineErr)>(
                out@,
            ),
        decreases len - pos,
    {
        let rest = &ini[pos..len];
        let rel = find_byte(rest, NL);
        proof {
            crate::text::lemma_find_byte(rest@, NL);
        }
        let line = &rest[0..rel];
        proof {
            let restv = ini@.subrange(pos as int, len as int);
            assert(restv.len() > 0);
            let tail = glines.subrange(line_no as int, glines.len() as int);
            assert(tail == lines_of(restv));
            if rel < rest.len() {
                assert(tail == seq![restv.take(rel as int)] + lines_of(
                    restv.subrange(rel as int + 1, restv.len() as int),
                ));
            } else {
                assert(tail == seq![restv]);
                assert(restv.take(rel as int) =~= restv);
            }
            assert(tail.len() > 0);
            assert(tail[0] == restv.take(rel as int));
            assert(glines[line_no as int] == tail[0]);
            assert(line@ =~= restv.take(rel as int));
        }
        match translate_one(line, with_comments) {
            Ok(buf) => {
                crate::text::push_bytes(&mut out, buf.as_slice());
            },
            Err(k) => {
                proof {
                    assert(translate_prefix(glines, with_comments, line_no as int + 1) == Err::<
                        Seq<u8>,
                        (int, LineErr),
                    >((line_no as int, k)));
                    lemma_translate_prefix_err(glines, with_comments, line_no as int + 1);
                }
                let e = match k {
                    LineErr::Section => ProtoError::MalformedSection { line: line_no },
                    LineErr::Separator => ProtoError::MissingSeparator { line: line_no },
                };
                return Err(e);
            },
        }
        let next = if pos + rel < len {
            pos + rel + 1
        } else {
            len
        };
        proof {
            let restv = ini@.subrange(pos as int, len as int);
            let tail = glines.subrange(line_no as int, glines.len() as int);
            if rel < rest.len() {
                assert(restv.subrange(rel as int + 1, restv.len() as int) =~= ini@.subrange(
                    next as int,
                    len as int,
                ));
                assert(tail.subrange(1, tail.len() as int) =~= glines.subrange(
                    line_no as int + 1,
                    glines.len() as int,
                ));
                assert(glines.subrange(line_no as int + 1, glines.len() as int) == lines_of(
                    ini@.subrange(next as int, len as int),
                ));
            } else {
                assert(tail =~= seq![restv]);
                assert(tail.subrange(1, tail.len() as int) =~= glines.subrange(
                    line_no as int + 1,
                    glines.len() as int,
                ));
                assert(glines.subrange(line_no as int + 1, glines.len() as int) =~= Seq::<
                    Seq<u8>,
                >::empty());
                assert(ini@.subrange(next as int, len as int) =~= Seq::<u8>::empty());
            }
        }
        pos = next;
        line_no = line_no + 1;
    }
    proof {
        assert(line_no as int == glines.len());
    }
    Ok(out)
}

/// Once a prefix of the lines fails, every longer prefix fails the same way.
proof fn lemma_translate_prefix_err(lines: Seq<Seq<u8>>, with_comments: bool, n: int)
    requires
        translate_prefix(lines, with_comments, n) is Err,
    ensures
        forall|m: int|
            n <= m ==> translate_prefix(lines, with_comments, m) == translate_prefix(
                lines,
                with_comments,
                n,
            ),
{
    assert forall|m: int| n <= m implies translate_prefix(lines, with_comments, m)
        == translate_prefix(lines, with_comments, n) by {
        lemma_translate_prefix_err_step(lines, with_comments, n, m);
    }
}

proof fn lemma_translate_prefix_err_step(lines: Seq<Seq<u8>>, with_comments: bool, n: int, m: int)
    requires
        translate_prefix(lines, with_comments, n) is Err,
        n <= m,
    ensures
        translate_prefix(lines, with_comments, m) == translate_prefix(lines, with_comments, n),
    decreases m - n,
{
    if m > n {
        lemma_translate_prefix_err_step(lines, with_comments, n, m - 1);
    }
}

} // verus!
