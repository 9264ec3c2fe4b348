//! The canonical structured-document reader: splits the translator's output
//! into array-of-tables sections, each holding the ordered key/scalar
//! entries of one record, and rejects text that does not follow the
//! canonical grammar or assigns one key twice within a section.

use vstd::prelude::*;

use crate::errors::ProtoError;
use crate::scalar::{decode_value, decode_value_s, Scalar, ScalarV};
use crate::text::{
    bytes_eq, find_byte, find_byte_s, is_digit, lines_of, lemma_find_byte, lemma_lines_of_len,
    DASH, EQ, LBRACKET, QUOTE, RBRACKET, UNDERSCORE,
};

verus! {

/// One array-of-tables section: its name and its entries in order.
pub struct Section {
    pub name: Vec<u8>,
    pub entries: Vec<(Vec<u8>, Scalar)>,
}

/// The mathematical value of a [`Section`].
pub struct SectionV {
    pub name: Seq<u8>,
    pub entries: Seq<(Seq<u8>, ScalarV)>,
}

/// The views of a sequence of entries.
pub open spec fn entries_view(es: Seq<(Vec<u8>, Scalar)>) -> Seq<(Seq<u8>, ScalarV)> {
    es.map_values(|e: (Vec<u8>, Scalar)| (e.0@, e.1@))
}

impl View for Section {
    type V = SectionV;

    open spec fn view(&self) -> SectionV {
        SectionV { name: self.name@, entries: entries_view(self.entries@) }
    }
}

/// The views of a sequence of sections.
pub open spec fn secs_view(ss: Seq<Section>) -> Seq<SectionV> {
    ss.map_values(|s: Section| s@)
}

/// The bytes allowed in a bare key: ASCII letters, digits, `_` and `-`.
pub open spec fn is_bare_key_byte(b: u8) -> bool {
    (65 <= b <= 90) || (97 <= b <= 122) || is_digit(b) || b == UNDERSCORE || b == DASH
}

/// A non-empty key of bare-key bytes.
pub open spec fn is_bare_key(k: Seq<u8>) -> bool {
    k.len() >= 1 && (forall|i: int| 0 <= i < k.len() ==> is_bare_key_byte(k[i]))
}

/// What one canonical line is.
pub enum CLineS {
    /// An empty line.
    Empty,
    /// An array-of-tables header `[["name"]]`.
    Header(Seq<u8>),
    /// An assignment `key=value`.
    Pair(Seq<u8>, ScalarV),
    /// Anything else.
    Bad,
}

/// The canonical line grammar: nothing, a `[["name"]]` header, or a
/// `key=value` assignment with a bare key and a well-formed scalar literal.
pub open spec fn parse_cline(l: Seq<u8>) -> CLineS {
    if l.len() == 0 {
        CLineS::Empty
    } else if l[0] == LBRACKET {
        if l.len() >= 6 && l[1] == LBRACKET && l[2] == QUOTE && l[l.len() - 3] == QUOTE && l[l.len()
            - 2] == RBRACKET && l[l.len() - 1] == RBRACKET {
            CLineS::Header(l.subrange(3, l.len() - 3))
        } else {
            CLineS::Bad
        }
    } else {
        let j = find_byte_s(l, EQ);
        if j == l.len() {
            CLineS::Bad
        } else {
            let key = l.take(j);
            let val = l.subrange(j + 1, l.len() as int);
            if is_bare_key(key) {
                match decode_value_s(val) {
                    Some(sc) => CLineS::Pair(key, sc),
                    None => CLineS::Bad,
                }
            } else {
                CLineS::Bad
            }
        }
    }
}

/// Whether some entry of `es` already uses the key `k`.
pub open spec fn has_key(es: Seq<(Seq<u8>, ScalarV)>, k: Seq<u8>) -> bool {
    exists|i: int| 0 <= i < es.len() && (#[trigger] es[i]).0 == k
}

/// The view of an optional section name.
pub open spec fn opt_name_view(o: Option<Vec<u8>>) -> Option<Seq<u8>> {
    match o {
        Some(n) => Some(n@),
        None => None,
    }
}

/// The reader's state between lines: the completed sections, and the name
/// and entries of the section being filled (no name yet while reading
/// entries that precede the first header, which are checked and dropped).
pub struct DecStV {
    pub cur_name: Option<Seq<u8>>,
    pub cur: Seq<(Seq<u8>, ScalarV)>,
    pub done: Seq<SectionV>,
}

/// The sections that closing the current state contributes.
pub open spec fn close_cur(st: DecStV) -> Seq<SectionV> {
    match st.cur_name {
        Some(n) => seq![SectionV { name: n, entries: st.cur }],
        None => Seq::empty(),
    }
}

/// One line's effect on the reader's state.
pub open spec fn dec_step(st: DecStV, l: Seq<u8>) -> Result<DecStV, ProtoError> {
    match parse_cline(l) {
        CLineS::Empty => Ok(st),
        CLineS::Bad => Err(ProtoError::DecodeMismatch),
        CLineS::Header(name) => Ok(
            DecStV { cur_name: Some(name), cur: Seq::empty(), done: st.done + close_cur(st) },
        ),
        CLineS::Pair(k, sc) => {
            if has_key(st.cur, k) {
                Err(ProtoError::DuplicateField)
            } else {
                Ok(DecStV { cur_name: st.cur_name, cur: st.cur.push((k, sc)), done: st.done })
            }
        },
    }
}

/// The reader's state after the first `n` lines.
pub open spec fn dec_fold(lines: Seq<Seq<u8>>, n: int) -> Result<DecStV, ProtoError>
    decreases n,
{
    if n <= 0 {
        Ok(DecStV { cur_name: None, cur: Seq::empty(), done: Seq::empty() })
    } else {
        match dec_fold(lines, n - 1) {
            Err(e) => Err(e),
            Ok(st) => dec_step(st, lines[n - 1]),
        }
    }
}

/// The sections of a whole canonical document.
pub open spec fn parse_doc_s(t: Seq<u8>) -> Result<Seq<SectionV>, ProtoError> {
    match dec_fold(lines_of(t), lines_of(t).len() as int) {
        Err(e) => Err(e),
        Ok(st) => Ok(st.done + close_cur(st)),
    }
}

/// Round trip of a header line: the header the translator emits for a
/// section name parses back to exactly that name.
pub proof fn lemma_header_line_round_trip(name: Seq<u8>)
    requires
        name.len() >= 1,
    ensures
        parse_cline(
            seq![LBRACKET, LBRACKET, QUOTE] + name + seq![QUOTE, RBRACKET, RBRACKET],
        ) == CLineS::Header(name),
{
    let l = seq![LBRACKET, LBRACKET, QUOTE] + name + seq![QUOTE, RBRACKET, RBRACKET];
    assert(l.len() == name.len() + 6);
    assert(l[0] == LBRACKET && l[1] == LBRACKET && l[2] == QUOTE);
    assert(l[l.len() - 3] == QUOTE && l[l.len() - 2] == RBRACKET && l[l.len() - 1] == RBRACKET);
    assert(l.subrange(3, l.len() - 3) =~= name);
}

/// Round trip of a directive line: the assignment the translator emits for
/// a key and a value parses back to that key and a scalar that renders to
/// the original value — provided the rewritten key is a bare key, and the
/// value is a canonical integer when the numeric-typing rule applies and
/// holds no quote otherwise.
pub proof fn lemma_directive_line_round_trip(key: Seq<u8>, value: Seq<u8>)
    requires
        is_bare_key(key),
        crate::ini_to_toml::is_numeric_value(value) ==> crate::scalar::is_canonical_int(value),
        !crate::ini_to_toml::is_numeric_value(value) ==> forall|i: int|
            0 <= i < value.len() ==> value[i] != QUOTE,
    ensures
        parse_cline(key + seq![EQ] + crate::ini_to_toml::encode_value(value)) matches CLineS::Pair(
            k,
            sc,
        ) && k == key && crate::scalar::render_scalar(sc) == value,
{
    let enc = crate::ini_to_toml::encode_value(value);
    let l = key + seq![EQ] + enc;
    assert(l[0] != LBRACKET) by {
        assert(is_bare_key_byte(key[0]));
        assert(l[0] == key[0]);
    }
    lemma_find_byte(l, EQ);
    let j = find_byte_s(l, EQ);
    assert(l[key.len() as int] == EQ);
    assert(j == key.len()) by {
        if j < key.len() {
            assert(l[j] == key[j]);
            assert(is_bare_key_byte(key[j]));
        }
        if j > key.len() {
            assert(l[key.len() as int] != EQ);
        }
    }
    assert(l.take(j) =~= key);
    assert(l.subrange(j + 1, l.len() as int) =~= enc);
    crate::scalar::lemma_value_round_trip(value);
}

/// Whether some entry of `es` already uses the key `k`.
pub fn entries_have_key(es: &Vec<(Vec<u8>, Scalar)>, k: &[u8]) -> (r: bool)
    ensures
        r == has_key(entries_view(es@), k@),
{
    let len = es.len();
    let mut i: usize = 0;
    while i < len
        invariant
            0 <= i <= len == es@.len(),
            forall|j: int| 0 <= j < i ==> (#[trigger] entries_view(es@)[j]).0 != k@,
        decreases len - i,
    {
        if bytes_eq(es[i].0.as_slice(), k) {
            proof {
                assert((entries_view(es@)[i as int]).0 == k@);
            }
            return true;
        }
        proof {
            assert((entries_view(es@)[i as int]).0 == es@[i as int].0@);
        }
        i = i + 1;
    }
    false
}

/// Parses one canonical line.
fn parse_cline_x(l: &[u8]) -> (r: Result<Option<(Option<Vec<u8>>, Option<(Vec<u8>, Scalar)>)>, ()>)
    ensures
        match r {
            Ok(None) => parse_cline(l@) is Empty,
            Ok(Some((Some(name), None))) => parse_cline(l@) == CLineS::Header(name@),
            Ok(Some((None, Some(kv)))) => parse_cline(l@) == CLineS::Pair(kv.0@, kv.1@),
            Ok(Some((Some(_), Some(_)))) => false,
            Ok(Some((None, None))) => false,
            Err(()) => parse_cline(l@) is Bad,
        },
{
    let len = l.len();
    if len == 0 {
        return Ok(None);
    }
    if l[0] == LBRACKET {
        if len >= 6 && l[1] == LBRACKET && l[2] == QUOTE && l[len - 3] == QUOTE && l[len - 2]
            == RBRACKET && l[len - 1] == RBRACKET {
            let mut name: Vec<u8> = Vec::new();
            crate::text::push_bytes(&mut name, &l[3..len - 3]);
            return Ok(Some((Some(name), None)));
        } else {
            return Err(());
        }
    }
    let j = find_byte(l, EQ);
    proof {
        lemma_find_byte(l@, EQ);
    }
    if j == len {
        return Err(());
    }
    if j == 0 {
        return Err(());
    }
    let mut i: usize = 0;
    while i < j
        invariant
            0 < i + j && 0 <= i <= j < len == l@.len(),
            1 <= j,
            j as int == find_byte_s(l@, EQ),
            l@[0] != LBRACKET,
            forall|x: int| 0 <= x < i ==> is_bare_key_byte(l@[x]),
        decreases j - i,
    {
        let b = l[i];
        if !((65 <= b && b <= 90) || (97 <= b && b <= 122) || (48 <= b && b <= 57) || b
            == UNDERSCORE || b == DASH) {
            proof {
                assert(l@.take(j as int)[i as int] == l@[i as int]);
                assert(!is_bare_key(l@.take(j as int)));
            }
            return Err(());
        }
        i = i + 1;
    }
    proof {
        assert forall|x: int| 0 <= x < l@.take(j as int).len() implies is_bare_key_byte(
            #[trigger] l@.take(j as int)[x],
        ) by {
            assert(l@.take(j as int)[x] == l@[x]);
        }
        assert(is_bare_key(l@.take(j as int)));
    }
    let mut key: Vec<u8> = Vec::new();
    crate::text::push_bytes(&mut key, &l[0..j]);
    match decode_value(&l[j + 1..len]) {
        Some(sc) => Ok(Some((None, Some((key, sc))))),
        None => Err(()),
    }
}

/// Splits a canonical document into its sections, rejecting malformed lines
/// and keys assigned twice within one section.
pub fn parse_doc(text: &[u8]) -> (r: Result<Vec<Section>, ProtoError>)
    ensures
        match r {
            Ok(secs) => parse_doc_s(text@) == Ok::<Seq<SectionV>, ProtoError>(secs_view(secs@)),
            Err(e) => parse_doc_s(text@) == Err::<Seq<SectionV>, ProtoError>(e),
        },
{
    let ghost glines = lines_of(text@);
    let len = text.len();
    let mut done: Vec<Section> = Vec::new();
    let mut cur_name: Option<Vec<u8>> = None;
    let mut cur: Vec<(Vec<u8>, Scalar)> = Vec::new();
    let mut pos: usize = 0;
    let mut line_no: usize = 0;
    proof {
        lemma_lines_of_len(text@);
        assert(glines.subrange(0, glines.len() as int) =~= glines);
        assert(text@.subrange(0, len as int) =~= text@);
        assert(entries_view(cur@) =~= Seq::<(Seq<u8>, ScalarV)>::empty());
        assert(secs_view(done@) =~= Seq::<SectionV>::empty());
    }
    while pos < len
        invariant
            0 <= pos <= len == text@.len(),
            glines == lines_of(text@),
            glines.len() <= len,
            0 <= line_no <= glines.len(),
            glines.subrange(line_no as int, glines.len() as int) == lines_of(
                text@.subrange(pos as int, len as int),
            ),
            pos == len ==> line_no == glines.len(),
            dec_fold(glines, line_no as int) == Ok::<DecStV, ProtoError>(
                DecStV {
                    cur_name: opt_name_view(cur_name),
                    cur: entries_view(cur@),
                    done: secs_view(done@),
                },
            ),
        decreases len - pos,
    {
        let ghost st = DecStV {
            cur_name: opt_name_view(cur_name),
            cur: entries_view(cur@),
            done: secs_view(done@),
        };
        let rest = &text[pos..len];
        let rel = find_byte(rest, crate::text::NL);
        proof {
            lemma_find_byte(rest@, crate::text::NL);
        }
        let line = &rest[0..rel];
        proof {
            let restv = text@.subrange(pos as int, len as int);
            let tail = glines.subrange(line_no as int, glines.len() as int);
            assert(tail == lines_of(restv));
            if rel < rest.len() {
                assert(tail == seq![restv.take(rel as int)] + lines_of(
                    restv.subrange(rel as int + 1, restv.len() as int),
                ));
            } else {
                assert(tail == seq![restv]);
                assert(restv.take(rel as int) =~= restv);
            }
            assert(glines[line_no as int] == tail[0]);
            assert(line@ =~= restv.take(rel as int));
        }
        match parse_cline_x(line) {
            Err(()) => {
                proof {
                    assert(dec_fold(glines, line_no as int + 1) == Err::<DecStV, ProtoError>(
                        ProtoError::DecodeMismatch,
                    ));
                    lemma_dec_fold_err(glines, line_no as int + 1);
                }
                return Err(ProtoError::DecodeMismatch);
            },
            Ok(None) => {
                proof {
                    assert(dec_step(st, glines[line_no as int]) == Ok::<DecStV, ProtoError>(st));
                }
            },
            Ok(Some((Some(name), _))) => {
                let closed_name = cur_name;
                let mut closed: Vec<(Vec<u8>, Scalar)> = Vec::new();
                core::mem::swap(&mut closed, &mut cur);
                match closed_name {
                    Some(n) => {
                        done.push(Section { name: n, entries: closed });
                        proof {
                            assert(secs_view(done@) =~= st.done + close_cur(st));
                        }
                    },
                    None => {
                        proof {
                            assert(secs_view(done@) =~= st.done + close_cur(st));
                        }
                    },
                }
                cur_name = Some(name);
                proof {
                    assert(entries_view(cur@) =~= Seq::<(Seq<u8>, ScalarV)>::empty());
                }
            },
            Ok(Some((None, Some((k, sc))))) => {
                if entries_have_key(&cur, k.as_slice()) {
                    proof {
                        assert(dec_fold(glines, line_no as int + 1) == Err::<DecStV, ProtoError>(
                            ProtoError::DuplicateField,
                        ));
                        lemma_dec_fold_err(glines, line_no as int + 1);
                    }
                    return Err(ProtoError::DuplicateField);
                }
                let ghost kv = (k@, sc@);
                cur.push((k, sc));
                proof {
                    assert(entries_view(cur@) =~= st.cur.push(kv));
                }
            },
            Ok(Some((None, None))) => {
                proof {
                    assert(false);
                }
            },
        }
        let next = if pos + rel < len {
            pos + rel + 1
        } else {
            len
        };
        proof {
            let restv = text@.subrange(pos as int, len as int);
            let tail = glines.subrange(line_no as int, glines.len() as int);
            if rel < rest.len() {
                assert(restv.subrange(rel as int + 1, restv.len() as int) =~= text@.subrange(
                    next as int,
                    len as int,
                ));
                assert(tail.subrange(1, tail.len() as int) =~= glines.subrange(
                    line_no as int + 1,
                    glines.len() as int,
                ));
                assert(glines.subrange(line_no as int + 1, glines.len() as int) == lines_of(
                    text@.subrange(next as int, len as int),
                ));
            } else {
                assert(tail.subrange(1, tail.len() as int) =~= glines.subrange(
                    line_no as int + 1,
                    glines.len() as int,
                ));
                assert(glines.subrange(line_no as int + 1, glines.len() as int) =~= Seq::<
                    Seq<u8>,
                >::empty());
                assert(text@.subrange(next as int, len as int) =~= Seq::<u8>::empty());
            }
        }
        pos = next;
        line_no = line_no + 1;
    }
    match cur_name {
        Some(n) => {
            done.push(Section { name: n, entries: cur });
            proof {
                let st = dec_fold(glines, glines.len() as int)->Ok_0;
                assert(secs_view(done@) =~= st.done + close_cur(st));
            }
        },
        None => {
            proof {
                let st = dec_fold(glines, glines.len() as int)->Ok_0;
                assert(secs_view(done@) =~= st.done + close_cur(st));
            }
        },
    }
    Ok(done)
}

/// Once a prefix of the lines fails, every longer prefix fails the same way.
proof fn lemma_dec_fold_err(lines: Seq<Seq<u8>>, n: int)
    requires
        dec_fold(lines, n) is Err,
    ensures
        forall|m: int| n <= m ==> dec_fold(lines, m) == dec_fold(lines, n),
{
    assert forall|m: int| n <= m implies dec_fold(lines, m) == dec_fold(lines, n) by {
        lemma_dec_fold_err_step(lines, n, m);
    }
}

proof fn lemma_dec_fold_err_step(lines: Seq<Seq<u8>>, n: int, m: int)
    requires
        dec_fold(lines, n) is Err,
        n <= m,
    ensures
        dec_fold(lines, m) == dec_fold(lines, n),
    decreases m - n,
{
    if m > n {
        lemma_dec_fold_err_step(lines, n, m - 1);
    }
}

} // verus!
