//! The manifest: an ordered list of relative source-file paths, one per
//! non-blank line, and the rule for which entries may be read at all (an
//! existing regular file with the source-dialect extension; only the
//! extension can be judged here, the file system is the caller's).

use vstd::prelude::*;

use crate::text::{lines_of, trim, trim_s, NL};

verus! {

/// The trimmed non-blank lines among the first `n` manifest lines.
pub open spec fn man_fold(lines: Seq<Seq<u8>>, n: int) -> Seq<Seq<u8>>
    decreases n,
{
    if n <= 0 {
        Seq::empty()
    } else {
        let acc = man_fold(lines, n - 1);
        if trim_s(lines[n - 1]).len() == 0 {
            acc
        } else {
            acc.push(trim_s(lines[n - 1]))
        }
    }
}

/// The entries of a manifest: its trimmed non-blank lines, in order.
pub open spec fn manifest_entries_s(t: Seq<u8>) -> Seq<Seq<u8>> {
    man_fold(lines_of(t), lines_of(t).len() as int)
}

/// Splits a manifest into its entries: one relative path per non-blank
/// line, surrounding whitespace ignored.
pub fn manifest_entries(text: &[u8]) -> (r: Vec<Vec<u8>>)
    ensures
        crate::registry::files_view(r@) == manifest_entries_s(text@),
{
    let ghost glines = lines_of(text@);
    let len = text.len();
    let mut out: Vec<Vec<u8>> = Vec::new();
    let mut pos: usize = 0;
    let mut line_no: usize = 0;
    proof {
        crate::text::lemma_lines_of_len(text@);
        assert(glines.subrange(0, glines.len() as int) =~= glines);
        assert(text@.subrange(0, len as int) =~= text@);
        assert(crate::registry::files_view(out@) =~= man_fold(glines, 0));
    }
    while pos < len
        invariant
            0 <= pos <= len == text@.len(),
            glines == lines_of(text@),
            glines.len() <= len,
            0 <= line_no <= glines.len(),
            glines.subrange(line_no as int, glines.len() as int) == lines_of(
                text@.subrange(pos as int, len as int),
            ),
            pos == len ==> line_no == glines.len(),
            crate::registry::files_view(out@) == man_fold(glines, line_no as int),
        decreases len - pos,
    {
        let rest = &text[pos..len];
        let rel = crate::text::find_byte(rest, NL);
        proof {
            crate::text::lemma_find_byte(rest@, NL);
        }
        let line = &rest[0..rel];
        proof {
            let restv = text@.subrange(pos as int, len as int);
            let tail = glines.subrange(line_no as int, glines.len() as int);
            assert(tail == lines_of(restv));
            if rel < rest.len() {
                assert(tail == seq![restv.take(rel as int)] + lines_of(
                    restv.subrange(rel as int + 1, restv.len() as int),
                ));
            } else {
                assert(tail == seq![restv]);
                assert(restv.take(rel as int) =~= restv);
            }
            assert(glines[line_no as int] == tail[0]);
            assert(line@ =~= restv.take(rel as int));
        }
        let entry = trim(line);
        if entry.len() > 0 {
            out.push(crate::records::clone_bytes(entry));
            proof {
                assert(crate::registry::files_view(out@) =~= man_fold(glines, line_no as int).push(
                    trim_s(glines[line_no as int]),
                ));
            }
        }
        let next = if pos + rel < len {
            pos + rel + 1
        } else {
            len
        };
        proof {
            let restv = text@.subrange(pos as int, len as int);
            let tail = glines.subrange(line_no as int, glines.len() as int);
            if rel < rest.len() {
                assert(restv.subrange(rel as int + 1, restv.len() as int) =~= text@.subrange(
                    next as int,
                    len as int,
                ));
                assert(tail.subrange(1, tail.len() as int) =~= glines.subrange(
                    line_no as int + 1,
                    glines.len() as int,
                ));
                assert(glines.subrange(line_no as int + 1, glines.len() as int) == lines_of(
                    text@.subrange(next as int, len as int),
                ));
            } else {
                assert(tail.subrange(1, tail.len() as int) =~= glines.subrange(
                    line_no as int + 1,
                    glines.len() as int,
                ));
                assert(glines.subrange(line_no as int + 1, glines.len() as int) =~= Seq::<
                    Seq<u8>,
                >::empty());
                assert(text@.subrange(next as int, len as int) =~= Seq::<u8>::empty());
            }
        }
        pos = next;
        line_no = line_no + 1;
    }
    out
}

/// The source-dialect file extension, `.fopro`.
pub open spec fn fopro_ext() -> Seq<u8> {
    seq![46u8, 102u8, 111u8, 112u8, 114u8, 111u8]
}

/// Whether a manifest entry names a file of the source-dialect extension:
/// it ends in `.fopro` and that suffix is an extension of a non-empty file
/// name, not the whole name.
pub open spec fn valid_fopro_entry(p: Seq<u8>) -> bool {
    &&& p.len() >= 7
    &&& p.subrange(p.len() - 6, p.len() as int) == fopro_ext()
    &&& p[p.len() - 7] != 47
}

/// Checks a manifest entry's extension; an entry that fails this check is an
/// invalid file in the list, whatever the file system says.
pub fn is_valid_manifest_entry(p: &[u8]) -> (r: bool)
    ensures
        r == valid_fopro_entry(p@),
{
    let len = p.len();
    if len < 7 {
        return false;
    }
    let suffix_ok = p[len - 6] == 46 && p[len - 5] == 102 && p[len - 4] == 111 && p[len - 3] == 112
        && p[len - 2] == 114 && p[len - 1] == 111;
    proof {
        if suffix_ok {
            assert(p@.subrange(len - 6, len as int) =~= fopro_ext());
        } else {
            assert(p@.subrange(len - 6, len as int) != fopro_ext()) by {
                if p@.subrange(len - 6, len as int) == fopro_ext() {
                    assert(p@.subrange(len - 6, len as int)[0] == p@[len - 6]);
                    assert(p@.subrange(len - 6, len as int)[1] == p@[len - 5]);
                    assert(p@.subrange(len - 6, len as int)[2] == p@[len - 4]);
                    assert(p@.subrange(len - 6, len as int)[3] == p@[len - 3]);
                    assert(p@.subrange(len - 6, len as int)[4] == p@[len - 2]);
                    assert(p@.subrange(len - 6, len as int)[5] == p@[len - 1]);
                }
            }
        }
    }
    suffix_ok && p[len - 7] != 47
}

} // verus!
