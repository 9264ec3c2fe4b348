//! The range analyzer: given the strictly ascending keys of a registry and
//! the bound of the identifier space, computes the unused identifier
//! intervals of `[1, bound - 1]` — ascending, non-overlapping and maximal —
//! and renders them as report lines.

use vstd::prelude::*;

use crate::registry::sorted_strict;
use crate::scalar::{dec_u_s, u64_to_dec};
use crate::text::{DASH, EQ, NL};

verus! {

/// A closed interval of identifiers.
#[derive(Clone, Copy, Debug, PartialEq, Eq, Structural)]
pub struct Interval {
    pub from: u16,
    pub to: u16,
}

/// Whether `x` lies in some interval of `ivs`.
pub open spec fn covered(ivs: Seq<Interval>, x: u16) -> bool {
    exists|i: int| 0 <= i < ivs.len() && (#[trigger] ivs[i]).from <= x <= ivs[i].to
}

/// The analyzer's cursor walk over the first `n` keys: the intervals
/// emitted so far and the next identifier not yet accounted for.
pub open spec fn fr_fold(keys: Seq<u16>, n: int) -> (Seq<Interval>, u16)
    decreases n,
{
    if n <= 0 {
        (Seq::empty(), 1u16)
    } else {
        let (out, ff) = fr_fold(keys, n - 1);
        let k = keys[n - 1];
        if k > ff {
            (out.push(Interval { from: ff, to: (k - 1) as u16 }), ((k + 1) as u16))
        } else {
            (out, ((k + 1) as u16))
        }
    }
}

/// The unused identifier intervals of `[1, bound - 1]` for a strictly
/// ascending key sequence.
pub open spec fn free_ranges_s(keys: Seq<u16>, bound: u16) -> Seq<Interval> {
    let (out, ff) = fr_fold(keys, keys.len() as int);
    if ff < bound {
        out.push(Interval { from: ff, to: (bound - 1) as u16 })
    } else {
        out
    }
}

/// Walks the registry's keys in ascending order and emits every maximal gap,
/// then the final gap up to the bound.
pub fn free_ranges(keys: &Vec<u16>, bound: u16) -> (r: Vec<Interval>)
    requires
        sorted_strict(keys@),
        forall|i: int| 0 <= i < keys@.len() ==> 1 <= #[trigger] keys@[i] < bound,
        bound >= 1,
    ensures
        r@ == free_ranges_s(keys@, bound),
{
    let len = keys.len();
    let mut out: Vec<Interval> = Vec::new();
    let mut first_free: u16 = 1;
    let mut i: usize = 0;
    proof {
        assert(out@ =~= fr_fold(keys@, 0).0);
    }
    while i < len
        invariant
            0 <= i <= len == keys@.len(),
            sorted_strict(keys@),
            forall|j: int| 0 <= j < keys@.len() ==> 1 <= #[trigger] keys@[j] < bound,
            bound >= 1,
            (out@, first_free) == fr_fold(keys@, i as int),
        decreases len - i,
    {
        let k = keys[i];
        if k > first_free {
            out.push(Interval { from: first_free, to: k - 1 });
        }
        first_free = k + 1;
        i = i + 1;
    }
    if first_free < bound {
        out.push(Interval { from: first_free, to: bound - 1 });
    }
    out
}

/// The cursor walk's invariants: the cursor sits one past the last key seen
/// (or at 1), every emitted interval lies below the cursor, intervals are
/// ascending and non-adjacent, and below the cursor an identifier is covered
/// exactly when it is not a key.
proof fn lemma_fr_fold(keys: Seq<u16>, bound: u16, n: int)
    requires
        sorted_strict(keys),
        forall|i: int| 0 <= i < keys.len() ==> 1 <= #[trigger] keys[i] < bound,
        0 <= n <= keys.len(),
    ensures
        1 <= fr_fold(keys, n).1,
        fr_fold(keys, n).1 == if n == 0 {
            1int
        } else {
            keys[n - 1] + 1
        },
        forall|i: int|
            0 <= i < fr_fold(keys, n).0.len() ==> 1 <= (#[trigger] fr_fold(keys, n).0[i]).from
                <= fr_fold(keys, n).0[i].to && fr_fold(keys, n).0[i].to + 1 < fr_fold(keys, n).1,
        forall|i: int, j: int|
            0 <= i < j < fr_fold(keys, n).0.len() ==> (#[trigger] fr_fold(keys, n).0[i]).to + 1 < (
            #[trigger] fr_fold(keys, n).0[j]).from,
        forall|x: u16|
            1 <= x < fr_fold(keys, n).1 ==> (covered(fr_fold(keys, n).0, x) <==> !keys.subrange(
                0,
                n,
            ).contains(x)),
    decreases n,
{
    if n > 0 {
        lemma_fr_fold(keys, bound, n - 1);
        let (out, ff) = fr_fold(keys, n - 1);
        let k = keys[n - 1];
        assert(ff <= k) by {
            if n - 1 > 0 {
                assert(keys[n - 2] < keys[n - 1]);
            }
        }
        let (out2, ff2) = fr_fold(keys, n);
        assert(ff2 == k + 1);
        assert forall|x: u16| 1 <= x < ff2 implies (covered(out2, x) <==> !keys.subrange(
            0,
            n,
        ).contains(x)) by {
            let pre = keys.subrange(0, n - 1);
            let cur = keys.subrange(0, n);
            assert(cur.drop_last() =~= pre);
            assert(cur.last() == k);
            assert(cur.contains(x) <==> (pre.contains(x) || x == k)) by {
                if cur.contains(x) {
                    let w = choose|w: int| 0 <= w < cur.len() && cur[w] == x;
                    if w < n - 1 {
                        assert(pre[w] == x);
                    }
                }
                if pre.contains(x) {
                    let w = choose|w: int| 0 <= w < pre.len() && pre[w] == x;
                    assert(cur[w] == x);
                }
                if x == k {
                    assert(cur[n - 1] == x);
                }
            }
            assert(!pre.contains(k)) by {
                if pre.contains(k) {
                    let w = choose|w: int| 0 <= w < pre.len() && pre[w] == k;
                    assert(keys[w] < keys[n - 1]);
                }
            }
            if x < ff {
                assert(covered(out, x) <==> !pre.contains(x));
                if k > ff {
                    assert(covered(out2, x) <==> covered(out, x)) by {
                        if covered(out2, x) {
                            let w = choose|w: int|
                                0 <= w < out2.len() && (#[trigger] out2[w]).from <= x <= out2[w].to;
                            if w < out.len() {
                                assert(covered(out, x));
                            } else {
                                assert(out2[w].from == ff);
                            }
                        }
                        if covered(out, x) {
                            let w = choose|w: int|
                                0 <= w < out.len() && (#[trigger] out[w]).from <= x <= out[w].to;
                            assert(out2[w].from <= x <= out2[w].to);
                        }
                    }
                }
                assert(x != k);
            } else if x == k {
                assert(cur.contains(x));
                assert(!covered(out2, x)) by {
                    if covered(out2, x) {
                        let w = choose|w: int|
                            0 <= w < out2.len() && (#[trigger] out2[w]).from <= x <= out2[w].to;
                        if w < out.len() {
                            assert(out[w].to + 1 < ff);
                        }
                    }
                }
            } else {
                assert(ff <= x < k);
                assert(k > ff);
                assert(covered(out2, x)) by {
                    assert(out2[out2.len() - 1].from == ff && out2[out2.len() - 1].to == k - 1);
                }
                assert(!cur.contains(x)) by {
                    if cur.contains(x) {
                        let w = choose|w: int| 0 <= w < cur.len() && cur[w] == x;
                        if w < n - 1 {
                            assert(keys[w] < keys[n - 1]) by {
                                assert(sorted_strict(keys));
                            }
                            assert(keys[w] >= ff) by {
                                if n - 1 > 0 && w < n - 1 {
                                    if w < n - 2 {
                                        assert(keys[w] < keys[n - 2]);
                                    }
                                }
                            }
                        }
                    }
                }
            }
        }
    }
}

/// Free-range correctness: the analyzer's intervals lie in `[1, bound - 1]`,
/// ascend without touching, and cover an identifier of the space exactly
/// when it is not one of the registry's keys; maximality is the
/// non-adjacency of consecutive intervals.
pub proof fn lemma_free_ranges_correct(keys: Seq<u16>, bound: u16)
    requires
        sorted_strict(keys),
        forall|i: int| 0 <= i < keys.len() ==> 1 <= #[trigger] keys[i] < bound,
        bound >= 1,
    ensures
        forall|i: int|
            0 <= i < free_ranges_s(keys, bound).len() ==> 1 <= (#[trigger] free_ranges_s(
                keys,
                bound,
            )[i]).from <= free_ranges_s(keys, bound)[i].to < bound,
        forall|i: int, j: int|
            0 <= i < j < free_ranges_s(keys, bound).len() ==> (#[trigger] free_ranges_s(
                keys,
                bound,
            )[i]).to + 1 < (#[trigger] free_ranges_s(keys, bound)[j]).from,
        forall|x: u16|
            1 <= x < bound ==> (covered(free_ranges_s(keys, bound), x) <==> !keys.contains(x)),
{
    let n = keys.len() as int;
    lemma_fr_fold(keys, bound, n);
    let (out, ff) = fr_fold(keys, n);
    let ivs = free_ranges_s(keys, bound);
    assert(keys.subrange(0, n) =~= keys);
    assert forall|x: u16| 1 <= x < bound implies (covered(ivs, x) <==> !keys.contains(x)) by {
        if x < ff {
            assert(covered(out, x) <==> !keys.contains(x));
            if ff < bound {
                assert(covered(ivs, x) <==> covered(out, x)) by {
                    if covered(ivs, x) {
                        let w = choose|w: int|
                            0 <= w < ivs.len() && (#[trigger] ivs[w]).from <= x <= ivs[w].to;
                        if w < out.len() {
                            assert(covered(out, x));
                        } else {
                            assert(ivs[w].from == ff);
                        }
                    }
                    if covered(out, x) {
                        let w = choose|w: int|
                            0 <= w < out.len() && (#[trigger] out[w]).from <= x <= out[w].to;
                        assert(ivs[w].from <= x <= ivs[w].to);
                    }
                }
            }
        } else {
            assert(!keys.contains(x)) by {
                if keys.contains(x) {
                    let w = choose|w: int| 0 <= w < keys.len() && keys[w] == x;
                    assert(keys[w] <= keys[n - 1]) by {
                        if w < n - 1 {
                            assert(keys[w] < keys[n - 1]);
                        }
                    }
                }
            }
            assert(ff < bound);
            assert(covered(ivs, x)) by {
                assert(ivs[ivs.len() - 1].from == ff && ivs[ivs.len() - 1].to == (bound - 1) as u16);
            }
        }
    }
}

/// The rendering of one interval: a singleton as its one value, a pair as
/// `from, to`, and a longer interval as `from-to (N ids)` with its size.
pub open spec fn render_interval_s(iv: Interval) -> Seq<u8> {
    if iv.from == iv.to {
        dec_u_s(iv.from as nat)
    } else if iv.from + 1 == iv.to {
        dec_u_s(iv.from as nat) + seq![44u8, 32u8] + dec_u_s(iv.to as nat)
    } else {
        dec_u_s(iv.from as nat) + seq![DASH] + dec_u_s(iv.to as nat) + seq![32u8, 40u8] + dec_u_s(
            (iv.to - iv.from + 1) as nat,
        ) + seq![32u8, 105u8, 100u8, 115u8, 41u8]
    }
}

/// Renders one interval as its report fragment.
pub fn render_interval(iv: Interval) -> (r: Vec<u8>)
    requires
        iv.from <= iv.to,
    ensures
        r@ == render_interval_s(iv),
{
    if iv.from == iv.to {
        u64_to_dec(iv.from as u64)
    } else if iv.from + 1 == iv.to {
        let mut r = u64_to_dec(iv.from as u64);
        r.push(44u8);
        r.push(32u8);
        let t = u64_to_dec(iv.to as u64);
        crate::text::push_bytes(&mut r, t.as_slice());
        proof {
            assert(r@ =~= render_interval_s(iv));
        }
        r
    } else {
        let mut r = u64_to_dec(iv.from as u64);
        r.push(DASH);
        let t = u64_to_dec(iv.to as u64);
        crate::text::push_bytes(&mut r, t.as_slice());
        r.push(32u8);
        r.push(40u8);
        let c = u64_to_dec(iv.to as u64 - iv.from as u64 + 1);
        crate::text::push_bytes(&mut r, c.as_slice());
        r.push(32u8);
        r.push(105u8);
        r.push(100u8);
        r.push(115u8);
        r.push(41u8);
        proof {
            assert(r@ =~= render_interval_s(iv));
        }
        r
    }
}

/// The report body for the first `n` intervals, one line each.
pub open spec fn report_fold(ivs: Seq<Interval>, n: int) -> Seq<u8>
    decreases n,
{
    if n <= 0 {
        Seq::empty()
    } else {
        report_fold(ivs, n - 1) + render_interval_s(ivs[n - 1]) + seq![NL]
    }
}

/// The free-range report for a registry's keys: one line per interval.
pub open spec fn ranges_report_s(keys: Seq<u16>, bound: u16) -> Seq<u8> {
    report_fold(free_ranges_s(keys, bound), free_ranges_s(keys, bound).len() as int)
}

/// Computes the free ranges of a registry's keys and renders the report
/// body, one line per interval.
pub fn ranges_for(keys: &Vec<u16>, bound: u16) -> (r: Vec<u8>)
    requires
        sorted_strict(keys@),
        forall|i: int| 0 <= i < keys@.len() ==> 1 <= #[trigger] keys@[i] < bound,
        bound >= 1,
    ensures
        r@ == ranges_report_s(keys@, bound),
{
    let ivs = free_ranges(keys, bound);
    proof {
        lemma_free_ranges_correct(keys@, bound);
    }
    let n = ivs.len();
    let mut out: Vec<u8> = Vec::new();
    let mut i: usize = 0;
    proof {
        assert(out@ =~= report_fold(ivs@, 0));
    }
    while i < n
        invariant
            0 <= i <= n == ivs@.len(),
            ivs@ == free_ranges_s(keys@, bound),
            forall|j: int|
                0 <= j < ivs@.len() ==> (#[trigger] ivs@[j]).from <= ivs@[j].to,
            out@ == report_fold(ivs@, i as int),
        decreases n - i,
    {
        let line = render_interval(ivs[i]);
        crate::text::push_bytes(&mut out, line.as_slice());
        out.push(NL);
        i = i + 1;
    }
    out
}

/// The banner block above one report: a rule, the title, a rule, and a
/// blank line.
pub open spec fn banner_s(title: Seq<u8>) -> Seq<u8> {
    Seq::new(22, |i: int| EQ) + seq![NL] + title + seq![NL] + Seq::new(22, |i: int| EQ) + seq![
        NL,
        NL,
    ]
}

/// Renders the banner block above one report.
pub fn banner(title: &[u8]) -> (r: Vec<u8>)
    ensures
        r@ == banner_s(title@),
{
    let mut r: Vec<u8> = Vec::new();
    let mut i: usize = 0;
    while i < 22
        invariant
            0 <= i <= 22,
            r@ == Seq::new(i as nat, |x: int| EQ),
        decreases 22 - i,
    {
        r.push(EQ);
        proof {
            assert(r@ =~= Seq::new((i + 1) as nat, |x: int| EQ));
        }
        i = i + 1;
    }
    r.push(NL);
    crate::text::push_bytes(&mut r, title);
    r.push(NL);
    let mut i: usize = 0;
    let mut rule: Vec<u8> = Vec::new();
    while i < 22
        invariant
            0 <= i <= 22,
            rule@ == Seq::new(i as nat, |x: int| EQ),
        decreases 22 - i,
    {
        rule.push(EQ);
        proof {
            assert(rule@ =~= Seq::new((i + 1) as nat, |x: int| EQ));
        }
        i = i + 1;
    }
    crate::text::push_bytes(&mut r, rule.as_slice());
    r.push(NL);
    r.push(NL);
    proof {
        assert(r@ =~= banner_s(title@));
    }
    r
}

} // verus!
