//! Rewriting matching output lines to carry a new scale.
//!
//! A line that matches the output grammar and names a target display is
//! rebuilt as `output "<name>" scale <value>` followed, byte for byte, by
//! whatever trailed the original number token; the name is the trimmed
//! capture and the value is the canonical text of the new scale. Every
//! other line passes through unchanged.

use vstd::prelude::*;
use crate::text::{is_digit, is_numch, trim};
use crate::text::{
    lemma_skip_num_is, lemma_skip_until_is, lemma_skip_ws_bounds, lemma_skip_ws_is,
    lemma_trim_end_idx_bounds, lemma_trim_idempotent, lemma_trim_shape, trim_bytes,
};
use crate::inspect::{match_output, output_word, scale_word};
use crate::inspect::{contains_bytes, lemma_match_output_bounds, match_output_line};
use crate::scale::{fmt_scale, lemma_fmt_scale_shape};
use crate::scale::{fmt_scale_bytes};

verus! {

/// The canonical text of a rewritten output line: the name re-quoted with
/// single spaces between tokens, the new number, then the trailing text.
pub open spec fn rebuild_line(name: Seq<u8>, num: Seq<u8>, rest: Seq<u8>) -> Seq<u8> {
    output_word() + seq![32u8, 34u8] + name + seq![34u8, 32u8] + scale_word() + seq![32u8] + num
        + rest
}

/// One line after rewriting: rebuilt when it matches and names a target
/// display, unchanged otherwise.
pub open spec fn rewrite_line(l: Seq<u8>, targets: Seq<Seq<u8>>, v: u64) -> Seq<u8> {
    match match_output(l) {
        Some((ns, ne, a, b)) => {
            let name = trim(l.subrange(ns, ne));
            if targets.contains(name) {
                rebuild_line(name, fmt_scale(v), l.subrange(b, l.len() as int))
            } else {
                l
            }
        },
        None => l,
    }
}

/// The whole file after rewriting, line by line.
pub open spec fn rewrite_lines(lines: Seq<Seq<u8>>, targets: Seq<Seq<u8>>, v: u64) -> Seq<
    Seq<u8>,
> {
    Seq::new(lines.len(), |i: int| rewrite_line(lines[i], targets, v))
}

/// A rebuilt line with a non-empty quote-free name and a well-formed
/// number matches again, with the same captures.
proof fn lemma_match_rebuild(name: Seq<u8>, num: Seq<u8>, rest: Seq<u8>)
    requires
        name.len() > 0,
        forall|k: int| 0 <= k < name.len() ==> name[k] != 34,
        num.len() > 0,
        is_digit(num[0]),
        forall|k: int| 0 <= k < num.len() ==> is_numch(#[trigger] num[k]),
        rest.len() > 0 ==> !is_numch(rest[0]),
    ensures
        match_output(rebuild_line(name, num, rest)) == Some(
            (
                8int,
                8 + name.len() as int,
                16 + name.len() as int,
                16 + name.len() as int + num.len() as int,
            ),
        ),
        rebuild_line(name, num, rest).subrange(8, 8 + name.len() as int) == name,
        rebuild_line(name, num, rest).subrange(
            16 + name.len() as int + num.len() as int,
            rebuild_line(name, num, rest).len() as int,
        ) == rest,
{
    let r = rebuild_line(name, num, rest);
    let nl = name.len() as int;
    let nm = num.len() as int;
    assert(r.len() == 16 + nl + nm + rest.len());
    assert(r.subrange(0, 6) =~= output_word());
    assert(r[6] == 32);
    assert(r[7] == 34);
    assert(forall|k: int| 0 <= k < nl ==> r[8 + k] == name[k]);
    assert(r[8 + nl] == 34);
    assert(r[9 + nl] == 32);
    assert(r.subrange(10 + nl, 15 + nl) =~= scale_word());
    assert(r[10 + nl] == 115);
    assert(r[15 + nl] == 32);
    assert(forall|k: int| 0 <= k < nm ==> r[16 + nl + k] == num[k]);
    assert(forall|k: int| 0 <= k < rest.len() ==> r[16 + nl + nm + k] == rest[k]);
    lemma_skip_ws_is(r, 6, 7);
    assert(forall|k: int| 8 <= k < 8 + nl ==> r[k] != 34);
    lemma_skip_until_is(r, 8, 8 + nl, 34);
    lemma_skip_ws_is(r, 9 + nl, 10 + nl);
    lemma_skip_ws_is(r, 15 + nl, 16 + nl);
    assert(is_numch(r[16 + nl]));
    assert(forall|k: int| 16 + nl <= k < 16 + nl + nm ==> is_numch(r[k]));
    if rest.len() > 0 {
        assert(r[16 + nl + nm] == rest[0]);
    }
    lemma_skip_num_is(r, 16 + nl, 16 + nl + nm);
    assert(r.subrange(8, 8 + nl) =~= name);
    assert(r.subrange(16 + nl + nm, r.len() as int) =~= rest);
}

/// A rebuilt line with an empty name does not match: the quotes stand
/// next to each other and the grammar wants a non-empty name.
proof fn lemma_match_rebuild_empty(num: Seq<u8>, rest: Seq<u8>)
    requires
        num.len() > 0,
        is_digit(num[0]),
    ensures
        match_output(rebuild_line(Seq::<u8>::empty(), num, rest)) is None,
{
    let r = rebuild_line(Seq::<u8>::empty(), num, rest);
    assert(r.len() == 16 + num.len() + rest.len());
    assert(r[6] == 32);
    assert(r[7] == 34);
    assert(r[8] == 34);
    lemma_skip_ws_is(r, 6, 7);
    lemma_skip_until_is(r, 8, 8, 34);
}

/// The name captured by a match holds no quote byte, and its trim holds
/// none either.
proof fn lemma_trimmed_name_quote_free(l: Seq<u8>, ns: int, ne: int)
    requires
        0 <= ns <= ne <= l.len(),
        forall|k: int| ns <= k < ne ==> l[k] != 34,
    ensures
        forall|k: int| 0 <= k < trim(l.subrange(ns, ne)).len() ==> trim(l.subrange(ns, ne))[k]
            != 34,
{
    let sub = l.subrange(ns, ne);
    lemma_trim_end_idx_bounds(sub);
    let hi = crate::text::trim_end_idx(sub);
    lemma_skip_ws_bounds(sub.subrange(0, hi), 0);
    let lo = crate::text::skip_ws(sub.subrange(0, hi), 0);
    assert forall|k: int| 0 <= k < trim(sub).len() implies trim(sub)[k] != 34 by {
        assert(trim(sub)[k] == sub[lo + k]);
        assert(sub[lo + k] == l[ns + lo + k]);
    }
}

/// Rewriting a line is idempotent: a second pass with the same targets
/// and scale leaves the first pass's output unchanged. In particular a
/// line already in canonical form carrying the new scale is untouched.
pub proof fn lemma_rewrite_line_idempotent(l: Seq<u8>, targets: Seq<Seq<u8>>, v: u64)
    ensures
        rewrite_line(rewrite_line(l, targets, v), targets, v) == rewrite_line(l, targets, v),
{
    match match_output(l) {
        None => {},
        Some((ns, ne, a, b)) => {
            let name = trim(l.subrange(ns, ne));
            if targets.contains(name) {
                lemma_match_output_bounds(l);
                let num = fmt_scale(v);
                let rest = l.subrange(b, l.len() as int);
                lemma_fmt_scale_shape(v);
                lemma_trim_shape(l.subrange(ns, ne));
                lemma_trimmed_name_quote_free(l, ns, ne);
                if rest.len() > 0 {
                    assert(rest[0] == l[b]);
                }
                let r = rebuild_line(name, num, rest);
                assert(rewrite_line(l, targets, v) == r);
                if name.len() == 0 {
                    assert(name =~= Seq::<u8>::empty());
                    lemma_match_rebuild_empty(num, rest);
                    assert(rewrite_line(r, targets, v) == r);
                } else {
                    lemma_match_rebuild(name, num, rest);
                    let nl = name.len() as int;
                    let nm = num.len() as int;
                    let name2 = trim(r.subrange(8, 8 + nl));
                    lemma_trim_idempotent(name);
                    assert(name2 == name);
                    assert(r.subrange(16 + nl + nm, r.len() as int) == rest);
                    assert(rewrite_line(r, targets, v) == rebuild_line(name, num, rest));
                }
            }
        },
    }
}

/// Rewriting a whole file is idempotent: the round trip is stated
/// against the canonical number format, so a file whose matching lines
/// already stand in canonical form with the chosen scale passes through
/// byte-identical, and any other matching line is normalised once and
/// never changes again.
pub proof fn lemma_rewrite_idempotent(lines: Seq<Seq<u8>>, targets: Seq<Seq<u8>>, v: u64)
    ensures
        rewrite_lines(rewrite_lines(lines, targets, v), targets, v) == rewrite_lines(
            lines,
            targets,
            v,
        ),
{
    let once = rewrite_lines(lines, targets, v);
    let twice = rewrite_lines(once, targets, v);
    assert forall|i: int| 0 <= i < lines.len() implies twice[i] == once[i] by {
        lemma_rewrite_line_idempotent(lines[i], targets, v);
    }
    assert(twice =~= once);
}

/// Whether a line is a matching output line of a target display: only
/// such lines are rewritten.
pub open spec fn line_is_target_match(l: Seq<u8>, targets: Seq<Seq<u8>>) -> bool {
    match match_output(l) {
        Some((ns, ne, a, b)) => targets.contains(trim(l.subrange(ns, ne))),
        None => false,
    }
}

/// Rewriting keeps the line count and leaves every line untouched except
/// the matching output lines of a target display.
pub proof fn lemma_rewrite_touches_only_matches(
    lines: Seq<Seq<u8>>,
    targets: Seq<Seq<u8>>,
    v: u64,
)
    ensures
        rewrite_lines(lines, targets, v).len() == lines.len(),
        forall|i: int|
            0 <= i < lines.len() && !line_is_target_match(lines[i], targets)
                ==> #[trigger] rewrite_lines(lines, targets, v)[i] == lines[i],
{
}

/// Rewrite one line.
exec fn rewrite_one(l: &Vec<u8>, targets: &Vec<Vec<u8>>, num: &Vec<u8>, v: u64) -> (r: Vec<u8>)
    requires
        num@ == fmt_scale(v),
    ensures
        r@ == rewrite_line(l@, targets.deep_view(), v),
{
    match match_output_line(l) {
        Some((ns, ne, a, b)) => {
            let name = trim_bytes(l, ns, ne);
            if contains_bytes(targets, &name) {
                let mut r: Vec<u8> = Vec::new();
                r.push(111u8);
                r.push(117u8);
                r.push(116u8);
                r.push(112u8);
                r.push(117u8);
                r.push(116u8);
                r.push(32u8);
                r.push(34u8);
                let mut k: usize = 0;
                let ghost head = r@;
                while k < name.len()
                    invariant
                        0 <= k <= name@.len(),
                        r@ == head + name@.subrange(0, k as int),
                    decreases name@.len() - k,
                {
                    r.push(name[k]);
                    proof {
                        assert(head + name@.subrange(0, k + 1) =~= (head + name@.subrange(
                            0,
                            k as int,
                        )).push(name@[k as int]));
                    }
                    k = k + 1;
                }
                proof {
                    assert(name@.subrange(0, name@.len() as int) =~= name@);
                }
                r.push(34u8);
                r.push(32u8);
                r.push(115u8);
                r.push(99u8);
                r.push(97u8);
                r.push(108u8);
                r.push(101u8);
                r.push(32u8);
                let mut k2: usize = 0;
                let ghost head2 = r@;
                while k2 < num.len()
                    invariant
                        0 <= k2 <= num@.len(),
                        r@ == head2 + num@.subrange(0, k2 as int),
                    decreases num@.len() - k2,
                {
                    r.push(num[k2]);
                    proof {
                        assert(head2 + num@.subrange(0, k2 + 1) =~= (head2 + num@.subrange(
                            0,
                            k2 as int,
                        )).push(num@[k2 as int]));
                    }
                    k2 = k2 + 1;
                }
                proof {
                    assert(num@.subrange(0, num@.len() as int) =~= num@);
                }
                let mut k3: usize = b;
                let ghost head3 = r@;
                while k3 < l.len()
                    invariant
                        b <= k3 <= l@.len(),
                        r@ == head3 + l@.subrange(b as int, k3 as int),
                    decreases l@.len() - k3,
                {
                    r.push(l[k3]);
                    proof {
                        assert(head3 + l@.subrange(b as int, k3 + 1) =~= (head3 + l@.subrange(
                            b as int,
                            k3 as int,
                        )).push(l@[k3 as int]));
                    }
                    k3 = k3 + 1;
                }
                proof {
                    assert(r@ =~= rebuild_line(
                        name@,
                        num@,
                        l@.subrange(b as int, l@.len() as int),
                    ));
                }
                r
            } else {
                crate::inspect::line_sub(l, 0, l.len())
            }
        },
        None => {
            let r = crate::inspect::line_sub(l, 0, l.len());
            proof {
                assert(l@.subrange(0, l@.len() as int) =~= l@);
            }
            r
        },
    }
}

/// Rewrite the whole file: every matching output line of a target display
/// carries the new scale; the line count and every other line are kept
/// exactly.
pub exec fn update_scale_in_outputs(lines: &Vec<Vec<u8>>, targets: &Vec<Vec<u8>>, new_scale: u64)
    -> (r: Vec<Vec<u8>>)
    ensures
        r.deep_view() == rewrite_lines(lines.deep_view(), targets.deep_view(), new_scale),
        r@.len() == lines@.len(),
{
    let ghost deep = lines.deep_view();
    let ghost tdeep = targets.deep_view();
    let num = fmt_scale_bytes(new_scale);
    let mut r: Vec<Vec<u8>> = Vec::new();
    let mut i: usize = 0;
    while i < lines.len()
        invariant
            deep == lines.deep_view(),
            tdeep == targets.deep_view(),
            deep.len() == lines@.len(),
            num@ == fmt_scale(new_scale),
            0 <= i <= lines@.len(),
            r@.len() == i,
            r.deep_view() =~= rewrite_lines(deep, tdeep, new_scale).subrange(0, i as int),
        decreases lines@.len() - i,
    {
        proof {
            assert(deep[i as int] =~= lines@[i as int]@);
        }
        let ghost old_deep = r.deep_view();
        let line = rewrite_one(&lines[i], targets, &num, new_scale);
        r.push(line);
        proof {
            assert(line.deep_view() =~= line@);
            assert(r.deep_view() =~= old_deep.push(line@));
            assert(rewrite_lines(deep, tdeep, new_scale).subrange(0, i + 1) =~= rewrite_lines(
                deep,
                tdeep,
                new_scale,
            ).subrange(0, i as int).push(rewrite_line(deep[i as int], tdeep, new_scale)));
        }
        i = i + 1;
    }
    proof {
        assert(rewrite_lines(deep, tdeep, new_scale).subrange(
            0,
            deep.len() as int,
        ) =~= rewrite_lines(deep, tdeep, new_scale));
    }
    r
}

} // verus!
