//! Matching `output "<name>" scale <number>` lines and deriving the
//! current scale across the target displays.
//!
//! A line matches when it starts (no leading whitespace) with the word
//! `output`, then whitespace, a double-quoted non-empty name, whitespace,
//! the word `scale`, whitespace, and a number token of digits and dots.
//! The name is trimmed before it is compared with the target displays;
//! the number token is parsed as a decimal scale, an unparsable token
//! counting as the scale 1.0.
//!
//! Readings are compared exactly in micros: two scales within the
//! customary absolute tolerance of one millionth are the same value in
//! this representation.

use vstd::prelude::*;
use crate::text::{is_numch, skip_num, skip_until, skip_ws, trim};
use crate::text::{
    lemma_skip_num_bounds, lemma_skip_until_bounds, lemma_skip_ws_bounds, matches_at, num_byte,
    scan_num, scan_to, scan_ws, trim_bytes,
};
use crate::scale::{parse_scale, SCALE_ONE};
use crate::scale::{parse_scale_bytes};

verus! {

pub open spec fn output_word() -> Seq<u8> {
    seq![111u8, 117u8, 116u8, 112u8, 117u8, 116u8]
}

pub open spec fn scale_word() -> Seq<u8> {
    seq![115u8, 99u8, 97u8, 108u8, 101u8]
}

exec fn output_word_vec() -> (v: Vec<u8>)
    ensures
        v@ == output_word(),
{
    let mut v: Vec<u8> = Vec::new();
    v.push(111u8);
    v.push(117u8);
    v.push(116u8);
    v.push(112u8);
    v.push(117u8);
    v.push(116u8);
    proof {
        assert(v@ =~= output_word());
    }
    v
}

exec fn scale_word_vec() -> (v: Vec<u8>)
    ensures
        v@ == scale_word(),
{
    let mut v: Vec<u8> = Vec::new();
    v.push(115u8);
    v.push(99u8);
    v.push(97u8);
    v.push(108u8);
    v.push(101u8);
    proof {
        assert(v@ =~= scale_word());
    }
    v
}

/// Capture positions of a matching output line: the name sits in
/// `[name_start, name_end)`, the number token in `[num_start, num_end)`;
/// everything from `num_end` on is trailing text.
pub open spec fn match_output(s: Seq<u8>) -> Option<(int, int, int, int)> {
    if s.len() < 6 || s.subrange(0, 6) != output_word() {
        None
    } else {
        let q = skip_ws(s, 6);
        if q <= 6 || q >= s.len() || s[q] != 34 {
            None
        } else {
            let ne = skip_until(s, q + 1, 34);
            if ne <= q + 1 || ne >= s.len() {
                None
            } else {
                let w = skip_ws(s, ne + 1);
                if w <= ne + 1 || w + 5 > s.len() || s.subrange(w, w + 5) != scale_word() {
                    None
                } else {
                    let a = skip_ws(s, w + 5);
                    if a <= w + 5 || a >= s.len() || !is_numch(s[a]) {
                        None
                    } else {
                        Some((q + 1, ne, a, skip_num(s, a)))
                    }
                }
            }
        }
    }
}

/// The positions a match yields are ordered and in bounds.
pub proof fn lemma_match_output_bounds(s: Seq<u8>)
    requires
        match_output(s) is Some,
    ensures
        ({
            let (ns, ne, a, b) = match_output(s).unwrap();
            &&& 7 <= ns < ne < a < b <= s.len()
            &&& forall|k: int| ns <= k < ne ==> s[k] != 34
            &&& forall|k: int| a <= k < b ==> is_numch(s[k])
            &&& b < s.len() ==> !is_numch(s[b])
        }),
{
    lemma_skip_ws_bounds(s, 6);
    let q = skip_ws(s, 6);
    lemma_skip_until_bounds(s, q + 1, 34);
    let ne = skip_until(s, q + 1, 34);
    lemma_skip_ws_bounds(s, ne + 1);
    let w = skip_ws(s, ne + 1);
    lemma_skip_ws_bounds(s, w + 5);
    let a = skip_ws(s, w + 5);
    lemma_skip_num_bounds(s, a);
}

/// Executable matcher; returns the capture positions.
pub exec fn match_output_line(s: &Vec<u8>) -> (r: Option<(usize, usize, usize, usize)>)
    ensures
        match r {
            Some((ns, ne, a, b)) => {
                &&& match_output(s@) == Some((ns as int, ne as int, a as int, b as int))
                &&& ns <= ne <= s@.len()
                &&& a <= b <= s@.len()
            },
            None => match_output(s@) is None,
        },
{
    let out_w = output_word_vec();
    if !matches_at(s, &out_w, 0) {
        proof {
            if s@.len() >= 6 {
                assert(s@.subrange(0, 6).len() == out_w@.len());
            }
        }
        return None;
    }
    proof {
        assert(s@.subrange(0, 6) == output_word());
    }
    let q = scan_ws(s, 6);
    if q == 6 || q == s.len() || s[q] != 34 {
        return None;
    }
    let ne = scan_to(s, q + 1, 34);
    if ne == q + 1 || ne == s.len() {
        return None;
    }
    let w = scan_ws(s, ne + 1);
    let scale_w = scale_word_vec();
    if w == ne + 1 || !matches_at(s, &scale_w, w) {
        proof {
            if !(w == ne + 1) && w + 5 <= s@.len() {
                assert(s@.subrange(w as int, w + 5).len() == scale_w@.len());
            }
        }
        return None;
    }
    proof {
        assert(s@.subrange(w as int, w + 5) == scale_word());
    }
    let a = scan_ws(s, w + 5);
    if a == w + 5 || a == s.len() {
        return None;
    }
    if !num_byte(s[a]) {
        return None;
    }
    let b = scan_num(s, a);
    Some((q + 1, ne, a, b))
}

/// The scale reading an output line contributes for the given targets:
/// present when the line matches and its trimmed name is a target. An
/// unparsable number token reads as 1.0.
pub open spec fn line_reading(l: Seq<u8>, targets: Seq<Seq<u8>>) -> Option<u64> {
    match match_output(l) {
        Some((ns, ne, a, b)) => {
            if targets.contains(trim(l.subrange(ns, ne))) {
                Some(
                    match parse_scale(l.subrange(a, b)) {
                        Some(v) => v,
                        None => SCALE_ONE,
                    },
                )
            } else {
                None
            }
        },
        None => None,
    }
}

/// All readings of a file, in scan order.
pub open spec fn readings(lines: Seq<Seq<u8>>, targets: Seq<Seq<u8>>) -> Seq<u64>
    decreases lines.len(),
{
    if lines.len() == 0 {
        Seq::<u64>::empty()
    } else {
        let prior = readings(lines.drop_last(), targets);
        match line_reading(lines.last(), targets) {
            Some(v) => prior.push(v),
            None => prior,
        }
    }
}

/// How trustworthy the derived current scale is.
#[derive(Clone, Copy, Debug, PartialEq, Eq, Structural)]
pub enum ReadingStatus {
    /// Every reading agreed (at least one was found).
    Consistent,
    /// No output line matched a target display; 1.0 was assumed.
    NoReadings,
    /// Readings disagreed; the first in scan order was kept.
    Inconsistent,
}

pub open spec fn all_same(rs: Seq<u64>) -> bool {
    forall|i: int| 0 <= i < rs.len() ==> #[trigger] rs[i] == rs[0]
}

/// The derived current scale and its status: 1.0 when nothing was read,
/// otherwise the first reading in scan order.
pub open spec fn current_scale_spec(lines: Seq<Seq<u8>>, targets: Seq<Seq<u8>>) -> (
    u64,
    ReadingStatus,
) {
    let rs = readings(lines, targets);
    if rs.len() == 0 {
        (SCALE_ONE, ReadingStatus::NoReadings)
    } else if all_same(rs) {
        (rs[0], ReadingStatus::Consistent)
    } else {
        (rs[0], ReadingStatus::Inconsistent)
    }
}

/// When no output line matches a target display, the derived current
/// scale falls back to 1.0 and the caller is told so.
pub proof fn lemma_no_readings_defaults(lines: Seq<Seq<u8>>, targets: Seq<Seq<u8>>)
    requires
        readings(lines, targets).len() == 0,
    ensures
        current_scale_spec(lines, targets) == (SCALE_ONE, ReadingStatus::NoReadings),
{
}

/// Compare two byte vectors.
pub exec fn bytes_eq(a: &Vec<u8>, b: &Vec<u8>) -> (r: bool)
    ensures
        r == (a@ == b@),
{
    if a.len() != b.len() {
        return false;
    }
    let mut k: usize = 0;
    while k < a.len()
        invariant
            a@.len() == b@.len(),
            0 <= k <= a@.len(),
            forall|m: int| 0 <= m < k ==> a@[m] == b@[m],
        decreases a@.len() - k,
    {
        if a[k] != b[k] {
            return false;
        }
        k = k + 1;
    }
    proof {
        assert(a@ =~= b@);
    }
    true
}

/// Whether `x` is among the byte vectors of `set`.
pub exec fn contains_bytes(set: &Vec<Vec<u8>>, x: &Vec<u8>) -> (r: bool)
    ensures
        r == set.deep_view().contains(x@),
{
    let ghost deep = set.deep_view();
    let mut j: usize = 0;
    while j < set.len()
        invariant
            deep == set.deep_view(),
            deep.len() == set@.len(),
            0 <= j <= set@.len(),
            forall|m: int| 0 <= m < j ==> deep[m] != x@,
        decreases set@.len() - j,
    {
        proof {
            assert(deep[j as int] =~= set@[j as int]@);
        }
        if bytes_eq(&set[j], x) {
            return true;
        }
        j = j + 1;
    }
    proof {
        if deep.contains(x@) {
            let m = choose|m: int| 0 <= m < deep.len() && deep[m] == x@;
            assert(deep[m] != x@);
        }
    }
    false
}

/// Derive the current scale for the target displays by scanning every
/// line of the file.
pub exec fn get_current_scale(lines: &Vec<Vec<u8>>, targets: &Vec<Vec<u8>>) -> (r: (
    u64,
    ReadingStatus,
))
    ensures
        r == current_scale_spec(lines.deep_view(), targets.deep_view()),
{
    let ghost deep = lines.deep_view();
    let ghost tdeep = targets.deep_view();
    let mut first: u64 = SCALE_ONE;
    let mut count: usize = 0;
    let mut same = true;
    let mut i: usize = 0;
    proof {
        assert(deep.subrange(0, 0) =~= Seq::<Seq<u8>>::empty());
    }
    while i < lines.len()
        invariant
            deep == lines.deep_view(),
            tdeep == targets.deep_view(),
            deep.len() == lines@.len(),
            0 <= i <= lines@.len(),
            count <= i,
            ({
                let rs = readings(deep.subrange(0, i as int), tdeep);
                &&& count == 0 <==> rs.len() == 0
                &&& count > 0 ==> rs.len() > 0 && first == rs[0]
                &&& same == all_same(rs)
            }),
        decreases lines@.len() - i,
    {
        let ghost prefix = deep.subrange(0, i as int);
        let ghost prefix1 = deep.subrange(0, i as int + 1);
        proof {
            assert(prefix1.drop_last() =~= prefix);
            assert(prefix1.last() == deep[i as int]);
            assert(deep[i as int] =~= lines@[i as int]@);
        }
        let line = &lines[i];
        let ghost rs = readings(prefix, tdeep);
        let ghost rs1 = readings(prefix1, tdeep);
        match match_output_line(line) {
            Some((ns, ne, a, b)) => {
                let name = trim_bytes(line, ns, ne);
                if contains_bytes(targets, &name) {
                    let v = match parse_scale_bytes(&line_sub(line, a, b)) {
                        Some(v) => v,
                        None => SCALE_ONE,
                    };
                    proof {
                        assert(line_reading(prefix1.last(), tdeep) == Some(v));
                        assert(rs1 =~= rs.push(v));
                        assert(rs1[0] == if rs.len() == 0 {
                            v
                        } else {
                            rs[0]
                        });
                    }
                    if count == 0 {
                        first = v;
                        proof {
                            assert(all_same(rs1));
                        }
                    } else {
                        if v != first {
                            same = false;
                        }
                        proof {
                            if same {
                                assert forall|k: int| 0 <= k < rs1.len() implies #[trigger] rs1[k] == rs1[0]
                                    by {
                                    if k < rs.len() {
                                        assert(rs1[k] == rs[k]);
                                    }
                                }
                            } else {
                                if all_same(rs1) {
                                    if !all_same(rs) {
                                        let k = choose|k: int|
                                            0 <= k < rs.len() && #[trigger] rs[k] != rs[0];
                                        assert(rs1[k] == rs[k]);
                                        assert(false);
                                    }
                                    assert(rs1[rs.len() as int] == rs1[0]);
                                    assert(false);
                                }
                            }
                        }
                    }
                    count = count + 1;
                } else {
                    proof {
                        assert(line_reading(prefix1.last(), tdeep) is None);
                        assert(rs1 =~= rs);
                    }
                }
            },
            None => {
                proof {
                    assert(line_reading(prefix1.last(), tdeep) is None);
                    assert(rs1 =~= rs);
                }
            },
        }
        i = i + 1;
    }
    proof {
        assert(deep.subrange(0, deep.len() as int) =~= deep);
    }
    if count == 0 {
        (SCALE_ONE, ReadingStatus::NoReadings)
    } else if same {
        (first, ReadingStatus::Consistent)
    } else {
        (first, ReadingStatus::Inconsistent)
    }
}

/// Copy the byte range `[from, to)` of `l` into a fresh vector.
pub exec fn line_sub(l: &Vec<u8>, from: usize, to: usize) -> (r: Vec<u8>)
    requires
        from <= to <= l@.len(),
    ensures
        r@ == l@.subrange(from as int, to as int),
{
    let mut r: Vec<u8> = Vec::new();
    let mut k: usize = from;
    while k < to
        invariant
            from <= k <= to <= l@.len(),
            r@ =~= l@.subrange(from as int, k as int),
        decreases to - k,
    {
        r.push(l[k]);
        proof {
            assert(r@ =~= l@.subrange(from as int, k + 1));
        }
        k = k + 1;
    }
    r
}

} // verus!
