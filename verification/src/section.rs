//! Locating the marker-bounded scale-options section and extracting the
//! declared target displays and permitted scale values from it.
//!
//! The section starts at the first line containing `Scale Options Start`
//! and ends at the first later line containing `Scale Options End`, both
//! inclusive. Inside it, every line containing `# Target Display = `
//! contributes the trimmed text after that prefix as a display name, and
//! the last line containing `# Scale Options = ` sets the scale list: the
//! text after the prefix split on commas, each token trimmed and parsed as
//! a decimal scale, unparsable tokens dropped.

use vstd::prelude::*;
use crate::text::{contains_sub, find_sub, skip_until, trim};
use crate::text::{contains_pattern, find_pattern, trim_bytes};
use crate::scale::{parse_scale_trimmed};
use crate::scale::{parse_scale_bytes};

verus! {

/// A fatal configuration fault: the file cannot be interpreted.
#[derive(Clone, Copy, Debug, PartialEq, Eq, Structural)]
pub enum ConfigError {
    /// No line contains the section start marker.
    MissingStartMarker,
    /// No line after the start marker contains the end marker.
    MissingEndMarker,
    /// The section declares no target display.
    NoTargetDisplays,
    /// The section declares no parsable scale value.
    NoScaleValues,
}

/// The contents of the scale-options section: the declared display names
/// (in order, duplicates kept) and the declared scale values in micros
/// (in declaration order, not sorted).
pub struct ScaleOptions {
    pub target_displays: Vec<Vec<u8>>,
    pub scale_values: Vec<u64>,
}

pub open spec fn start_marker() -> Seq<u8> {
    seq![83u8, 99u8, 97u8, 108u8, 101u8, 32u8, 79u8, 112u8, 116u8, 105u8, 111u8, 110u8, 115u8, 32u8, 83u8, 116u8, 97u8, 114u8, 116u8]
}

pub open spec fn end_marker() -> Seq<u8> {
    seq![83u8, 99u8, 97u8, 108u8, 101u8, 32u8, 79u8, 112u8, 116u8, 105u8, 111u8, 110u8, 115u8, 32u8, 69u8, 110u8, 100u8]
}

pub open spec fn target_prefix() -> Seq<u8> {
    seq![35u8, 32u8, 84u8, 97u8, 114u8, 103u8, 101u8, 116u8, 32u8, 68u8, 105u8, 115u8, 112u8, 108u8, 97u8, 121u8, 32u8, 61u8, 32u8]
}

pub open spec fn scale_prefix() -> Seq<u8> {
    seq![35u8, 32u8, 83u8, 99u8, 97u8, 108u8, 101u8, 32u8, 79u8, 112u8, 116u8, 105u8, 111u8, 110u8, 115u8, 32u8, 61u8, 32u8]
}

exec fn start_marker_vec() -> (v: Vec<u8>)
    ensures
        v@ == start_marker(),
{
    let mut v: Vec<u8> = Vec::new();
    v.push(83u8);
    v.push(99u8);
    v.push(97u8);
    v.push(108u8);
    v.push(101u8);
    v.push(32u8);
    v.push(79u8);
    v.push(112u8);
    v.push(116u8);
    v.push(105u8);
    v.push(111u8);
    v.push(110u8);
    v.push(115u8);
    v.push(32u8);
    v.push(83u8);
    v.push(116u8);
    v.push(97u8);
    v.push(114u8);
    v.push(116u8);
    proof {
        assert(v@ =~= start_marker());
    }
    v
}

exec fn end_marker_vec() -> (v: Vec<u8>)
    ensures
        v@ == end_marker(),
{
    let mut v: Vec<u8> = Vec::new();
    v.push(83u8);
    v.push(99u8);
    v.push(97u8);
    v.push(108u8);
    v.push(101u8);
    v.push(32u8);
    v.push(79u8);
    v.push(112u8);
    v.push(116u8);
    v.push(105u8);
    v.push(111u8);
    v.push(110u8);
    v.push(115u8);
    v.push(32u8);
    v.push(69u8);
    v.push(110u8);
    v.push(100u8);
    proof {
        assert(v@ =~= end_marker());
    }
    v
}

exec fn target_prefix_vec() -> (v: Vec<u8>)
    ensures
        v@ == target_prefix(),
{
    let mut v: Vec<u8> = Vec::new();
    v.push(35u8);
    v.push(32u8);
    v.push(84u8);
    v.push(97u8);
    v.push(114u8);
    v.push(103u8);
    v.push(101u8);
    v.push(116u8);
    v.push(32u8);
    v.push(68u8);
    v.push(105u8);
    v.push(115u8);
    v.push(112u8);
    v.push(108u8);
    v.push(97u8);
    v.push(121u8);
    v.push(32u8);
    v.push(61u8);
    v.push(32u8);
    proof {
        assert(v@ =~= target_prefix());
    }
    v
}

exec fn scale_prefix_vec() -> (v: Vec<u8>)
    ensures
        v@ == scale_prefix(),
{
    let mut v: Vec<u8> = Vec::new();
    v.push(35u8);
    v.push(32u8);
    v.push(83u8);
    v.push(99u8);
    v.push(97u8);
    v.push(108u8);
    v.push(101u8);
    v.push(32u8);
    v.push(79u8);
    v.push(112u8);
    v.push(116u8);
    v.push(105u8);
    v.push(111u8);
    v.push(110u8);
    v.push(115u8);
    v.push(32u8);
    v.push(61u8);
    v.push(32u8);
    proof {
        assert(v@ =~= scale_prefix());
    }
    v
}

/// First line index at or after `i` whose line contains `pat`, or the
/// number of lines if there is none.
pub open spec fn find_line_with(lines: Seq<Seq<u8>>, pat: Seq<u8>, i: int) -> int
    decreases lines.len() - i,
{
    if i < 0 || i >= lines.len() {
        lines.len() as int
    } else if contains_sub(lines[i], pat) {
        i
    } else {
        find_line_with(lines, pat, i + 1)
    }
}

pub proof fn lemma_find_line_with_is(lines: Seq<Seq<u8>>, pat: Seq<u8>, i: int, j: int)
    requires
        0 <= i <= j <= lines.len(),
        forall|k: int| i <= k < j ==> !contains_sub(lines[k], pat),
        j == lines.len() || contains_sub(lines[j], pat),
    ensures
        find_line_with(lines, pat, i) == j,
    decreases j - i,
{
    if i < j {
        lemma_find_line_with_is(lines, pat, i + 1, j);
    }
}

/// Where the scale-options section sits: the index of the first line
/// containing the start marker and of the first later line containing the
/// end marker, or the fatal error when either is missing.
pub open spec fn section_bounds(lines: Seq<Seq<u8>>) -> Result<(int, int), ConfigError> {
    let s = find_line_with(lines, start_marker(), 0);
    if s == lines.len() {
        Err(ConfigError::MissingStartMarker)
    } else {
        let e = find_line_with(lines, end_marker(), s + 1);
        if e == lines.len() {
            Err(ConfigError::MissingEndMarker)
        } else {
            Ok((s, e))
        }
    }
}

/// Locate the section in a file held as byte lines.
pub exec fn find_section(lines: &Vec<Vec<u8>>) -> (r: Result<(usize, usize), ConfigError>)
    ensures
        match r {
            Ok((s, e)) => {
                &&& section_bounds(lines.deep_view()) == Ok::<(int, int), ConfigError>((s as int, e as int))
                &&& s < e < lines@.len()
            },
            Err(err) => section_bounds(lines.deep_view()) == Err::<(int, int), _>(err),
        },
{
    let ghost deep = lines.deep_view();
    proof {
        assert(deep.len() == lines@.len());
    }
    let start_pat = start_marker_vec();
    let end_pat = end_marker_vec();
    let n = lines.len();
    let mut s: usize = 0;
    let mut s_found = false;
    while s < n && !s_found
        invariant
            n == lines@.len(),
            deep == lines.deep_view(),
            0 <= s <= n,
            start_pat@ == start_marker(),
            forall|k: int| 0 <= k < s ==> !contains_sub(deep[k], start_marker()),
            s_found ==> s < n && contains_sub(deep[s as int], start_marker()),
        decreases n - s + (if s_found { 0int } else { 1int }),
    {
        proof {
            assert(deep[s as int] == lines@[s as int]@);
        }
        if contains_pattern(&lines[s], &start_pat) {
            s_found = true;
        } else {
            s = s + 1;
        }
    }
    if !s_found {
        proof {
            lemma_find_line_with_is(deep, start_marker(), 0, deep.len() as int);
        }
        return Err(ConfigError::MissingStartMarker);
    }
    proof {
        lemma_find_line_with_is(deep, start_marker(), 0, s as int);
    }
    let mut e: usize = s + 1;
    let mut e_found = false;
    while e < n && !e_found
        invariant
            n == lines@.len(),
            deep == lines.deep_view(),
            s < n,
            s + 1 <= e <= n,
            end_pat@ == end_marker(),
            forall|k: int| s + 1 <= k < e ==> !contains_sub(deep[k], end_marker()),
            e_found ==> e < n && contains_sub(deep[e as int], end_marker()),
        decreases n - e + (if e_found { 0int } else { 1int }),
    {
        proof {
            assert(deep[e as int] == lines@[e as int]@);
        }
        if contains_pattern(&lines[e], &end_pat) {
            e_found = true;
        } else {
            e = e + 1;
        }
    }
    if !e_found {
        proof {
            lemma_find_line_with_is(deep, end_marker(), s + 1, deep.len() as int);
        }
        return Err(ConfigError::MissingEndMarker);
    }
    proof {
        lemma_find_line_with_is(deep, end_marker(), s + 1, e as int);
    }
    Ok((s, e))
}

/// The text a line contributes after `pat`: present when `pat` occurs in
/// the line with at least one byte following its first occurrence.
pub open spec fn capture_after(l: Seq<u8>, pat: Seq<u8>) -> Option<Seq<u8>> {
    let k = find_sub(l, pat, 0);
    if k < 0 || k + pat.len() >= l.len() {
        None
    } else {
        Some(l.subrange(k + pat.len(), l.len() as int))
    }
}

/// The display name a section line declares, trimmed.
pub open spec fn target_capture(l: Seq<u8>) -> Option<Seq<u8>> {
    capture_after(l, target_prefix())
}

/// The scale-list text a section line declares. A line that declares a
/// target display never also declares scale values.
pub open spec fn scale_capture(l: Seq<u8>) -> Option<Seq<u8>> {
    if target_capture(l) is Some {
        None
    } else {
        capture_after(l, scale_prefix())
    }
}

/// Executable capture of the text after the first occurrence of `pat`.
exec fn capture_after_bytes(l: &Vec<u8>, pat: &Vec<u8>) -> (r: Option<(usize, usize)>)
    ensures
        match r {
            Some((a, b)) => {
                &&& a <= b <= l@.len()
                &&& capture_after(l@, pat@) == Some(l@.subrange(a as int, b as int))
            },
            None => capture_after(l@, pat@) is None,
        },
{
    match find_pattern(l, pat) {
        Some(k) => {
            proof {
                crate::text::lemma_find_sub_bounds(l@, pat@, 0);
            }
            if pat.len() < l.len() - k {
                Some((k + pat.len(), l.len()))
            } else {
                None
            }
        },
        None => None,
    }
}

/// The display names declared by a sequence of section lines, in order.
pub open spec fn section_displays(lines: Seq<Seq<u8>>) -> Seq<Seq<u8>>
    decreases lines.len(),
{
    if lines.len() == 0 {
        Seq::<Seq<u8>>::empty()
    } else {
        let prior = section_displays(lines.drop_last());
        match target_capture(lines.last()) {
            Some(c) => prior.push(trim(c)),
            None => prior,
        }
    }
}

/// The scale values declared by a sequence of section lines: the list of
/// the last line carrying one, parsed.
pub open spec fn section_values(lines: Seq<Seq<u8>>) -> Seq<u64>
    decreases lines.len(),
{
    if lines.len() == 0 {
        Seq::<u64>::empty()
    } else {
        let prior = section_values(lines.drop_last());
        match scale_capture(lines.last()) {
            Some(c) => scale_list(c),
            None => prior,
        }
    }
}

/// Comma-separated tokens of `s` from position `i` on (empty tokens kept).
pub open spec fn split_commas_from(s: Seq<u8>, i: int) -> Seq<Seq<u8>>
    decreases s.len() - i,
{
    if i < 0 || i > s.len() {
        Seq::<Seq<u8>>::empty()
    } else {
        let c = skip_until(s, i, 44);
        if c < i || c > s.len() {
            Seq::<Seq<u8>>::empty()
        } else if c == s.len() {
            seq![s.subrange(i, c)]
        } else {
            seq![s.subrange(i, c)] + split_commas_from(s, c + 1)
        }
    }
}

/// The scales a comma-separated list denotes: each token trimmed and
/// parsed, tokens that fail to parse dropped.
pub open spec fn collect_scales(toks: Seq<Seq<u8>>) -> Seq<u64>
    decreases toks.len(),
{
    if toks.len() == 0 {
        Seq::<u64>::empty()
    } else {
        let rest = collect_scales(toks.drop_first());
        match parse_scale_trimmed(toks.first()) {
            Some(v) => seq![v] + rest,
            None => rest,
        }
    }
}

pub open spec fn scale_list(s: Seq<u8>) -> Seq<u64> {
    collect_scales(split_commas_from(s, 0))
}

/// Parse the comma-separated scale list held in `l[from..to]`.
exec fn parse_scale_list(l: &Vec<u8>, from: usize, to: usize) -> (r: Vec<u64>)
    requires
        from <= to <= l@.len(),
    ensures
        r@ == scale_list(l@.subrange(from as int, to as int)),
{
    let ghost s = l@.subrange(from as int, to as int);
    let mut r: Vec<u64> = Vec::new();
    let mut i: usize = from;
    let mut more = true;
    while more
        invariant
            from <= i <= to <= l@.len(),
            s == l@.subrange(from as int, to as int),
            more ==> collect_scales(split_commas_from(s, 0)) == r@ + collect_scales(
                split_commas_from(s, i - from),
            ),
            !more ==> r@ == scale_list(s),
        decreases to - i + (if more { 1int } else { 0int }),
    {
        let c = scan_to_in(l, i, to);
        let tok = trim_bytes(l, i, c);
        let ghost spec_tok = s.subrange(i - from, c - from);
        proof {
            assert(l@.subrange(i as int, c as int) =~= spec_tok);
            assert(forall|k: int| 0 <= k < s.len() ==> s[k] == l@[from + k]);
            assert(forall|k: int| i - from <= k < c - from ==> s[k] != 44);
            if c < to {
                assert(s[c - from] == l@[c as int]);
            }
            crate::text::lemma_skip_until_is(s, i - from, c - from, 44);
        }
        let parsed = parse_scale_bytes(&tok);
        let ghost old_r = r@;
        match parsed {
            Some(v) => { r.push(v); },
            None => {},
        }
        proof {
            let tail = split_commas_from(s, i - from);
            let c0 = skip_until(s, i - from, 44);
            assert(c0 == c - from);
            if c == to {
                assert(tail =~= seq![spec_tok]);
                assert(tail.first() == spec_tok);
                assert(collect_scales(tail) == match parse_scale_trimmed(spec_tok) {
                    Some(v) => seq![v] + collect_scales(tail.drop_first()),
                    None => collect_scales(tail.drop_first()),
                });
                assert(tail.drop_first() =~= Seq::<Seq<u8>>::empty());
                match parse_scale_trimmed(spec_tok) {
                    Some(v) => {
                        assert(collect_scales(tail) =~= seq![v]);
                        assert(r@ =~= old_r + seq![v]);
                    },
                    None => {
                        assert(collect_scales(tail) =~= Seq::<u64>::empty());
                    },
                }
                assert(r@ + collect_scales(Seq::<Seq<u8>>::empty()) =~= r@);
                assert(collect_scales(split_commas_from(s, 0)) == r@);
            } else {
                let rest = split_commas_from(s, c - from + 1);
                assert(tail == seq![spec_tok] + rest);
                assert(tail.first() == spec_tok);
                assert(tail.drop_first() =~= rest);
                match parse_scale_trimmed(spec_tok) {
                    Some(v) => {
                        assert(collect_scales(tail) == seq![v] + collect_scales(rest));
                        assert(r@ =~= old_r + seq![v]);
                        assert(r@ + collect_scales(rest) =~= old_r + collect_scales(tail));
                    },
                    None => {
                        assert(collect_scales(tail) == collect_scales(rest));
                    },
                }
            }
        }
        if c == to {
            more = false;
        } else {
            i = c + 1;
        }
    }
    r
}

/// Scan for a comma inside `l[from..to]` only.
exec fn scan_to_in(l: &Vec<u8>, from: usize, to: usize) -> (r: usize)
    requires
        from <= to <= l@.len(),
    ensures
        from <= r <= to,
        forall|k: int| from <= k < r ==> l@[k] != 44,
        r < to ==> l@[r as int] == 44,
{
    let mut j: usize = from;
    while j < to && l[j] != 44
        invariant
            from <= j <= to <= l@.len(),
            forall|k: int| from <= k < j ==> l@[k] != 44,
        decreases to - j,
    {
        j = j + 1;
    }
    j
}

/// What parsing a section yields: the declared displays and values, or the
/// fatal error when either list comes out empty.
pub open spec fn parse_section_spec(sec: Seq<Seq<u8>>) -> Result<(Seq<Seq<u8>>, Seq<u64>), ConfigError> {
    let ds = section_displays(sec);
    let vs = section_values(sec);
    if ds.len() == 0 {
        Err(ConfigError::NoTargetDisplays)
    } else if vs.len() == 0 {
        Err(ConfigError::NoScaleValues)
    } else {
        Ok((ds, vs))
    }
}

/// Parse the section lines `lines[from..to]` into the declared target
/// displays and scale values.
pub exec fn parse_scale_options(lines: &Vec<Vec<u8>>, from: usize, to: usize) -> (r: Result<
    ScaleOptions,
    ConfigError,
>)
    requires
        from <= to <= lines@.len(),
    ensures
        match r {
            Ok(opts) => parse_section_spec(lines.deep_view().subrange(from as int, to as int))
                == Ok::<(Seq<Seq<u8>>, Seq<u64>), ConfigError>((
                opts.target_displays.deep_view(),
                opts.scale_values@,
            )),
            Err(err) => parse_section_spec(lines.deep_view().subrange(from as int, to as int))
                == Err::<(Seq<Seq<u8>>, Seq<u64>), ConfigError>(err),
        },
{
    let ghost sec = lines.deep_view().subrange(from as int, to as int);
    let target_pat = target_prefix_vec();
    let scale_pat = scale_prefix_vec();
    let mut displays: Vec<Vec<u8>> = Vec::new();
    let mut values: Vec<u64> = Vec::new();
    let mut i: usize = from;
    proof {
        assert(sec.subrange(0, 0) =~= Seq::<Seq<u8>>::empty());
    }
    while i < to
        invariant
            from <= i <= to <= lines@.len(),
            sec == lines.deep_view().subrange(from as int, to as int),
            target_pat@ == target_prefix(),
            scale_pat@ == scale_prefix(),
            displays.deep_view() == section_displays(sec.subrange(0, i - from)),
            values@ == section_values(sec.subrange(0, i - from)),
        decreases to - i,
    {
        let ghost prefix = sec.subrange(0, i - from);
        let ghost prefix1 = sec.subrange(0, i - from + 1);
        proof {
            assert(prefix1.drop_last() =~= prefix);
            assert(prefix1.last() == sec[i - from]);
            assert(sec[i - from] == lines.deep_view()[i as int]);
            assert(lines.deep_view()[i as int] =~= lines@[i as int]@);
        }
        let line = &lines[i];
        match capture_after_bytes(line, &target_pat) {
            Some((a, b)) => {
                let name = trim_bytes(line, a, b);
                let ghost old_disp = displays.deep_view();
                displays.push(name);
                proof {
                    assert(name@ =~= name.deep_view());
                    assert(displays.deep_view() =~= old_disp.push(name.deep_view()));
                    assert(section_displays(prefix1) == old_disp.push(trim(
                        line@.subrange(a as int, b as int),
                    )));
                    assert(section_values(prefix1) == section_values(prefix));
                }
            },
            None => {
                proof {
                    assert(section_displays(prefix1) == section_displays(prefix));
                }
                match capture_after_bytes(line, &scale_pat) {
                    Some((a, b)) => {
                        values = parse_scale_list(line, a, b);
                        proof {
                            assert(section_values(prefix1) == scale_list(
                                line@.subrange(a as int, b as int),
                            ));
                        }
                    },
                    None => {
                        proof {
                            assert(section_values(prefix1) == section_values(prefix));
                        }
                    },
                }
            },
        }
        i = i + 1;
    }
    proof {
        assert(sec.subrange(0, to - from) =~= sec);
    }
    if displays.len() == 0 {
        proof {
            assert(displays.deep_view().len() == displays@.len());
        }
        return Err(ConfigError::NoTargetDisplays);
    }
    if values.len() == 0 {
        proof {
            assert(displays.deep_view().len() == displays@.len());
        }
        return Err(ConfigError::NoScaleValues);
    }
    proof {
        assert(displays.deep_view().len() == displays@.len());
    }
    Ok(ScaleOptions { target_displays: displays, scale_values: values })
}

} // verus!
