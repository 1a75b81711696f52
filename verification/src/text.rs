//! Byte-level text primitives: character classes, scanning, substring
//! search and whitespace trimming, each with a specification-level
//! definition and a verified executable counterpart.

use vstd::prelude::*;

verus! {

/// ASCII whitespace, the class accepted between tokens of an output line.
pub open spec fn is_ws(b: u8) -> bool {
    b == 32 || b == 9 || b == 10 || b == 13 || b == 11 || b == 12
}

/// ASCII decimal digit.
pub open spec fn is_digit(b: u8) -> bool {
    48 <= b <= 57
}

/// A byte allowed inside a scale number token: a digit or a dot.
pub open spec fn is_numch(b: u8) -> bool {
    is_digit(b) || b == 46
}

pub exec fn ws_byte(b: u8) -> (r: bool)
    ensures
        r == is_ws(b),
{
    b == 32 || b == 9 || b == 10 || b == 13 || b == 11 || b == 12
}

pub exec fn digit_byte(b: u8) -> (r: bool)
    ensures
        r == is_digit(b),
{
    48 <= b && b <= 57
}

pub exec fn num_byte(b: u8) -> (r: bool)
    ensures
        r == is_numch(b),
{
    (48 <= b && b <= 57) || b == 46
}

/// First position at or after `i` that is not ASCII whitespace, or the
/// length of `s` if whitespace runs to the end.
pub open spec fn skip_ws(s: Seq<u8>, i: int) -> int
    decreases s.len() - i,
{
    if i < 0 || i >= s.len() || !is_ws(s[i]) {
        i
    } else {
        skip_ws(s, i + 1)
    }
}

/// First position at or after `i` that is not a number byte.
pub open spec fn skip_num(s: Seq<u8>, i: int) -> int
    decreases s.len() - i,
{
    if i < 0 || i >= s.len() || !is_numch(s[i]) {
        i
    } else {
        skip_num(s, i + 1)
    }
}

/// First position at or after `i` holding the byte `stop`, or the length
/// of `s` if `stop` does not occur from `i` on.
pub open spec fn skip_until(s: Seq<u8>, i: int, stop: u8) -> int
    decreases s.len() - i,
{
    if i < 0 || i >= s.len() || s[i] == stop {
        i
    } else {
        skip_until(s, i + 1, stop)
    }
}

/// `skip_ws` lands exactly on the boundary of the whitespace run at `i`.
pub proof fn lemma_skip_ws_is(s: Seq<u8>, i: int, j: int)
    requires
        0 <= i <= j <= s.len(),
        forall|k: int| i <= k < j ==> is_ws(s[k]),
        j == s.len() || !is_ws(s[j]),
    ensures
        skip_ws(s, i) == j,
    decreases j - i,
{
    if i < j {
        lemma_skip_ws_is(s, i + 1, j);
    }
}

pub proof fn lemma_skip_ws_bounds(s: Seq<u8>, i: int)
    requires
        0 <= i <= s.len(),
    ensures
        i <= skip_ws(s, i) <= s.len(),
        forall|k: int| i <= k < skip_ws(s, i) ==> is_ws(s[k]),
        skip_ws(s, i) < s.len() ==> !is_ws(s[skip_ws(s, i)]),
    decreases s.len() - i,
{
    if i < s.len() && is_ws(s[i]) {
        lemma_skip_ws_bounds(s, i + 1);
    }
}

pub proof fn lemma_skip_num_is(s: Seq<u8>, i: int, j: int)
    requires
        0 <= i <= j <= s.len(),
        forall|k: int| i <= k < j ==> is_numch(s[k]),
        j == s.len() || !is_numch(s[j]),
    ensures
        skip_num(s, i) == j,
    decreases j - i,
{
    if i < j {
        lemma_skip_num_is(s, i + 1, j);
    }
}

pub proof fn lemma_skip_num_bounds(s: Seq<u8>, i: int)
    requires
        0 <= i <= s.len(),
    ensures
        i <= skip_num(s, i) <= s.len(),
        forall|k: int| i <= k < skip_num(s, i) ==> is_numch(s[k]),
        skip_num(s, i) < s.len() ==> !is_numch(s[skip_num(s, i)]),
    decreases s.len() - i,
{
    if i < s.len() && is_numch(s[i]) {
        lemma_skip_num_bounds(s, i + 1);
    }
}

pub proof fn lemma_skip_until_is(s: Seq<u8>, i: int, j: int, stop: u8)
    requires
        0 <= i <= j <= s.len(),
        forall|k: int| i <= k < j ==> s[k] != stop,
        j == s.len() || s[j] == stop,
    ensures
        skip_until(s, i, stop) == j,
    decreases j - i,
{
    if i < j {
        lemma_skip_until_is(s, i + 1, j, stop);
    }
}

pub proof fn lemma_skip_until_bounds(s: Seq<u8>, i: int, stop: u8)
    requires
        0 <= i <= s.len(),
    ensures
        i <= skip_until(s, i, stop) <= s.len(),
        forall|k: int| i <= k < skip_until(s, i, stop) ==> s[k] != stop,
        skip_until(s, i, stop) < s.len() ==> s[skip_until(s, i, stop)] == stop,
    decreases s.len() - i,
{
    if i < s.len() && s[i] != stop {
        lemma_skip_until_bounds(s, i + 1, stop);
    }
}

/// Executable scan over whitespace.
pub exec fn scan_ws(s: &Vec<u8>, from: usize) -> (r: usize)
    requires
        from <= s@.len(),
    ensures
        r == skip_ws(s@, from as int),
        from <= r <= s@.len(),
{
    let mut j: usize = from;
    while j < s.len() && ws_byte(s[j])
        invariant
            from <= j <= s@.len(),
            forall|k: int| from <= k < j ==> is_ws(s@[k]),
        decreases s@.len() - j,
    {
        j = j + 1;
    }
    proof {
        lemma_skip_ws_is(s@, from as int, j as int);
    }
    j
}

/// Executable scan over number bytes.
pub exec fn scan_num(s: &Vec<u8>, from: usize) -> (r: usize)
    requires
        from <= s@.len(),
    ensures
        r == skip_num(s@, from as int),
        from <= r <= s@.len(),
{
    let mut j: usize = from;
    while j < s.len() && num_byte(s[j])
        invariant
            from <= j <= s@.len(),
            forall|k: int| from <= k < j ==> is_numch(s@[k]),
        decreases s@.len() - j,
    {
        j = j + 1;
    }
    proof {
        lemma_skip_num_is(s@, from as int, j as int);
    }
    j
}

/// Executable scan up to the next occurrence of `stop` (or the end).
pub exec fn scan_to(s: &Vec<u8>, from: usize, stop: u8) -> (r: usize)
    requires
        from <= s@.len(),
    ensures
        r == skip_until(s@, from as int, stop),
        from <= r <= s@.len(),
        forall|k: int| from <= k < r ==> s@[k] != stop,
        r < s@.len() ==> s@[r as int] == stop,
{
    let mut j: usize = from;
    while j < s.len() && s[j] != stop
        invariant
            from <= j <= s@.len(),
            forall|k: int| from <= k < j ==> s@[k] != stop,
        decreases s@.len() - j,
    {
        j = j + 1;
    }
    proof {
        lemma_skip_until_is(s@, from as int, j as int, stop);
    }
    j
}

/// The bytes of `pat` appear in `s` starting at position `at`.
pub open spec fn occurs_at(s: Seq<u8>, pat: Seq<u8>, at: int) -> bool {
    &&& 0 <= at
    &&& at + pat.len() <= s.len()
    &&& s.subrange(at, at + pat.len()) == pat
}

/// `pat` appears somewhere in `s`.
pub open spec fn contains_sub(s: Seq<u8>, pat: Seq<u8>) -> bool {
    exists|at: int| occurs_at(s, pat, at)
}

/// Smallest position at or after `i` where `pat` occurs, or -1 if there is
/// none.
pub open spec fn find_sub(s: Seq<u8>, pat: Seq<u8>, i: int) -> int
    decreases s.len() - i + 1,
{
    if i < 0 || i + pat.len() > s.len() {
        -1
    } else if occurs_at(s, pat, i) {
        i
    } else {
        find_sub(s, pat, i + 1)
    }
}

pub proof fn lemma_find_sub_bounds(s: Seq<u8>, pat: Seq<u8>, i: int)
    requires
        0 <= i,
    ensures
        find_sub(s, pat, i) == -1 ==> forall|at: int| at >= i ==> !occurs_at(s, pat, at),
        find_sub(s, pat, i) != -1 ==> {
            &&& i <= find_sub(s, pat, i)
            &&& occurs_at(s, pat, find_sub(s, pat, i))
            &&& forall|at: int| i <= at < find_sub(s, pat, i) ==> !occurs_at(s, pat, at)
        },
    decreases s.len() - i + 1,
{
    if i + pat.len() > s.len() {
        assert forall|at: int| at >= i implies !occurs_at(s, pat, at) by {}
    } else if !occurs_at(s, pat, i) {
        lemma_find_sub_bounds(s, pat, i + 1);
    }
}

/// A position that carries an occurrence, with nothing earlier, is exactly
/// what `find_sub` computes from the start.
pub proof fn lemma_find_sub_characterize(s: Seq<u8>, pat: Seq<u8>, at: int)
    requires
        occurs_at(s, pat, at),
        forall|m: int| 0 <= m < at ==> !occurs_at(s, pat, m),
    ensures
        find_sub(s, pat, 0) == at,
{
    lemma_find_sub_bounds(s, pat, 0);
    if find_sub(s, pat, 0) == -1 {
        assert(!occurs_at(s, pat, at));
        assert(false);
    } else {
        let f = find_sub(s, pat, 0);
        if f < at {
            assert(!occurs_at(s, pat, f));
        }
        if f > at {
            assert(!occurs_at(s, pat, at));
        }
    }
}

/// Executable test whether `pat` occurs at position `at` of `s`.
pub exec fn matches_at(s: &Vec<u8>, pat: &Vec<u8>, at: usize) -> (r: bool)
    ensures
        r == occurs_at(s@, pat@, at as int),
{
    if at > s.len() || pat.len() > s.len() - at {
        return false;
    }
    let slen = s.len();
    let plen = pat.len();
    let mut k: usize = 0;
    while k < plen
        invariant
            slen == s@.len(),
            plen == pat@.len(),
            at + plen <= slen,
            0 <= k <= plen,
            forall|m: int| 0 <= m < k ==> s@[at + m] == pat@[m],
        decreases plen - k,
    {
        if s[at + k] != pat[k] {
            proof {
                assert(s@.subrange(at as int, at + pat@.len())[k as int] != pat@[k as int]);
            }
            return false;
        }
        k = k + 1;
    }
    proof {
        assert(s@.subrange(at as int, at + pat@.len()) =~= pat@);
    }
    true
}

/// Executable substring search; returns the first occurrence of `pat`.
pub exec fn find_pattern(s: &Vec<u8>, pat: &Vec<u8>) -> (r: Option<usize>)
    ensures
        match r {
            Some(at) => at as int == find_sub(s@, pat@, 0),
            None => find_sub(s@, pat@, 0) == -1,
        },
        r is Some <==> contains_sub(s@, pat@),
{
    proof {
        lemma_find_sub_bounds(s@, pat@, 0);
    }
    if pat.len() > s.len() {
        proof {
            assert(forall|at: int| !occurs_at(s@, pat@, at));
        }
        return None;
    }
    if pat.len() == 0 {
        proof {
            assert(s@.subrange(0, 0) =~= pat@);
            assert(occurs_at(s@, pat@, 0));
            lemma_find_sub_characterize(s@, pat@, 0);
        }
        return Some(0);
    }
    let slen = s.len();
    let plen = pat.len();
    let last_at = slen - plen;
    let mut at: usize = 0;
    while at <= last_at
        invariant
            slen == s@.len(),
            plen == pat@.len(),
            0 < plen <= slen,
            last_at == slen - plen,
            0 <= at <= last_at + 1,
            forall|m: int| 0 <= m < at ==> !occurs_at(s@, pat@, m),
        decreases last_at + 1 - at,
    {
        if matches_at(s, pat, at) {
            proof {
                lemma_find_sub_characterize(s@, pat@, at as int);
            }
            return Some(at);
        }
        at = at + 1;
    }
    proof {
        assert(forall|m: int| !occurs_at(s@, pat@, m));
    }
    None
}

/// Executable containment test.
pub exec fn contains_pattern(s: &Vec<u8>, pat: &Vec<u8>) -> (r: bool)
    ensures
        r == contains_sub(s@, pat@),
{
    find_pattern(s, pat).is_some()
}

/// One past the last non-whitespace byte of `s`.
pub open spec fn trim_end_idx(s: Seq<u8>) -> int
    decreases s.len(),
{
    if s.len() == 0 {
        0
    } else if is_ws(s.last()) {
        trim_end_idx(s.drop_last())
    } else {
        s.len() as int
    }
}

/// `s` with ASCII whitespace removed from both ends.
pub open spec fn trim(s: Seq<u8>) -> Seq<u8> {
    let hi = trim_end_idx(s);
    let lo = skip_ws(s.subrange(0, hi), 0);
    s.subrange(lo, hi)
}

pub proof fn lemma_trim_end_idx_bounds(s: Seq<u8>)
    ensures
        0 <= trim_end_idx(s) <= s.len(),
        forall|k: int| trim_end_idx(s) <= k < s.len() ==> is_ws(s[k]),
        trim_end_idx(s) > 0 ==> !is_ws(s[trim_end_idx(s) - 1]),
    decreases s.len(),
{
    if s.len() > 0 && is_ws(s.last()) {
        lemma_trim_end_idx_bounds(s.drop_last());
        let te = trim_end_idx(s);
        assert(te == trim_end_idx(s.drop_last()));
        assert forall|k: int| te <= k < s.len() implies is_ws(s[k]) by {
            if k < s.len() - 1 {
                assert(s.drop_last()[k] == s[k]);
                assert(is_ws(s.drop_last()[k]));
            } else {
                assert(s[k] == s.last());
            }
        }
        if te > 0 {
            assert(s.drop_last()[te - 1] == s[te - 1]);
        }
    }
}

/// The trimmed sequence has no whitespace at either end and sits inside `s`.
pub proof fn lemma_trim_shape(s: Seq<u8>)
    ensures
        trim(s).len() <= s.len(),
        trim(s).len() > 0 ==> !is_ws(trim(s).first()),
        trim(s).len() > 0 ==> !is_ws(trim(s).last()),
{
    lemma_trim_end_idx_bounds(s);
    let hi = trim_end_idx(s);
    lemma_skip_ws_bounds(s.subrange(0, hi), 0);
}

/// Trimming an already-trimmed sequence changes nothing.
pub proof fn lemma_trim_idempotent(s: Seq<u8>)
    requires
        s.len() > 0 ==> !is_ws(s.first()),
        s.len() > 0 ==> !is_ws(s.last()),
    ensures
        trim(s) == s,
{
    if s.len() == 0 {
        assert(trim_end_idx(s) == 0);
        assert(trim(s) =~= s);
    } else {
        assert(trim_end_idx(s) == s.len());
        assert(s.subrange(0, s.len() as int) =~= s);
        lemma_skip_ws_is(s, 0, 0);
        assert(trim(s) =~= s);
    }
}

/// Executable trim of the byte range `[from, to)` of `s`.
pub exec fn trim_bytes(s: &Vec<u8>, from: usize, to: usize) -> (r: Vec<u8>)
    requires
        from <= to <= s@.len(),
    ensures
        r@ == trim(s@.subrange(from as int, to as int)),
{
    let ghost sub = s@.subrange(from as int, to as int);
    let mut hi: usize = to;
    while hi > from && ws_byte(s[hi - 1])
        invariant
            from <= hi <= to <= s@.len(),
            sub == s@.subrange(from as int, to as int),
            trim_end_idx(sub) == trim_end_idx(s@.subrange(from as int, hi as int)),
        decreases hi,
    {
        proof {
            let cur = s@.subrange(from as int, hi as int);
            assert(cur.last() == s@[hi - 1]);
            assert(cur.drop_last() =~= s@.subrange(from as int, hi - 1));
        }
        hi = hi - 1;
    }
    proof {
        let cur = s@.subrange(from as int, hi as int);
        if hi > from {
            assert(cur.last() == s@[hi - 1]);
            assert(!is_ws(cur.last()));
            assert(trim_end_idx(cur) == cur.len());
        } else {
            assert(cur.len() == 0);
        }
        assert(trim_end_idx(sub) == hi - from);
    }
    let mut lo: usize = from;
    while lo < hi && ws_byte(s[lo])
        invariant
            from <= lo <= hi <= s@.len(),
            forall|k: int| from <= k < lo ==> is_ws(s@[k]),
        decreases hi - lo,
    {
        lo = lo + 1;
    }
    proof {
        let head = sub.subrange(0, hi - from);
        assert(head =~= s@.subrange(from as int, hi as int));
        assert(forall|k: int| 0 <= k < lo - from ==> is_ws(#[trigger] head[k]));
        if lo < hi {
            assert(head[lo - from] == s@[lo as int]);
        }
        lemma_skip_ws_is(head, 0, lo - from);
    }
    let mut r: Vec<u8> = Vec::new();
    let mut k: usize = lo;
    while k < hi
        invariant
            from <= lo <= k <= hi <= s@.len(),
            r@ =~= s@.subrange(lo as int, k as int),
        decreases hi - k,
    {
        r.push(s[k]);
        proof {
            assert(r@ =~= s@.subrange(lo as int, k + 1));
        }
        k = k + 1;
    }
    proof {
        assert(trim(sub) == sub.subrange(lo - from, hi - from));
        assert(sub.subrange(lo - from, hi - from) =~= s@.subrange(lo as int, hi as int));
    }
    r
}

} // verus!
