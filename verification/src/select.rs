//! Choosing the new scale: cycling to the next declared value in
//! ascending order, or interpreting an interactive menu choice.
//!
//! The current scale is matched against the declared values exactly in
//! micros, which is the customary absolute tolerance of one millionth.

use vstd::prelude::*;
use vstd::multiset::Multiset;
use vstd::seq_lib::lemma_sorted_unique;
use vstd::relations::{sorted_by, total_ordering};
use crate::text::{trim};
use crate::text::{digit_byte, trim_bytes};
use crate::scale::{all_digits, dec_val};
use crate::scale::{lemma_dec_val_step};

verus! {

/// Ascending order on a scale sequence.
pub open spec fn sorted(s: Seq<u64>) -> bool {
    forall|i: int, j: int| 0 <= i <= j < s.len() ==> #[trigger] s[i] <= #[trigger] s[j]
}

/// `v` placed at its ordered position in the sorted sequence `s`.
pub open spec fn sorted_insert(s: Seq<u64>, v: u64) -> Seq<u64>
    decreases s.len(),
{
    if s.len() == 0 {
        seq![v]
    } else if v <= s[0] {
        seq![v] + s
    } else {
        seq![s[0]] + sorted_insert(s.drop_first(), v)
    }
}

/// The ascending sort of a scale sequence.
pub open spec fn sort_scales_spec(s: Seq<u64>) -> Seq<u64>
    decreases s.len(),
{
    if s.len() == 0 {
        Seq::<u64>::empty()
    } else {
        sorted_insert(sort_scales_spec(s.drop_first()), s[0])
    }
}

proof fn lemma_sorted_insert_ensures(s: Seq<u64>, v: u64)
    requires
        sorted(s),
    ensures
        sorted(sorted_insert(s, v)),
        sorted_insert(s, v).to_multiset() == s.to_multiset().insert(v),
        sorted_insert(s, v).len() == s.len() + 1,
    decreases s.len(),
{
    broadcast use vstd::seq_lib::group_to_multiset_ensures;

    if s.len() == 0 {
        assert(seq![v] =~= Seq::<u64>::empty().push(v));
        assert(seq![v].to_multiset() =~= s.to_multiset().insert(v));
    } else if v <= s[0] {
        let r = seq![v] + s;
        assert forall|i: int, j: int| 0 <= i <= j < r.len() implies #[trigger] r[i]
            <= #[trigger] r[j] by {
            if i > 0 {
                assert(r[i] == s[i - 1]);
                assert(r[j] == s[j - 1]);
            } else if j > 0 {
                assert(r[j] == s[j - 1]);
                assert(s[0] <= s[j - 1]);
            }
        }
        assert(r.drop_first() =~= s);
        assert(r.to_multiset() =~= s.to_multiset().insert(v)) by {
            assert(r =~= Seq::<u64>::empty().push(v) + s);
            vstd::seq_lib::lemma_multiset_commutative(Seq::<u64>::empty().push(v), s);
            assert(Seq::<u64>::empty().push(v).to_multiset() =~= Multiset::<u64>::empty().insert(
                v,
            ));
        }
    } else {
        let tail = s.drop_first();
        assert(sorted(tail)) by {
            assert forall|i: int, j: int| 0 <= i <= j < tail.len() implies #[trigger] tail[i]
                <= #[trigger] tail[j] by {
                assert(tail[i] == s[i + 1]);
                assert(tail[j] == s[j + 1]);
            }
        }
        lemma_sorted_insert_ensures(tail, v);
        let ins = sorted_insert(tail, v);
        let r = seq![s[0]] + ins;
        assert forall|i: int, j: int| 0 <= i <= j < r.len() implies #[trigger] r[i]
            <= #[trigger] r[j] by {
            if i > 0 {
                assert(r[i] == ins[i - 1]);
                assert(r[j] == ins[j - 1]);
            } else if j > 0 {
                assert(r[j] == ins[j - 1]);
                assert(ins.to_multiset().contains(ins[j - 1]));
                assert(tail.to_multiset().insert(v).contains(ins[j - 1]));
                if ins[j - 1] == v {
                    assert(s[0] <= r[j]);
                } else {
                    assert(tail.to_multiset().contains(ins[j - 1]));
                    assert(tail.contains(ins[j - 1]));
                    let m = choose|m: int|
                        0 <= m < tail.len() && #[trigger] tail[m] == ins[j - 1];
                    assert(s[0] <= s[m + 1]);
                }
            }
        }
        assert(r.to_multiset() =~= s.to_multiset().insert(v)) by {
            vstd::seq_lib::lemma_multiset_commutative(seq![s[0]], ins);
            assert(seq![s[0]].to_multiset() =~= Multiset::<u64>::empty().insert(s[0]));
            assert(s =~= Seq::<u64>::empty().push(s[0]) + tail);
            vstd::seq_lib::lemma_multiset_commutative(Seq::<u64>::empty().push(s[0]), tail);
            assert(Seq::<u64>::empty().push(s[0]).to_multiset() =~= Multiset::<u64>::empty().insert(
                s[0],
            ));
        }
    }
}

/// The spec sort is sorted and keeps exactly the declared values.
pub proof fn lemma_sort_scales_ensures(s: Seq<u64>)
    ensures
        sorted(sort_scales_spec(s)),
        sort_scales_spec(s).to_multiset() == s.to_multiset(),
        sort_scales_spec(s).len() == s.len(),
    decreases s.len(),
{
    broadcast use vstd::seq_lib::group_to_multiset_ensures;

    if s.len() > 0 {
        lemma_sort_scales_ensures(s.drop_first());
        lemma_sorted_insert_ensures(sort_scales_spec(s.drop_first()), s[0]);
        assert(s =~= Seq::<u64>::empty().push(s[0]) + s.drop_first());
        vstd::seq_lib::lemma_multiset_commutative(Seq::<u64>::empty().push(s[0]), s.drop_first());
        assert(Seq::<u64>::empty().push(s[0]).to_multiset() =~= Multiset::<u64>::empty().insert(
            s[0],
        ));
        assert(s.to_multiset() =~= s.drop_first().to_multiset().insert(s[0]));
    }
}

/// Sequences with the same values sort identically: sorting is
/// independent of declaration order.
pub proof fn lemma_sort_scales_permutation(a: Seq<u64>, b: Seq<u64>)
    requires
        a.to_multiset() == b.to_multiset(),
    ensures
        sort_scales_spec(a) == sort_scales_spec(b),
{
    lemma_sort_scales_ensures(a);
    lemma_sort_scales_ensures(b);
    let sa = sort_scales_spec(a);
    let sb = sort_scales_spec(b);
    let leq = |x: u64, y: u64| x <= y;
    assert forall|x: u64| #[trigger] leq(x, x) by {}
    assert forall|x: u64, y: u64| #[trigger] leq(x, y) && #[trigger] leq(y, x) implies x == y by {}
    assert forall|x: u64, y: u64| #[trigger] leq(x, y) || #[trigger] leq(y, x) by {}
    assert forall|x: u64, y: u64, z: u64| #[trigger] leq(x, y) && #[trigger] leq(y, z) implies leq(
        x,
        z,
    ) by {}
    assert(total_ordering(leq));
    assert forall|i: int, j: int| 0 <= i < j < sa.len() implies #[trigger] leq(sa[i], sa[j]) by {
        assert(sa[i] <= sa[j]);
    }
    assert forall|i: int, j: int| 0 <= i < j < sb.len() implies #[trigger] leq(sb[i], sb[j]) by {
        assert(sb[i] <= sb[j]);
    }
    assert(sorted_by(sa, leq));
    assert(sorted_by(sb, leq));
    lemma_sorted_unique(sa, sb, leq);
}

/// Sort the declared scale values ascending.
pub exec fn sort_scales(values: &Vec<u64>) -> (r: Vec<u64>)
    ensures
        r@ == sort_scales_spec(values@),
        r@.len() == values@.len(),
{
    let mut r: Vec<u64> = Vec::new();
    let mut i: usize = values.len();
    proof {
        assert(values@.subrange(values@.len() as int, values@.len() as int)
            =~= Seq::<u64>::empty());
        lemma_sort_scales_ensures(values@.subrange(i as int, values@.len() as int));
    }
    while i > 0
        invariant
            0 <= i <= values@.len(),
            r@ == sort_scales_spec(values@.subrange(i as int, values@.len() as int)),
            sorted(r@),
        decreases i,
    {
        i = i - 1;
        let v = values[i];
        let ghost tail = values@.subrange(i as int, values@.len() as int);
        proof {
            assert(tail.drop_first() =~= values@.subrange(i + 1, values@.len() as int));
            assert(tail[0] == values@[i as int]);
        }
        let mut k: usize = 0;
        while k < r.len() && r[k] < v
            invariant
                0 <= k <= r@.len(),
                forall|m: int| 0 <= m < k ==> #[trigger] r@[m] < v,
            decreases r@.len() - k,
        {
            k = k + 1;
        }
        let ghost old_r = r@;
        r.insert(k, v);
        proof {
            lemma_sorted_insert_at(old_r, v, k as int);
            assert(r@ =~= old_r.insert(k as int, v));
            lemma_sorted_insert_ensures(old_r, v);
        }
    }
    proof {
        assert(values@.subrange(0, values@.len() as int) =~= values@);
        lemma_sort_scales_ensures(values@);
    }
    r
}

/// Inserting at the first position whose element is not below `v` is what
/// `sorted_insert` does.
proof fn lemma_sorted_insert_at(s: Seq<u64>, v: u64, k: int)
    requires
        sorted(s),
        0 <= k <= s.len(),
        forall|m: int| 0 <= m < k ==> #[trigger] s[m] < v,
        k < s.len() ==> v <= s[k],
    ensures
        sorted_insert(s, v) == s.insert(k, v),
    decreases s.len(),
{
    if s.len() == 0 {
        assert(sorted_insert(s, v) =~= s.insert(0, v));
    } else if v <= s[0] {
        assert(k == 0);
        assert(sorted_insert(s, v) =~= s.insert(0, v));
    } else {
        assert(k > 0);
        let tail = s.drop_first();
        assert(sorted(tail)) by {
            assert forall|i: int, j: int| 0 <= i <= j < tail.len() implies #[trigger] tail[i]
                <= #[trigger] tail[j] by {
                assert(tail[i] == s[i + 1]);
                assert(tail[j] == s[j + 1]);
            }
        }
        assert(forall|m: int| 0 <= m < k - 1 ==> #[trigger] tail[m] < v);
        lemma_sorted_insert_at(tail, v, k - 1);
        assert(sorted_insert(s, v) =~= s.insert(k, v)) by {
            assert(sorted_insert(s, v) == seq![s[0]] + tail.insert(k - 1, v));
        }
    }
}

/// First index of `v` in `s`, or the length of `s` when absent.
pub open spec fn first_index(s: Seq<u64>, v: u64, i: int) -> int
    decreases s.len() - i,
{
    if i < 0 || i >= s.len() {
        s.len() as int
    } else if s[i] == v {
        i
    } else {
        first_index(s, v, i + 1)
    }
}

proof fn lemma_first_index_is(s: Seq<u64>, v: u64, i: int, j: int)
    requires
        0 <= i <= j <= s.len(),
        forall|k: int| i <= k < j ==> s[k] != v,
        j == s.len() || s[j] == v,
    ensures
        first_index(s, v, i) == j,
    decreases j - i,
{
    if i < j {
        lemma_first_index_is(s, v, i + 1, j);
    }
}

/// What cycle mode picks: sort ascending; if the current scale occurs,
/// take the entry after its first occurrence, wrapping to the front; if
/// it does not occur, fall back to the smallest declared value.
pub open spec fn next_scale_spec(values: Seq<u64>, current: u64) -> (u64, bool)
    recommends
        values.len() > 0,
{
    let ss = sort_scales_spec(values);
    let i = first_index(ss, current, 0);
    if i == ss.len() {
        (ss[0], false)
    } else {
        (ss[(i + 1) % (ss.len() as int)], true)
    }
}

/// Cycle to the next scale. The boolean of the result says whether the
/// current scale was found among the declared values; when it was not,
/// the smallest declared value is returned.
pub exec fn get_next_scale(values: &Vec<u64>, current: u64) -> (r: (u64, bool))
    requires
        values@.len() > 0,
    ensures
        r == next_scale_spec(values@, current),
        values@.contains(r.0),
{
    proof {
        lemma_sort_scales_ensures(values@);
    }
    let ss = sort_scales(values);
    let ghost sspec = sort_scales_spec(values@);
    let n = ss.len();
    let mut i: usize = 0;
    while i < n && ss[i] != current
        invariant
            n == ss@.len(),
            ss@ == sspec,
            0 <= i <= n,
            forall|k: int| 0 <= k < i ==> sspec[k] != current,
        decreases n - i,
    {
        i = i + 1;
    }
    proof {
        lemma_first_index_is(sspec, current, 0, i as int);
        broadcast use vstd::seq_lib::group_to_multiset_ensures;

    }
    if i == n {
        proof {
            assert(sspec.contains(sspec[0]));
            assert(values@.to_multiset().contains(sspec[0]));
        }
        (ss[0], false)
    } else {
        let j = if i + 1 == n {
            0
        } else {
            i + 1
        };
        proof {
            if i + 1 == n {
                assert((i + 1) as int % (n as int) == 0) by (nonlinear_arith)
                    requires
                        i + 1 == n,
                        n > 0,
                ;
            } else {
                assert((i + 1) as int % (n as int) == i + 1) by (nonlinear_arith)
                    requires
                        0 <= i + 1 < n,
                ;
            }
            assert(j as int == (i + 1) % (n as int));
            assert(sspec.contains(sspec[j as int]));
            assert(values@.to_multiset().contains(sspec[j as int]));
        }
        (ss[j], true)
    }
}

/// Cycling is determined by the set of declared values alone: any two
/// declaration orders of the same values sort to the same ascending list
/// and therefore cycle to the same next scale.
pub proof fn lemma_cycle_order_independent(a: Seq<u64>, b: Seq<u64>, current: u64)
    requires
        a.to_multiset() == b.to_multiset(),
    ensures
        next_scale_spec(a, current) == next_scale_spec(b, current),
{
    lemma_sort_scales_permutation(a, b);
}

/// What one line of interactive input means against `n` menu entries.
#[derive(Clone, Copy, Debug, PartialEq, Eq, Structural)]
pub enum MenuChoice {
    /// The quit token `q` (either case), trimmed.
    Quit,
    /// A 1-based entry number within `[1, n]`.
    Pick(usize),
    /// Anything else; the prompt is repeated.
    Invalid,
}

/// The outcome of an interactive session: a chosen scale value or an
/// explicit decision to change nothing.
#[derive(Clone, Copy, Debug, PartialEq, Eq, Structural)]
pub enum Selection {
    Chosen(u64),
    Aborted,
}

pub open spec fn is_quit(t: Seq<u8>) -> bool {
    t.len() == 1 && (t[0] == 113 || t[0] == 81)
}

/// The number a trimmed token denotes: an optional leading `+`, then one
/// or more decimal digits.
pub open spec fn parse_index(t: Seq<u8>) -> Option<nat> {
    let ds = if t.len() > 0 && t[0] == 43 {
        t.drop_first()
    } else {
        t
    };
    if ds.len() == 0 || !all_digits(ds) {
        None
    } else {
        Some(dec_val(ds))
    }
}

/// What a raw input line means against `n` menu entries.
pub open spec fn interpret_choice_spec(input: Seq<u8>, n: nat) -> MenuChoice {
    let t = trim(input);
    if is_quit(t) {
        MenuChoice::Quit
    } else {
        match parse_index(t) {
            Some(v) => if 1 <= v <= n {
                MenuChoice::Pick(v as usize)
            } else {
                MenuChoice::Invalid
            },
            None => MenuChoice::Invalid,
        }
    }
}

/// Interpret one line of interactive input against `n` menu entries.
pub exec fn interpret_choice(input: &Vec<u8>, n: usize) -> (r: MenuChoice)
    requires
        n < usize::MAX,
    ensures
        r == interpret_choice_spec(input@, n as nat),
{
    let t = trim_bytes(input, 0, input.len());
    proof {
        assert(input@.subrange(0, input@.len() as int) =~= input@);
    }
    if t.len() == 1 && (t[0] == 113 || t[0] == 81) {
        return MenuChoice::Quit;
    }
    let from: usize = if t.len() > 0 && t[0] == 43 {
        1
    } else {
        0
    };
    let ghost ds = if t@.len() > 0 && t@[0] == 43 {
        t@.drop_first()
    } else {
        t@
    };
    proof {
        assert(ds =~= t@.subrange(from as int, t@.len() as int));
    }
    if t.len() == from {
        return MenuChoice::Invalid;
    }
    let mut acc: u64 = 0;
    let mut k: usize = from;
    while k < t.len()
        invariant
            from <= k <= t@.len(),
            t@ == trim(input@),
            !is_quit(t@),
            ds == (if t@.len() > 0 && t@[0] == 43 {
                t@.drop_first()
            } else {
                t@
            }),
            ds.len() > 0,
            ds == t@.subrange(from as int, t@.len() as int),
            n < usize::MAX,
            all_digits(ds.subrange(0, k - from)),
            dec_val(ds.subrange(0, k - from)) <= n ==> acc == dec_val(ds.subrange(0, k - from)),
            dec_val(ds.subrange(0, k - from)) > n ==> acc == n as u64 + 1,
            acc <= n as u64 + 1,
        decreases t@.len() - k,
    {
        let c = t[k];
        if !digit_byte(c) {
            proof {
                assert(ds[k - from] == t@[k as int]);
                assert(!all_digits(ds));
            }
            return MenuChoice::Invalid;
        }
        proof {
            assert(ds[k - from] == t@[k as int]);
            assert(ds.subrange(0, k - from + 1).drop_last() =~= ds.subrange(0, k - from));
            lemma_dec_val_step(ds, k - from);
            assert(ds.subrange(0, (k - from) + 1) =~= ds.subrange(0, k - from + 1));
            let pv = dec_val(ds.subrange(0, k - from));
            if pv > n {
                assert(pv * 10 + (c - 48) > n) by (nonlinear_arith)
                    requires
                        pv > n,
                        c >= 48,
                ;
            }
        }
        let next: u128 = (acc as u128) * 10 + ((c - 48) as u128);
        acc = if next > n as u128 {
            n as u64 + 1
        } else {
            next as u64
        };
        k = k + 1;
    }
    proof {
        assert(ds.subrange(0, t@.len() - from) =~= ds);
        assert(all_digits(ds));
    }
    if acc == 0 || acc > n as u64 {
        proof {
            if acc == 0 {
                assert(dec_val(ds) <= n ==> dec_val(ds) == 0);
            }
        }
        return MenuChoice::Invalid;
    }
    proof {
        assert(acc == dec_val(ds));
    }
    MenuChoice::Pick(acc as usize)
}

/// The first decisive interpretation among a sequence of input lines.
pub open spec fn first_decision(inputs: Seq<Seq<u8>>, n: nat) -> Option<MenuChoice>
    decreases inputs.len(),
{
    if inputs.len() == 0 {
        None
    } else {
        match interpret_choice_spec(inputs.first(), n) {
            MenuChoice::Invalid => first_decision(inputs.drop_first(), n),
            c => Some(c),
        }
    }
}

/// Run the menu over a sequence of input lines: the first decisive line
/// selects the value (1-based) or aborts; further lines are not read.
/// Returns nothing when every line is invalid.
pub exec fn decide_selection(values: &Vec<u64>, inputs: &Vec<Vec<u8>>) -> (r: Option<Selection>)
    requires
        values@.len() < usize::MAX,
    ensures
        match first_decision(inputs.deep_view(), values@.len()) {
            Some(MenuChoice::Quit) => r == Some(Selection::Aborted),
            Some(MenuChoice::Pick(v)) => 1 <= v <= values@.len() && r == Some(
                Selection::Chosen(values@[v - 1]),
            ),
            _ => r is None,
        },
{
    let ghost deep = inputs.deep_view();
    let n = values.len();
    let mut i: usize = 0;
    proof {
        assert(deep.subrange(0, deep.len() as int) =~= deep);
    }
    while i < inputs.len()
        invariant
            deep == inputs.deep_view(),
            deep.len() == inputs@.len(),
            n == values@.len(),
            n < usize::MAX,
            0 <= i <= inputs@.len(),
            first_decision(deep, n as nat) == first_decision(
                deep.subrange(i as int, deep.len() as int),
                n as nat,
            ),
        decreases inputs@.len() - i,
    {
        let ghost tail = deep.subrange(i as int, deep.len() as int);
        proof {
            assert(tail.first() == deep[i as int]);
            assert(deep[i as int] =~= inputs@[i as int]@);
            assert(tail.drop_first() =~= deep.subrange(i + 1, deep.len() as int));
        }
        match interpret_choice(&inputs[i], n) {
            MenuChoice::Quit => {
                return Some(Selection::Aborted);
            },
            MenuChoice::Pick(v) => {
                proof {
                    assert(interpret_choice_spec(tail.first(), n as nat) == MenuChoice::Pick(v));
                    assert(1 <= v <= n);
                }
                return Some(Selection::Chosen(values[v - 1]));
            },
            MenuChoice::Invalid => {},
        }
        i = i + 1;
    }
    proof {
        assert(deep.subrange(deep.len() as int, deep.len() as int) =~= Seq::<Seq<u8>>::empty());
    }
    None
}

} // verus!
