//! Finite-difference sequence extrapolation: each history line is reduced by
//! repeated differencing until all differences vanish, and the next (or
//! previous) term is rebuilt on the way back up.

use crate::text::is_int_token;
use crate::text::lines_of;
use crate::text::lines;
use crate::text::parse_i64;
use crate::text::sint_val;
use crate::text::tokens;
use crate::text::tokens_of;
use vstd::prelude::*;
use vstd::string::StringSliceAdditionalSpecFns;

verus! {

pub open spec fn ints_of(s: Seq<i32>) -> Seq<int> {
    s.map_values(|x: i32| x as int)
}

/// The first differences of a sequence.
pub open spec fn diffs(s: Seq<int>) -> Seq<int> {
    Seq::new((s.len() - 1) as nat, |i: int| s[i + 1] - s[i])
}

pub open spec fn all_zero(s: Seq<int>) -> bool {
    forall|i: int| 0 <= i < s.len() ==> s[i] == 0
}

pub open spec fn in_i32(x: int) -> bool {
    i32::MIN <= x <= i32::MAX
}

pub open spec fn seq_in_i32(s: Seq<int>) -> bool {
    forall|i: int| 0 <= i < s.len() ==> in_i32(#[trigger] s[i])
}

/// The next term of a history: the last value plus the next term of the
/// differences, bottoming out when the differences all vanish.
pub open spec fn next_term_spec(s: Seq<int>) -> int
    decreases s.len(),
{
    if s.len() == 0 {
        0
    } else if all_zero(diffs(s)) {
        s.last()
    } else {
        s.last() + next_term_spec(diffs(s))
    }
}

/// The previous term of a history: the first value minus the previous term
/// of the differences.
pub open spec fn prev_term_spec(s: Seq<int>) -> int
    decreases s.len(),
{
    if s.len() == 0 {
        0
    } else if all_zero(diffs(s)) {
        s.first()
    } else {
        s.first() - prev_term_spec(diffs(s))
    }
}

/// Whether the whole next-term computation stays inside `i32`.
pub open spec fn next_ok(s: Seq<int>) -> bool
    decreases s.len(),
{
    &&& s.len() >= 1
    &&& seq_in_i32(diffs(s))
    &&& (all_zero(diffs(s)) || (next_ok(diffs(s)) && in_i32(s.last() + next_term_spec(diffs(s)))))
}

/// Whether the whole previous-term computation stays inside `i32`.
pub open spec fn prev_ok(s: Seq<int>) -> bool
    decreases s.len(),
{
    &&& s.len() >= 1
    &&& seq_in_i32(diffs(s))
    &&& (all_zero(diffs(s)) || (prev_ok(diffs(s)) && in_i32(s.first() - prev_term_spec(diffs(s)))))
}

/// The first differences of a history; fails when one leaves `i32`.
pub fn get_difference(seq: &Vec<i32>) -> (r: Option<Vec<i32>>)
    requires
        seq@.len() >= 1,
    ensures
        r is Some <==> seq_in_i32(diffs(ints_of(seq@))),
        r matches Some(v) ==> ints_of(v@) == diffs(ints_of(seq@)),
{
    let mut out: Vec<i32> = Vec::new();
    let mut i: usize = 0;
    let ghost d = diffs(ints_of(seq@));
    while i < seq.len() - 1
        invariant
            seq@.len() >= 1,
            0 <= i <= seq@.len() - 1,
            d == diffs(ints_of(seq@)),
            forall|k: int| 0 <= k < i ==> in_i32(#[trigger] d[k]),
            ints_of(out@) == d.take(i as int),
        decreases seq.len() - i,
    {
        match seq[i + 1].checked_sub(seq[i]) {
            Some(v) => {
                let ghost prev = out@;
                out.push(v);
                proof {
                    assert(d.len() == seq@.len() - 1);
                    assert(ints_of(prev).len() == prev.len());
                    assert(d.take(i as int).len() == i as int);
                    assert(prev.len() == i as int);
                    assert(out@.len() == i as int + 1);
                    assert(d[i as int] == v as int);
                    assert forall|k: int| 0 <= k < out@.len() implies ints_of(out@)[k]
                        == d.take(i as int + 1)[k] by {
                        if k < i as int {
                            assert(ints_of(prev)[k] == d.take(i as int)[k]);
                        }
                    }
                    assert(ints_of(out@) =~= d.take(i as int + 1));
                }
            },
            None => {
                proof {
                    assert(!in_i32(d[i as int]));
                }
                return None;
            },
        }
        i = i + 1;
    }
    proof {
        assert(ints_of(out@) =~= d);
    }
    Some(out)
}

/// Whether every value of a history is zero.
fn all_zero_exec(seq: &Vec<i32>) -> (r: bool)
    ensures
        r == all_zero(ints_of(seq@)),
{
    let mut i: usize = 0;
    while i < seq.len()
        invariant
            0 <= i <= seq@.len(),
            forall|k: int| 0 <= k < i ==> ints_of(seq@)[k] == 0,
        decreases seq.len() - i,
    {
        if seq[i] != 0 {
            proof {
                assert(ints_of(seq@)[i as int] != 0);
            }
            return false;
        }
        i = i + 1;
    }
    true
}

/// The next term of a history; fails when any intermediate value leaves
/// `i32`.
pub fn next_term(seq: &Vec<i32>) -> (r: Option<i32>)
    requires
        seq@.len() >= 1,
    ensures
        r is Some <==> next_ok(ints_of(seq@)),
        r matches Some(v) ==> v as int == next_term_spec(ints_of(seq@)),
    decreases seq@.len(),
{
    let diff = match get_difference(seq) {
        Some(v) => v,
        None => {
            return None;
        },
    };
    if all_zero_exec(&diff) {
        return Some(seq[seq.len() - 1]);
    }
    proof {
        assert(diffs(ints_of(seq@)).len() == seq@.len() - 1);
        assert(diff@.len() >= 1);
    }
    match next_term(&diff) {
        Some(n) => {
            match seq[seq.len() - 1].checked_add(n) {
                Some(v) => Some(v),
                None => None,
            }
        },
        None => None,
    }
}

/// The previous term of a history; fails when any intermediate value leaves
/// `i32`.
pub fn prev_term(seq: &Vec<i32>) -> (r: Option<i32>)
    requires
        seq@.len() >= 1,
    ensures
        r is Some <==> prev_ok(ints_of(seq@)),
        r matches Some(v) ==> v as int == prev_term_spec(ints_of(seq@)),
    decreases seq@.len(),
{
    let diff = match get_difference(seq) {
        Some(v) => v,
        None => {
            return None;
        },
    };
    if all_zero_exec(&diff) {
        return Some(seq[0]);
    }
    proof {
        assert(diffs(ints_of(seq@)).len() == seq@.len() - 1);
        assert(diff@.len() >= 1);
    }
    match prev_term(&diff) {
        Some(n) => {
            match seq[0].checked_sub(n) {
                Some(v) => Some(v),
                None => None,
            }
        },
        None => None,
    }
}

/// One history line: whitespace-separated signed integers, each inside
/// `i32`; an empty line is rejected.
pub open spec fn parse_history(l: Seq<u8>) -> Option<Seq<int>> {
    let ts = tokens_of(l);
    if ts.len() >= 1 && (forall|i: int|
        0 <= i < ts.len() ==> is_int_token(#[trigger] ts[i]) && in_i32(sint_val(ts[i]))) {
        Some(ts.map_values(|t: Seq<u8>| sint_val(t)))
    } else {
        Option::None
    }
}

/// The sum of next terms over all history lines, or nothing when a line is
/// malformed or a computation leaves `i32`.
pub open spec fn next_sum(ls: Seq<Seq<u8>>) -> Option<int>
    decreases ls.len(),
{
    if ls.len() == 0 {
        Some(0)
    } else {
        match parse_history(ls[0]) {
            Option::None => Option::None,
            Option::Some(h) => {
                if !next_ok(h) {
                    Option::None
                } else {
                    match next_sum(ls.drop_first()) {
                        Option::None => Option::None,
                        Option::Some(t) => Some(next_term_spec(h) + t),
                    }
                }
            },
        }
    }
}

/// The sum of previous terms over all history lines.
pub open spec fn prev_sum(ls: Seq<Seq<u8>>) -> Option<int>
    decreases ls.len(),
{
    if ls.len() == 0 {
        Some(0)
    } else {
        match parse_history(ls[0]) {
            Option::None => Option::None,
            Option::Some(h) => {
                if !prev_ok(h) {
                    Option::None
                } else {
                    match prev_sum(ls.drop_first()) {
                        Option::None => Option::None,
                        Option::Some(t) => Some(prev_term_spec(h) + t),
                    }
                }
            },
        }
    }
}

/// Parses one line into `i32` history values.
fn parse_history_line(l: &[u8]) -> (r: Option<Vec<i32>>)
    ensures
        r is Some <==> parse_history(l@) is Some,
        r matches Some(v) ==> Some(ints_of(v@)) == parse_history(l@),
{
    let ts = tokens(l);
    let ghost tso = tokens_of(l@);
    if ts.len() == 0 {
        return None;
    }
    let mut out: Vec<i32> = Vec::new();
    let mut i: usize = 0;
    while i < ts.len()
        invariant
            0 <= i <= ts@.len(),
            ts.deep_view() == tso,
            tso == tokens_of(l@),
            tso.len() >= 1,
            forall|k: int|
                0 <= k < i ==> is_int_token(#[trigger] tso[k]) && in_i32(sint_val(tso[k])),
            ints_of(out@) == tso.map_values(|t: Seq<u8>| sint_val(t)).take(i as int),
        decreases ts.len() - i,
    {
        proof {
            assert(ts@[i as int].deep_view() =~= ts@[i as int]@);
            assert(tso[i as int] == ts@[i as int]@);
        }
        match parse_i64(ts[i].as_slice()) {
            Some(v) => {
                if v < i32::MIN as i64 || v > i32::MAX as i64 {
                    proof {
                        assert(!in_i32(sint_val(tso[i as int])));
                    }
                    return None;
                }
                let ghost prev = out@;
                out.push(v as i32);
                proof {
                    let vals = tso.map_values(|t: Seq<u8>| sint_val(t));
                    assert(vals.len() == tso.len());
                    assert(ints_of(prev).len() == prev.len());
                    assert(vals.take(i as int).len() == i as int);
                    assert(prev.len() == i as int);
                    assert(out@.len() == i as int + 1);
                    assert(vals[i as int] == sint_val(tso[i as int]));
                    assert forall|k: int| 0 <= k < out@.len() implies ints_of(out@)[k]
                        == vals.take(i as int + 1)[k] by {
                        if k < i as int {
                            assert(ints_of(prev)[k] == vals.take(i as int)[k]);
                        }
                    }
                    assert(ints_of(out@) =~= vals.take(i as int + 1));
                }
            },
            None => {
                proof {
                    assert(!(is_int_token(tso[i as int]) && in_i32(sint_val(tso[i as int]))));
                }
                return None;
            },
        }
        i = i + 1;
    }
    proof {
        assert(ints_of(out@) =~= tso.map_values(|t: Seq<u8>| sint_val(t)));
    }
    Some(out)
}

/// The sum over all history lines of the extrapolated next term.
pub fn part_one(input: &str) -> (r: Option<i32>)
    ensures
        r is Some <==> (next_sum(lines_of(input.spec_bytes())) is Some && in_i32(
            next_sum(lines_of(input.spec_bytes()))->0,
        )),
        r matches Some(v) ==> v as int == next_sum(lines_of(input.spec_bytes()))->0,
{
    let bytes = input.as_bytes();
    let ls = lines(bytes);
    let ghost lv = lines_of(input.spec_bytes());
    let mut total: i128 = 0;
    let mut i: usize = 0;
    let ghost full = next_sum(lv);
    proof {
        assert(lv.skip(0) =~= lv);
    }
    while i < ls.len()
        invariant
            0 <= i <= ls@.len(),
            ls.deep_view() == lv,
            lv == lines_of(input.spec_bytes()),
            full == next_sum(lv),
            -((i as int) * 0x8000_0000) <= total as int <= (i as int) * 0x8000_0000,
            (match next_sum(lv.skip(i as int)) {
                Option::None => Option::<int>::None,
                Option::Some(t) => Some((total as int) + t),
            }) == full,
        decreases ls.len() - i,
    {
        proof {
            assert(ls@[i as int].deep_view() =~= ls@[i as int]@);
            assert(lv[i as int] == ls@[i as int]@);
            assert(lv.skip(i as int).drop_first() =~= lv.skip(i as int + 1));
            assert(lv.skip(i as int)[0] == lv[i as int]);
        }
        let h = match parse_history_line(ls[i].as_slice()) {
            Some(v) => v,
            None => {
                return None;
            },
        };
        let n = match next_term(&h) {
            Some(v) => v,
            None => {
                return None;
            },
        };
        total = total + n as i128;
        i = i + 1;
    }
    proof {
        assert(lv.skip(ls@.len() as int) =~= Seq::<Seq<u8>>::empty());
    }
    if total < i32::MIN as i128 || total > i32::MAX as i128 {
        return None;
    }
    Some(total as i32)
}

/// The sum over all history lines of the extrapolated previous term.
pub fn part_two(input: &str) -> (r: Option<i32>)
    ensures
        r is Some <==> (prev_sum(lines_of(input.spec_bytes())) is Some && in_i32(
            prev_sum(lines_of(input.spec_bytes()))->0,
        )),
        r matches Some(v) ==> v as int == prev_sum(lines_of(input.spec_bytes()))->0,
{
    let bytes = input.as_bytes();
    let ls = lines(bytes);
    let ghost lv = lines_of(input.spec_bytes());
    let mut total: i128 = 0;
    let mut i: usize = 0;
    let ghost full = prev_sum(lv);
    proof {
        assert(lv.skip(0) =~= lv);
    }
    while i < ls.len()
        invariant
            0 <= i <= ls@.len(),
            ls.deep_view() == lv,
            lv == lines_of(input.spec_bytes()),
            full == prev_sum(lv),
            -((i as int) * 0x8000_0000) <= total as int <= (i as int) * 0x8000_0000,
            (match prev_sum(lv.skip(i as int)) {
                Option::None => Option::<int>::None,
                Option::Some(t) => Some((total as int) + t),
            }) == full,
        decreases ls.len() - i,
    {
        proof {
            assert(ls@[i as int].deep_view() =~= ls@[i as int]@);
            assert(lv[i as int] == ls@[i as int]@);
            assert(lv.skip(i as int).drop_first() =~= lv.skip(i as int + 1));
            assert(lv.skip(i as int)[0] == lv[i as int]);
        }
        let h = match parse_history_line(ls[i].as_slice()) {
            Some(v) => v,
            None => {
                return None;
            },
        };
        let n = match prev_term(&h) {
            Some(v) => v,
            None => {
                return None;
            },
        };
        total = total + n as i128;
        i = i + 1;
    }
    proof {
        assert(lv.skip(ls@.len() as int) =~= Seq::<Seq<u8>>::empty());
    }
    if total < i32::MIN as i128 || total > i32::MAX as i128 {
        return None;
    }
    Some(total as i32)
}

} // verus!
