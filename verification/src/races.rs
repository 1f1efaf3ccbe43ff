//! Race charts: for each race, counting the hold times that beat the record
//! distance.  Holding for `j` time units in a race of `t` units travels
//! `j * (t - j)`; the count of winning hold times is computed by exact
//! integer arithmetic.

use crate::text::after_colon;
use crate::text::concat_of;
use crate::text::is_digits;
use crate::text::lines;
use crate::text::lines_of;
use crate::text::parse_u64;
use crate::text::split_colon;
use crate::text::tokens;
use crate::text::tokens_of;
use crate::text::uint_token_vals;
use crate::text::uint_tokens_ok;
use crate::text::uint_val;
use crate::text::parse_uint_tokens;
use vstd::prelude::*;
use vstd::string::StringSliceAdditionalSpecFns;

verus! {

/// How many hold times in `[0, k)` beat distance `d` in a race of length `t`.
pub open spec fn wins_below(t: int, d: int, k: int) -> int
    decreases k,
{
    if k <= 0 {
        0
    } else {
        wins_below(t, d, k - 1) + if (k - 1) * (t - (k - 1)) > d {
            1int
        } else {
            0int
        }
    }
}

/// How many hold times of a whole race beat the record.
pub open spec fn race_wins(t: int, d: int) -> int {
    wins_below(t, d, t + 1)
}

/// The number of hold times that win one race.
pub fn number_of_winning_times(time: &u64, distance: &u64) -> (r: u64)
    ensures
        r as int == race_wins(*time as int, *distance as int),
{
    let t = *time;
    let d = *distance;
    let mut count: u64 = 0;
    let mut j: u64 = 0;
    proof {
        assert(wins_below(t as int, d as int, 0) == 0);
    }
    while j < t
        invariant
            0 <= j <= t,
            count <= j,
            count as int == wins_below(t as int, d as int, j as int),
        decreases t - j,
    {
        let a: u128 = j as u128;
        let b: u128 = (t - j) as u128;
        proof {
            assert(a * b <= u64::MAX as u128 * u64::MAX as u128) by (nonlinear_arith)
                requires
                    a <= u64::MAX as u128,
                    b <= u64::MAX as u128,
            ;
        }
        if a * b > d as u128 {
            count = count + 1;
        }
        j = j + 1;
    }
    proof {
        assert(wins_below(t as int, d as int, t as int + 1) == wins_below(
            t as int,
            d as int,
            t as int,
        ) + if (t as int) * (t as int - t as int) > d as int {
            1int
        } else {
            0int
        });
        assert((t as int) * (t as int - t as int) == 0) by (nonlinear_arith);
    }
    count
}

/// The `(time, distance)` pairs of the chart: values after the colon on the
/// first two lines, zipped positionally.
pub open spec fn race_pairs(s: Seq<u8>) -> Option<Seq<(u64, u64)>> {
    let ls = lines_of(s);
    if ls.len() < 2 {
        Option::None
    } else {
        match (after_colon(ls[0]), after_colon(ls[1])) {
            (Option::Some(a), Option::Some(b)) => {
                if uint_tokens_ok(a) && uint_tokens_ok(b) {
                    let va = uint_token_vals(a);
                    let vb = uint_token_vals(b);
                    let n = if va.len() <= vb.len() {
                        va.len()
                    } else {
                        vb.len()
                    };
                    Some(Seq::new(n, |i: int| (va[i], vb[i])))
                } else {
                    Option::None
                }
            },
            _ => Option::None,
        }
    }
}

/// The product of win counts, folded left; fails when an intermediate
/// product leaves `u64`.
pub open spec fn wins_fold(ps: Seq<(u64, u64)>, acc: int) -> Option<int>
    decreases ps.len(),
{
    if ps.len() == 0 {
        Some(acc)
    } else {
        let w = acc * race_wins(ps[0].0 as int, ps[0].1 as int);
        if w > u64::MAX {
            Option::None
        } else {
            wins_fold(ps.drop_first(), w)
        }
    }
}

/// The product over all races of the number of winning hold times, or
/// nothing when the chart is malformed or an intermediate product leaves
/// `u64`.
pub fn part_one(input: &str) -> (r: Option<u64>)
    ensures
        r is Some <==> (race_pairs(input.spec_bytes()) is Some && wins_fold(
            race_pairs(input.spec_bytes())->0,
            1,
        ) is Some),
        r matches Some(v) ==> Some(v as int) == wins_fold(race_pairs(input.spec_bytes())->0, 1),
{
    let bytes = input.as_bytes();
    let ls = lines(bytes);
    let ghost lv = lines_of(input.spec_bytes());
    if ls.len() < 2 {
        return None;
    }
    proof {
        assert(ls@[0].deep_view() =~= ls@[0]@);
        assert(ls@[1].deep_view() =~= ls@[1]@);
        assert(lv[0] == ls@[0]@ && lv[1] == ls@[1]@);
    }
    let ra = match split_colon(ls[0].as_slice()) {
        Some(v) => v,
        None => {
            return None;
        },
    };
    let rb = match split_colon(ls[1].as_slice()) {
        Some(v) => v,
        None => {
            return None;
        },
    };
    let va = match parse_uint_tokens(ra) {
        Some(v) => v,
        None => {
            return None;
        },
    };
    let vb = match parse_uint_tokens(rb) {
        Some(v) => v,
        None => {
            return None;
        },
    };
    let n = if va.len() <= vb.len() {
        va.len()
    } else {
        vb.len()
    };
    let ghost pairs = race_pairs(input.spec_bytes())->0;
    proof {
        assert(pairs.len() == n);
    }
    let mut acc: u64 = 1;
    let mut i: usize = 0;
    proof {
        assert(pairs.skip(0) =~= pairs);
    }
    while i < n
        invariant
            0 <= i <= n,
            n <= va@.len() && n <= vb@.len(),
            race_pairs(input.spec_bytes()) is Some,
            pairs == race_pairs(input.spec_bytes())->0,
            pairs.len() == n,
            forall|k: int| 0 <= k < n ==> #[trigger] pairs[k] == (va@[k], vb@[k]),
            wins_fold(pairs, 1) == wins_fold(pairs.skip(i as int), acc as int),
        decreases n - i,
    {
        proof {
            assert(pairs.skip(i as int).drop_first() =~= pairs.skip(i as int + 1));
            assert(pairs.skip(i as int)[0] == pairs[i as int]);
        }
        let w = number_of_winning_times(&va[i], &vb[i]);
        acc = match acc.checked_mul(w) {
            Some(v) => v,
            None => {
                return None;
            },
        };
        i = i + 1;
    }
    proof {
        assert(pairs.skip(n as int) =~= Seq::<(u64, u64)>::empty());
    }
    Some(acc)
}

/// The single race read by joining the digit groups of each line.
pub open spec fn joined_val(l: Seq<u8>) -> Option<int> {
    match after_colon(l) {
        Option::None => Option::None,
        Option::Some(rest) => {
            let j = concat_of(tokens_of(rest));
            if is_digits(j) && uint_val(j) <= u64::MAX {
                Some(uint_val(j))
            } else {
                Option::None
            }
        },
    }
}

/// The number of winning hold times of the single large race spelled by the
/// digits of the chart with its spacing ignored.
pub fn part_two(input: &str) -> (r: Option<u64>)
    ensures
        r is Some <==> (lines_of(input.spec_bytes()).len() >= 2 && joined_val(
            lines_of(input.spec_bytes())[0],
        ) is Some && joined_val(lines_of(input.spec_bytes())[1]) is Some),
        r matches Some(v) ==> v as int == race_wins(
            joined_val(lines_of(input.spec_bytes())[0])->0,
            joined_val(lines_of(input.spec_bytes())[1])->0,
        ),
{
    let bytes = input.as_bytes();
    let ls = lines(bytes);
    let ghost lv = lines_of(input.spec_bytes());
    if ls.len() < 2 {
        return None;
    }
    proof {
        assert(ls@[0].deep_view() =~= ls@[0]@);
        assert(ls@[1].deep_view() =~= ls@[1]@);
        assert(lv[0] == ls@[0]@ && lv[1] == ls@[1]@);
    }
    let t = match joined_value(ls[0].as_slice()) {
        Some(v) => v,
        None => {
            return None;
        },
    };
    let d = match joined_value(ls[1].as_slice()) {
        Some(v) => v,
        None => {
            return None;
        },
    };
    Some(number_of_winning_times(&t, &d))
}

/// Joins the digit groups after the colon and parses them as one number.
fn joined_value(l: &[u8]) -> (r: Option<u64>)
    ensures
        r is Some <==> joined_val(l@) is Some,
        r matches Some(v) ==> Some(v as int) == joined_val(l@),
{
    let rest = match split_colon(l) {
        Some(v) => v,
        None => {
            return None;
        },
    };
    let ts = tokens(rest);
    let ghost tso = tokens_of(rest@);
    let mut joined: Vec<u8> = Vec::new();
    let mut i: usize = 0;
    proof {
        assert(tso.skip(0) =~= tso);
        assert(joined@ + concat_of(tso) =~= concat_of(tso));
    }
    while i < ts.len()
        invariant
            0 <= i <= ts@.len(),
            ts.deep_view() == tso,
            tso == tokens_of(rest@),
            after_colon(l@) == Some(rest@),
            concat_of(tso) == joined@ + concat_of(tso.skip(i as int)),
        decreases ts.len() - i,
    {
        proof {
            assert(ts@[i as int].deep_view() =~= ts@[i as int]@);
            assert(tso[i as int] == ts@[i as int]@);
            assert(tso.skip(i as int).drop_first() =~= tso.skip(i as int + 1));
            assert(tso.skip(i as int)[0] == tso[i as int]);
        }
        let tk = &ts[i];
        let mut b: usize = 0;
        let ghost base = joined@;
        while b < tk.len()
            invariant
                0 <= b <= tk@.len(),
                joined@ == base + tk@.take(b as int),
            decreases tk.len() - b,
        {
            joined.push(tk[b]);
            proof {
                assert(tk@.take(b as int + 1) =~= tk@.take(b as int).push(tk@[b as int]));
            }
            b = b + 1;
        }
        proof {
            assert(tk@.take(tk@.len() as int) =~= tk@);
            assert(base + (tk@ + concat_of(tso.skip(i as int + 1))) =~= joined@ + concat_of(
                tso.skip(i as int + 1),
            ));
        }
        i = i + 1;
    }
    proof {
        assert(tso.skip(ts@.len() as int) =~= Seq::<Seq<u8>>::empty());
        assert(concat_of(Seq::<Seq<u8>>::empty()) =~= Seq::<u8>::empty());
        assert(joined@ + Seq::<u8>::empty() =~= joined@);
        assert(joined@ == concat_of(tso));
    }
    let r = parse_u64(joined.as_slice());
    proof {
        if is_digits(joined@) {
            crate::text::lemma_uint_val_nonneg(joined@);
        }
    }
    r
}

} // verus!
