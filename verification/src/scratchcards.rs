//! Scratchcard match counting with memoized cascade expansion: each card's
//! matches decide how many of the following cards it wins, and won cards win
//! further cards in turn.

use crate::text::after_colon;
use crate::text::lines;
use crate::text::lines_of;
use crate::text::parse_uint_tokens;
use crate::text::split_colon;
use crate::text::uint_token_vals;
use crate::text::uint_tokens_ok;
use vstd::pervasive::VecAdditionalExecFns;
use vstd::prelude::*;
use vstd::string::StringSliceAdditionalSpecFns;

verus! {

/// The part of `s` before the first `|` and the part after it, if any.
pub open spec fn split_bar(s: Seq<u8>) -> Option<(Seq<u8>, Seq<u8>)>
    decreases s.len(),
{
    if s.len() == 0 {
        Option::None
    } else if s[0] == 124 {
        Some((Seq::<u8>::empty(), s.drop_first()))
    } else {
        match split_bar(s.drop_first()) {
            Option::None => Option::None,
            Option::Some(p) => Some((seq![s[0]] + p.0, p.1)),
        }
    }
}

proof fn lemma_split_bar_at(s: Seq<u8>, j: int)
    requires
        0 <= j < s.len(),
        s[j] == 124,
        forall|k: int| 0 <= k < j ==> s[k] != 124,
    ensures
        split_bar(s) == Some((s.take(j), s.skip(j + 1))),
    decreases j,
{
    if j == 0 {
        assert(s.take(0) =~= Seq::<u8>::empty());
        assert(s.skip(1) =~= s.drop_first());
    } else {
        lemma_split_bar_at(s.drop_first(), j - 1);
        assert(seq![s[0]] + s.drop_first().take(j - 1) =~= s.take(j));
        assert(s.drop_first().skip(j) =~= s.skip(j + 1));
    }
}

pub open spec fn has_val(s: Seq<u64>, v: u64) -> bool {
    exists|i: int| 0 <= i < s.len() && s[i] == v
}

/// How many of `mine` appear among the winning numbers.
pub open spec fn count_in(mine: Seq<u64>, win: Seq<u64>) -> int
    decreases mine.len(),
{
    if mine.len() == 0 {
        0
    } else {
        (if has_val(win, mine[0]) {
            1int
        } else {
            0int
        }) + count_in(mine.drop_first(), win)
    }
}

/// One card line: winning numbers before the `|`, own numbers after, and
/// the count of own numbers that win.
pub open spec fn card_count(l: Seq<u8>) -> Option<int> {
    match after_colon(l) {
        Option::None => Option::None,
        Option::Some(rest) => match split_bar(rest) {
            Option::None => Option::None,
            Option::Some(p) => {
                if uint_tokens_ok(p.0) && uint_tokens_ok(p.1) {
                    Some(count_in(uint_token_vals(p.1), uint_token_vals(p.0)))
                } else {
                    Option::None
                }
            },
        },
    }
}

/// The match counts of all cards, in order.
pub open spec fn line_counts(ls: Seq<Seq<u8>>) -> Option<Seq<int>>
    decreases ls.len(),
{
    if ls.len() == 0 {
        Some(Seq::<int>::empty())
    } else {
        match card_count(ls[0]) {
            Option::None => Option::None,
            Option::Some(c) => match line_counts(ls.drop_first()) {
                Option::None => Option::None,
                Option::Some(cs) => Some(seq![c] + cs),
            },
        }
    }
}

pub open spec fn pow2(k: int) -> int
    decreases k,
{
    if k <= 0 {
        1
    } else {
        2 * pow2(k - 1)
    }
}

proof fn lemma_pow2_mono(a: int, b: int)
    requires
        0 <= a <= b,
    ensures
        1 <= pow2(a) <= pow2(b),
    decreases b,
{
    if a < b {
        lemma_pow2_mono(a, b - 1);
    } else {
        if a > 0 {
            lemma_pow2_mono(a - 1, a - 1);
        }
    }
}

/// The total score in the first scheme: a card with `c > 0` matches scores
/// two to the power `c - 1`; any single score leaving `u32` is an error.
pub open spec fn score_sum(cs: Seq<int>) -> Option<int>
    decreases cs.len(),
{
    if cs.len() == 0 {
        Some(0int)
    } else {
        let sc = if cs[0] <= 0 {
            0int
        } else {
            pow2(cs[0] - 1)
        };
        if sc > u32::MAX {
            Option::None
        } else {
            match score_sum(cs.drop_first()) {
                Option::None => Option::None,
                Option::Some(t) => Some(sc + t),
            }
        }
    }
}

/// How many extra cards the copies `t, t+1, ...` won by card `c` bring,
/// each counted with its own cascade.
pub open spec fn extra_from(c: int, t: int, counts: Seq<int>) -> int
    decreases counts.len() - c, counts[c - 1] - t + 1,
{
    if c < 1 || c > counts.len() || t < 1 || t > counts[c - 1] || c + t > counts.len() {
        0
    } else {
        1 + extra_from(c + t, 1, counts) + extra_from(c, t + 1, counts)
    }
}

proof fn lemma_extra_nonneg(c: int, t: int, counts: Seq<int>)
    ensures
        extra_from(c, t, counts) >= 0,
    decreases counts.len() - c, counts[c - 1] - t + 1,
{
    if !(c < 1 || c > counts.len() || t < 1 || t > counts[c - 1] || c + t > counts.len()) {
        lemma_extra_nonneg(c + t, 1, counts);
        lemma_extra_nonneg(c, t + 1, counts);
    }
}

/// The extra cards won by cards `c, c+1, ...`, one cascade each.
pub open spec fn extra_total(c: int, counts: Seq<int>) -> int
    decreases counts.len() - c + 1,
{
    if c < 1 || c > counts.len() {
        0
    } else {
        extra_from(c, 1, counts) + extra_total(c + 1, counts)
    }
}

/// Whether every card's cascade fits `u64`.
pub open spec fn extras_ok(counts: Seq<int>) -> bool {
    forall|c: int| 1 <= c <= counts.len() ==> extra_from(c, 1, counts) <= u64::MAX
}

/// Whether `v` appears in the list.
fn contains_val(s: &Vec<u64>, v: u64) -> (r: bool)
    ensures
        r == has_val(s@, v),
{
    let mut i: usize = 0;
    while i < s.len()
        invariant
            0 <= i <= s@.len(),
            forall|k: int| 0 <= k < i ==> s@[k] != v,
        decreases s.len() - i,
    {
        if s[i] == v {
            return true;
        }
        i = i + 1;
    }
    false
}

/// Parses one card line into its winning numbers and its own numbers.
pub fn parse_line(l: &[u8]) -> (r: Option<(Vec<u64>, Vec<u64>)>)
    ensures
        r is Some <==> card_count(l@) is Some,
        r matches Some(p) ==> card_count(l@) == Some(count_in(p.1@, p.0@)),
{
    let rest = match split_colon(l) {
        Some(v) => v,
        None => {
            return None;
        },
    };
    let mut j: usize = 0;
    while j < rest.len()
        invariant
            0 <= j <= rest@.len(),
            after_colon(l@) == Some(rest@),
            forall|k: int| 0 <= k < j ==> rest@[k] != 124,
        decreases rest.len() - j,
    {
        if rest[j] == 124 {
            proof {
                lemma_split_bar_at(rest@, j as int);
            }
            let win_part = vstd::slice::slice_subrange(rest, 0, j);
            let mine_part = vstd::slice::slice_subrange(rest, j + 1, rest.len());
            proof {
                assert(win_part@ =~= rest@.take(j as int));
                assert(mine_part@ =~= rest@.skip(j as int + 1));
            }
            let win = match parse_uint_tokens(win_part) {
                Some(v) => v,
                None => {
                    return None;
                },
            };
            let mine = match parse_uint_tokens(mine_part) {
                Some(v) => v,
                None => {
                    return None;
                },
            };
            return Some((win, mine));
        }
        j = j + 1;
    }
    proof {
        lemma_split_bar_none(rest@);
    }
    None
}

proof fn lemma_split_bar_none(s: Seq<u8>)
    requires
        forall|k: int| 0 <= k < s.len() ==> s[k] != 124,
    ensures
        split_bar(s) is None,
    decreases s.len(),
{
    if s.len() > 0 {
        lemma_split_bar_none(s.drop_first());
    }
}

/// How many of `mine` appear among the winning numbers.
pub fn count_winning_numbers(mine: &Vec<u64>, winning: &Vec<u64>) -> (r: usize)
    ensures
        r as int == count_in(mine@, winning@),
{
    let mut count: usize = 0;
    let mut i: usize = 0;
    proof {
        assert(mine@.skip(0) =~= mine@);
    }
    while i < mine.len()
        invariant
            0 <= i <= mine@.len(),
            count <= i,
            count_in(mine@, winning@) == count + count_in(mine@.skip(i as int), winning@),
        decreases mine.len() - i,
    {
        proof {
            assert(mine@.skip(i as int).drop_first() =~= mine@.skip(i as int + 1));
            assert(mine@.skip(i as int)[0] == mine@[i as int]);
        }
        if contains_val(winning, mine[i]) {
            count = count + 1;
        }
        i = i + 1;
    }
    proof {
        assert(mine@.skip(mine@.len() as int) =~= Seq::<u64>::empty());
    }
    count
}

pub open spec fn counts_view(cs: Seq<usize>) -> Seq<int> {
    cs.map_values(|x: usize| x as int)
}

/// The cascade of one card, given the cascades of all later cards; fails
/// when the count leaves `u64`.
pub fn count_cards(card: usize, cards: &Vec<usize>, seen: &Vec<u64>) -> (r: Option<u64>)
    requires
        1 <= card <= cards@.len(),
        seen@.len() == cards@.len(),
        forall|j: int|
            card < j <= cards@.len() ==> #[trigger] seen@[j - 1] as int == extra_from(
                j,
                1,
                counts_view(cards@),
            ) && extra_from(j, 1, counts_view(cards@)) <= u64::MAX,
    ensures
        r is Some <==> extra_from(card as int, 1, counts_view(cards@)) <= u64::MAX,
        r matches Some(v) ==> v as int == extra_from(card as int, 1, counts_view(cards@)),
{
    let ghost counts = counts_view(cards@);
    let n = cards.len();
    let w = cards[card - 1];
    let mut acc: u64 = 0;
    let mut t: usize = 1;
    proof {
        lemma_extra_nonneg(card as int, 1, counts);
    }
    while t <= w && t <= n - card
        invariant
            counts == counts_view(cards@),
            1 <= card <= n,
            n == cards@.len(),
            seen@.len() == n,
            w as int == counts[card - 1],
            1 <= t,
            forall|j: int|
                card < j <= cards@.len() ==> #[trigger] seen@[j - 1] as int == extra_from(
                    j,
                    1,
                    counts,
                ) && extra_from(j, 1, counts) <= u64::MAX,
            extra_from(card as int, 1, counts) == acc + extra_from(card as int, t as int, counts),
        decreases w + 1 - t,
    {
        proof {
            lemma_extra_nonneg(card as int + t as int, 1, counts);
            lemma_extra_nonneg(card as int, t as int + 1, counts);
        }
        let nxt = seen[card + t - 1];
        let step = match 1u64.checked_add(nxt) {
            Some(v) => v,
            None => {
                return None;
            },
        };
        acc = match acc.checked_add(step) {
            Some(v) => v,
            None => {
                return None;
            },
        };
        t = t + 1;
    }
    proof {
        assert(extra_from(card as int, t as int, counts) == 0);
    }
    Some(acc)
}

/// The match counts of every card.
fn parse_counts(input: &str) -> (r: Option<Vec<usize>>)
    ensures
        r is Some <==> line_counts(lines_of(input.spec_bytes())) is Some,
        r matches Some(v) ==> Some(counts_view(v@)) == line_counts(lines_of(input.spec_bytes())),
{
    let bytes = input.as_bytes();
    let ls = lines(bytes);
    let ghost lv = lines_of(input.spec_bytes());
    let mut out: Vec<usize> = Vec::new();
    let mut i: usize = 0;
    proof {
        assert(lv.skip(0) =~= lv);
        match line_counts(lv) {
            Option::None => {},
            Option::Some(cs) => {
                assert(counts_view(out@) + cs =~= cs);
            },
        }
    }
    while i < ls.len()
        invariant
            0 <= i <= ls@.len(),
            ls.deep_view() == lv,
            lv == lines_of(input.spec_bytes()),
            (match line_counts(lv.skip(i as int)) {
                Option::None => Option::<Seq<int>>::None,
                Option::Some(cs) => Some(counts_view(out@) + cs),
            }) == line_counts(lv),
        decreases ls.len() - i,
    {
        proof {
            assert(ls@[i as int].deep_view() =~= ls@[i as int]@);
            assert(lv[i as int] == ls@[i as int]@);
            assert(lv.skip(i as int).drop_first() =~= lv.skip(i as int + 1));
            assert(lv.skip(i as int)[0] == lv[i as int]);
        }
        let p = match parse_line(ls[i].as_slice()) {
            Some(v) => v,
            None => {
                return None;
            },
        };
        let c = count_winning_numbers(&p.1, &p.0);
        let ghost prev = counts_view(out@);
        out.push(c);
        proof {
            assert(counts_view(out@) =~= prev.push(c as int));
            match line_counts(lv.skip(i as int + 1)) {
                Option::None => {},
                Option::Some(cs) => {
                    assert(prev + (seq![c as int] + cs) =~= prev.push(c as int) + cs);
                },
            }
        }
        i = i + 1;
    }
    proof {
        assert(lv.skip(ls@.len() as int) =~= Seq::<Seq<u8>>::empty());
        assert(counts_view(out@) + Seq::<int>::empty() =~= counts_view(out@));
    }
    Some(out)
}

/// The total score of all cards in the doubling scheme, or nothing when a
/// line is malformed or a score or the sum leaves `u32`.
pub fn part_one(input: &str) -> (r: Option<u32>)
    ensures
        ({
            let cs = line_counts(lines_of(input.spec_bytes()));
            &&& (r is Some <==> (cs is Some && score_sum(cs->0) is Some && score_sum(cs->0)->0
                <= u32::MAX))
            &&& (r matches Some(v) ==> Some(v as int) == score_sum(cs->0))
        }),
{
    let cards = match parse_counts(input) {
        Some(v) => v,
        None => {
            return None;
        },
    };
    let ghost counts = counts_view(cards@);
    let mut total: u128 = 0;
    let mut i: usize = 0;
    proof {
        assert(counts.skip(0) =~= counts);
    }
    while i < cards.len()
        invariant
            0 <= i <= cards@.len(),
            counts == counts_view(cards@),
            line_counts(lines_of(input.spec_bytes())) == Some(counts),
            total as int <= (i as int) * (u32::MAX as int),
            (match score_sum(counts.skip(i as int)) {
                Option::None => Option::<int>::None,
                Option::Some(t) => Some(total as int + t),
            }) == score_sum(counts),
        decreases cards.len() - i,
    {
        proof {
            assert(counts.skip(i as int).drop_first() =~= counts.skip(i as int + 1));
            assert(counts.skip(i as int)[0] == counts[i as int]);
        }
        let c = cards[i];
        let sc: u32 = if c == 0 {
            0
        } else {
            match pow2_exec(c - 1) {
                Some(v) => v,
                None => {
                    return None;
                },
            }
        };
        total = total + sc as u128;
        i = i + 1;
    }
    proof {
        assert(counts.skip(cards@.len() as int) =~= Seq::<int>::empty());
    }
    if total > u32::MAX as u128 {
        return None;
    }
    Some(total as u32)
}

/// Two to the power `k`, when it fits `u32`.
fn pow2_exec(k: usize) -> (r: Option<u32>)
    ensures
        r is Some <==> pow2(k as int) <= u32::MAX,
        r matches Some(v) ==> v as int == pow2(k as int),
{
    let mut acc: u32 = 1;
    let mut t: usize = 0;
    while t < k
        invariant
            0 <= t <= k,
            acc as int == pow2(t as int),
        decreases k - t,
    {
        acc = match acc.checked_mul(2) {
            Some(v) => v,
            None => {
                proof {
                    lemma_pow2_mono(t as int + 1, k as int);
                }
                return None;
            },
        };
        t = t + 1;
    }
    Some(acc)
}

/// The total number of cards held at the end of the cascade: the originals
/// plus every card they win, transitively.  Nothing when a line is
/// malformed, a cascade leaves `u64`, or the total leaves `u32`.
pub fn part_two(input: &str) -> (r: Option<u32>)
    ensures
        ({
            let cs = line_counts(lines_of(input.spec_bytes()));
            &&& (r is Some <==> (cs is Some && extras_ok(cs->0) && cs->0.len() + extra_total(
                1,
                cs->0,
            ) <= u32::MAX))
            &&& (r matches Some(v) ==> v as int == cs->0.len() + extra_total(1, cs->0))
        }),
{
    let cards = match parse_counts(input) {
        Some(v) => v,
        None => {
            return None;
        },
    };
    let ghost counts = counts_view(cards@);
    let n = cards.len();
    let mut seen: Vec<u64> = Vec::new();
    let mut z: usize = 0;
    while z < n
        invariant
            0 <= z <= n,
            seen@.len() == z,
        decreases n - z,
    {
        seen.push(0);
        z = z + 1;
    }
    let mut c: usize = n;
    while c > 0
        invariant
            0 <= c <= n,
            n == cards@.len(),
            counts == counts_view(cards@),
            line_counts(lines_of(input.spec_bytes())) == Some(counts),
            seen@.len() == n,
            forall|j: int|
                c < j <= n ==> #[trigger] seen@[j - 1] as int == extra_from(j, 1, counts)
                    && extra_from(j, 1, counts) <= u64::MAX,
        decreases c,
    {
        let v = match count_cards(c, &cards, &seen) {
            Some(v) => v,
            None => {
                proof {
                    assert(!extras_ok(counts));
                }
                return None;
            },
        };
        seen.set(c - 1, v);
        c = c - 1;
    }
    let mut total: u128 = n as u128;
    let mut i: usize = 0;
    proof {
        assert forall|c2: int| 1 <= c2 <= counts.len() implies extra_from(c2, 1, counts)
            <= u64::MAX by {
            assert(seen@[c2 - 1] as int == extra_from(c2, 1, counts));
        }
        assert(extras_ok(counts));
    }
    while i < n
        invariant
            0 <= i <= n,
            n == cards@.len(),
            counts == counts_view(cards@),
            line_counts(lines_of(input.spec_bytes())) == Some(counts),
            extras_ok(counts),
            seen@.len() == n,
            forall|j: int|
                0 < j <= n ==> #[trigger] seen@[j - 1] as int == extra_from(j, 1, counts),
            total as int <= n + (i as int) * (u64::MAX as int),
            total as int == n + extra_total(1, counts) - extra_total(i as int + 1, counts),
        decreases n - i,
    {
        proof {
            lemma_extra_total_unfold(i as int + 1, counts);
        }
        total = total + seen[i] as u128;
        i = i + 1;
    }
    proof {
        assert(extra_total(n as int + 1, counts) == 0);
    }
    if total > u32::MAX as u128 {
        return None;
    }
    Some(total as u32)
}

proof fn lemma_extra_total_unfold(c: int, counts: Seq<int>)
    requires
        1 <= c <= counts.len(),
    ensures
        extra_total(c, counts) == extra_from(c, 1, counts) + extra_total(c + 1, counts),
{
}

} // verus!
