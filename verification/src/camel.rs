//! Poker-hand classification and ordering: five-card hands are classified by
//! their repetition shape, ordered by type, then card values, then bid, and
//! each hand's winnings are its bid times its rank in that order.  Ranks are
//! computed by counting weaker hands, which agrees with ranking by a stable
//! sort because the comparison key determines the whole hand.

use crate::text::is_digits;
use crate::text::lines;
use crate::text::lines_of;
use crate::text::parse_u64;
use crate::text::tokens;
use crate::text::tokens_of;
use crate::text::uint_val;
use vstd::prelude::*;
use vstd::string::StringSliceAdditionalSpecFns;

verus! {

#[derive(Clone, Copy, PartialEq, Eq, Structural, Debug)]
pub enum HandType {
    Unknown,
    HighCard,
    OnePair,
    TwoPair,
    ThreeOfAKind,
    FullHouse,
    FourOfAKind,
    FiveOfAKind,
}

/// The strength order of the hand types.
pub open spec fn type_rank(t: HandType) -> u32 {
    match t {
        HandType::Unknown => 0,
        HandType::HighCard => 1,
        HandType::OnePair => 2,
        HandType::TwoPair => 3,
        HandType::ThreeOfAKind => 4,
        HandType::FullHouse => 5,
        HandType::FourOfAKind => 6,
        HandType::FiveOfAKind => 7,
    }
}

/// One parsed hand: its type, its five card values, and its bid.
pub struct Hand {
    pub hand_type: HandType,
    pub cards: Vec<u32>,
    pub bid: u32,
}

/// How many cards of the hand hold the value `v`.
pub open spec fn count_eq(h: Seq<u32>, v: u32) -> int
    decreases h.len(),
{
    if h.len() == 0 {
        0
    } else {
        (if h[0] == v {
            1int
        } else {
            0int
        }) + count_eq(h.drop_first(), v)
    }
}

/// The repetition shape of a five-card hand.
pub open spec fn hand_type_of(h: Seq<u32>) -> HandType {
    let c0 = count_eq(h, h[0]);
    let c1 = count_eq(h, h[1]);
    let c2 = count_eq(h, h[2]);
    let c3 = count_eq(h, h[3]);
    let c4 = count_eq(h, h[4]);
    let mx = max5(c0, c1, c2, c3, c4);
    let pairs = pc(c0) + pc(c1) + pc(c2) + pc(c3) + pc(c4);
    if mx == 5 {
        HandType::FiveOfAKind
    } else if mx == 4 {
        HandType::FourOfAKind
    } else if mx == 3 && pairs > 0 {
        HandType::FullHouse
    } else if mx == 3 {
        HandType::ThreeOfAKind
    } else if mx == 2 && pairs == 4 {
        HandType::TwoPair
    } else if mx == 2 {
        HandType::OnePair
    } else if mx == 1 {
        HandType::HighCard
    } else {
        HandType::Unknown
    }
}

pub open spec fn max5(a: int, b: int, c: int, d: int, e: int) -> int {
    max2(max2(max2(a, b), max2(c, d)), e)
}

pub open spec fn max2(a: int, b: int) -> int {
    if a >= b {
        a
    } else {
        b
    }
}

/// One where a position sits in a pair.
pub open spec fn pc(c: int) -> int {
    if c == 2 {
        1int
    } else {
        0int
    }
}

/// The most frequent non-joker value, earliest position winning ties.
pub open spec fn mode_from(h: Seq<u32>, i: int, bv: u32, bc: int) -> u32
    decreases h.len() - i,
{
    if i < 0 || i >= h.len() {
        bv
    } else if h[i] != 1 && count_eq(h, h[i]) > bc {
        mode_from(h, i + 1, h[i], count_eq(h, h[i]))
    } else {
        mode_from(h, i + 1, bv, bc)
    }
}

/// The hand with every joker replaced by `m`.
pub open spec fn replace_jokers(h: Seq<u32>, m: u32) -> Seq<u32> {
    h.map_values(
        |x: u32|
            if x == 1 {
                m
            } else {
                x
            },
    )
}

/// The repetition shape when jokers stand in for the most frequent other
/// value.
pub open spec fn jokers_type_of(h: Seq<u32>) -> HandType {
    let jc = count_eq(h, 1);
    if jc == 0 {
        hand_type_of(h)
    } else if jc >= 4 {
        HandType::FiveOfAKind
    } else {
        hand_type_of(replace_jokers(h, mode_from(h, 0, 0, 0)))
    }
}

/// The value of one card character; jokers fall below every other card in
/// the second scheme, and an unknown character counts zero.
pub open spec fn card_value_of(c: u8, part_two: bool) -> u32 {
    if 48 <= c <= 57 {
        (c - 48) as u32
    } else if c == 84 {
        10
    } else if c == 74 {
        if part_two {
            1
        } else {
            11
        }
    } else if c == 81 {
        12
    } else if c == 75 {
        13
    } else if c == 65 {
        14
    } else {
        0
    }
}

/// One hand line: five card characters, whitespace, and a bid that fits
/// `u32`.
pub open spec fn parse_hand_spec(l: Seq<u8>, part_two: bool) -> Option<(Seq<u32>, int)> {
    let ts = tokens_of(l);
    if ts.len() == 2 && ts[0].len() == 5 && is_digits(ts[1]) && uint_val(ts[1]) <= u32::MAX {
        Some((ts[0].map_values(|c: u8| card_value_of(c, part_two)), uint_val(ts[1])))
    } else {
        Option::None
    }
}

/// The comparison key of a hand: type, then the five cards in order, then
/// the bid; it packs injectively because every component is bounded.
pub open spec fn hand_key(cards: Seq<u32>, t: HandType, bid: int) -> int {
    (((((type_rank(t) * 16 + cards[0]) * 16 + cards[1]) * 16 + cards[2]) * 16 + cards[3]) * 16
        + cards[4]) * 0x1_0000_0000 + bid
}

/// The keys of all hand lines, in input order.
pub open spec fn hand_keys(ls: Seq<Seq<u8>>, part_two: bool) -> Option<Seq<u64>>
    decreases ls.len(),
{
    if ls.len() == 0 {
        Some(Seq::<u64>::empty())
    } else {
        match parse_hand_spec(ls[0], part_two) {
            Option::None => Option::None,
            Option::Some(p) => {
                let t = if part_two {
                    jokers_type_of(p.0)
                } else {
                    hand_type_of(p.0)
                };
                match hand_keys(ls.drop_first(), part_two) {
                    Option::None => Option::None,
                    Option::Some(ks) => Some(seq![hand_key(p.0, t, p.1) as u64] + ks),
                }
            },
        }
    }
}

/// How many keys are strictly below `v`.
pub open spec fn count_lt(ks: Seq<u64>, v: u64) -> int
    decreases ks.len(),
{
    if ks.len() == 0 {
        0
    } else {
        (if ks[0] < v {
            1int
        } else {
            0int
        }) + count_lt(ks.drop_first(), v)
    }
}

/// How many keys equal `v`.
pub open spec fn count_eqk(ks: Seq<u64>, v: u64) -> int
    decreases ks.len(),
{
    if ks.len() == 0 {
        0
    } else {
        (if ks[0] == v {
            1int
        } else {
            0int
        }) + count_eqk(ks.drop_first(), v)
    }
}

/// The rank of the hand at position `i`: one more than the number of
/// strictly weaker hands plus the number of equal hands earlier in the
/// input.
pub open spec fn rank_at(ks: Seq<u64>, i: int) -> int {
    1 + count_lt(ks, ks[i]) + count_eqk(ks.take(i), ks[i])
}

/// The bid packed into a key.
pub open spec fn bid_of_key(k: u64) -> int {
    (k as int) % 0x1_0000_0000
}

/// The total winnings of the hands at positions `i` and beyond.
pub open spec fn winnings_from(ks: Seq<u64>, i: int) -> int
    decreases ks.len() - i,
{
    if i < 0 || i >= ks.len() {
        0
    } else {
        bid_of_key(ks[i]) * rank_at(ks, i) + winnings_from(ks, i + 1)
    }
}

proof fn lemma_counts_nonneg(ks: Seq<u64>, v: u64)
    ensures
        count_lt(ks, v) >= 0,
        count_eqk(ks, v) >= 0,
        count_lt(ks, v) <= ks.len(),
        count_eqk(ks, v) <= ks.len(),
    decreases ks.len(),
{
    if ks.len() > 0 {
        lemma_counts_nonneg(ks.drop_first(), v);
    }
}

proof fn lemma_winnings_nonneg(ks: Seq<u64>, i: int)
    ensures
        winnings_from(ks, i) >= 0,
    decreases ks.len() - i,
{
    if 0 <= i < ks.len() {
        lemma_winnings_nonneg(ks, i + 1);
        lemma_counts_nonneg(ks, ks[i]);
        lemma_counts_nonneg(ks.take(i), ks[i]);
        assert(bid_of_key(ks[i]) * rank_at(ks, i) >= 0) by (nonlinear_arith)
            requires
                bid_of_key(ks[i]) >= 0,
                rank_at(ks, i) >= 1,
        ;
    }
}

/// How many cards of the hand hold the value `v`.
fn count_eq_exec(h: &Vec<u32>, v: u32) -> (r: usize)
    ensures
        r as int == count_eq(h@, v),
{
    let mut count: usize = 0;
    let mut i: usize = 0;
    proof {
        assert(h@.skip(0) =~= h@);
    }
    while i < h.len()
        invariant
            0 <= i <= h@.len(),
            count <= i,
            count_eq(h@, v) == count + count_eq(h@.skip(i as int), v),
        decreases h.len() - i,
    {
        proof {
            assert(h@.skip(i as int).drop_first() =~= h@.skip(i as int + 1));
            assert(h@.skip(i as int)[0] == h@[i as int]);
        }
        if h[i] == v {
            count = count + 1;
        }
        i = i + 1;
    }
    proof {
        assert(h@.skip(h@.len() as int) =~= Seq::<u32>::empty());
    }
    count
}

/// Classifies a five-card hand by its repetition shape.
pub fn get_hand_type(hand: &Vec<u32>) -> (r: HandType)
    requires
        hand@.len() == 5,
    ensures
        r == hand_type_of(hand@),
{
    let c0 = count_eq_exec(hand, hand[0]);
    let c1 = count_eq_exec(hand, hand[1]);
    let c2 = count_eq_exec(hand, hand[2]);
    let c3 = count_eq_exec(hand, hand[3]);
    let c4 = count_eq_exec(hand, hand[4]);
    let mut mx = c0;
    if c1 > mx {
        mx = c1;
    }
    if c2 > mx {
        mx = c2;
    }
    if c3 > mx {
        mx = c3;
    }
    if c4 > mx {
        mx = c4;
    }
    let mut pairs: usize = 0;
    if c0 == 2 {
        pairs = pairs + 1;
    }
    if c1 == 2 {
        pairs = pairs + 1;
    }
    if c2 == 2 {
        pairs = pairs + 1;
    }
    if c3 == 2 {
        pairs = pairs + 1;
    }
    if c4 == 2 {
        pairs = pairs + 1;
    }
    if mx == 5 {
        HandType::FiveOfAKind
    } else if mx == 4 {
        HandType::FourOfAKind
    } else if mx == 3 && pairs > 0 {
        HandType::FullHouse
    } else if mx == 3 {
        HandType::ThreeOfAKind
    } else if mx == 2 && pairs == 4 {
        HandType::TwoPair
    } else if mx == 2 {
        HandType::OnePair
    } else if mx == 1 {
        HandType::HighCard
    } else {
        HandType::Unknown
    }
}

/// Classifies a five-card hand with jokers standing in for the most frequent
/// other value.
pub fn get_hand_type_with_jokers(hand: &Vec<u32>) -> (r: HandType)
    requires
        hand@.len() == 5,
    ensures
        r == jokers_type_of(hand@),
{
    let jc = count_eq_exec(hand, 1);
    if jc == 0 {
        return get_hand_type(hand);
    }
    if jc >= 4 {
        return HandType::FiveOfAKind;
    }
    let mut bv: u32 = 0;
    let mut bc: usize = 0;
    let mut i: usize = 0;
    while i < hand.len()
        invariant
            hand@.len() == 5,
            0 <= i <= 5,
            bc as int >= 0,
            mode_from(hand@, 0, 0, 0) == mode_from(hand@, i as int, bv, bc as int),
        decreases hand.len() - i,
    {
        let c = count_eq_exec(hand, hand[i]);
        if hand[i] != 1 && c > bc {
            bv = hand[i];
            bc = c;
        }
        i = i + 1;
    }
    let m = bv;
    let mut replaced: Vec<u32> = Vec::new();
    let mut j: usize = 0;
    while j < hand.len()
        invariant
            hand@.len() == 5,
            0 <= j <= 5,
            replaced@ == replace_jokers(hand@, m).take(j as int),
        decreases hand.len() - j,
    {
        let x = hand[j];
        replaced.push(
            if x == 1 {
                m
            } else {
                x
            },
        );
        proof {
            assert(replace_jokers(hand@, m).take(j as int + 1) =~= replace_jokers(
                hand@,
                m,
            ).take(j as int).push(replace_jokers(hand@, m)[j as int]));
        }
        j = j + 1;
    }
    proof {
        assert(replaced@ =~= replace_jokers(hand@, m));
    }
    get_hand_type(&replaced)
}

/// The value of one card character.
pub fn card_value(card: u8, part_two: bool) -> (r: u32)
    ensures
        r == card_value_of(card, part_two),
        r <= 14,
{
    if 48 <= card && card <= 57 {
        (card - 48) as u32
    } else if card == 84 {
        10
    } else if card == 74 {
        if part_two {
            1
        } else {
            11
        }
    } else if card == 81 {
        12
    } else if card == 75 {
        13
    } else if card == 65 {
        14
    } else {
        0
    }
}

/// Parses one hand line.
pub fn parse_hand(line: &[u8], part_two: bool) -> (r: Option<Hand>)
    ensures
        r is Some <==> parse_hand_spec(line@, part_two) is Some,
        r matches Some(h) ==> {
            let p = parse_hand_spec(line@, part_two)->0;
            &&& h.cards@ == p.0
            &&& h.cards@.len() == 5
            &&& h.bid as int == p.1
            &&& forall|k: int| 0 <= k < 5 ==> #[trigger] h.cards@[k] <= 14
            &&& h.hand_type == (if part_two {
                jokers_type_of(p.0)
            } else {
                hand_type_of(p.0)
            })
        },
{
    let ts = tokens(line);
    let ghost tso = tokens_of(line@);
    if ts.len() != 2 {
        return None;
    }
    proof {
        assert(ts@[0].deep_view() =~= ts@[0]@);
        assert(ts@[1].deep_view() =~= ts@[1]@);
        assert(tso[0] == ts@[0]@ && tso[1] == ts@[1]@);
    }
    let ct = &ts[0];
    if ct.len() != 5 {
        return None;
    }
    let bid64 = match parse_u64(ts[1].as_slice()) {
        Some(v) => v,
        None => {
            return None;
        },
    };
    proof {
        crate::text::lemma_uint_val_nonneg(tso[1]);
    }
    if bid64 > u32::MAX as u64 {
        return None;
    }
    let mut cards: Vec<u32> = Vec::new();
    let mut i: usize = 0;
    while i < 5
        invariant
            0 <= i <= 5,
            tso == tokens_of(line@),
            tso.len() == 2,
            ct@.len() == 5,
            ct@ == tso[0],
            cards@ == tso[0].map_values(|c: u8| card_value_of(c, part_two)).take(i as int),
            forall|k: int| 0 <= k < i ==> #[trigger] cards@[k] <= 14,
        decreases 5 - i,
    {
        let v = card_value(ct[i], part_two);
        cards.push(v);
        proof {
            let vals = tso[0].map_values(|c: u8| card_value_of(c, part_two));
            assert(vals.take(i as int + 1) =~= vals.take(i as int).push(vals[i as int]));
        }
        i = i + 1;
    }
    proof {
        assert(cards@ =~= tso[0].map_values(|c: u8| card_value_of(c, part_two)));
    }
    let hand_type = if part_two {
        get_hand_type_with_jokers(&cards)
    } else {
        get_hand_type(&cards)
    };
    Some(Hand { hand_type, cards, bid: bid64 as u32 })
}

/// The key of one parsed hand.
fn key_of_hand(h: &Hand) -> (r: u64)
    requires
        h.cards@.len() == 5,
        forall|k: int| 0 <= k < 5 ==> #[trigger] h.cards@[k] <= 14,
    ensures
        r as int == hand_key(h.cards@, h.hand_type, h.bid as int),
{
    let t: u32 = match h.hand_type {
        HandType::Unknown => 0,
        HandType::HighCard => 1,
        HandType::OnePair => 2,
        HandType::TwoPair => 3,
        HandType::ThreeOfAKind => 4,
        HandType::FullHouse => 5,
        HandType::FourOfAKind => 6,
        HandType::FiveOfAKind => 7,
    };
    let packed: u64 = ((((t as u64 * 16 + h.cards[0] as u64) * 16 + h.cards[1] as u64) * 16
        + h.cards[2] as u64) * 16 + h.cards[3] as u64) * 16 + h.cards[4] as u64;
    packed * 0x1_0000_0000 + h.bid as u64
}

/// The keys of every hand line.
fn parse_keys(input: &str, part_two: bool) -> (r: Option<Vec<u64>>)
    ensures
        r is Some <==> hand_keys(lines_of(input.spec_bytes()), part_two) is Some,
        r matches Some(v) ==> Some(v@) == hand_keys(lines_of(input.spec_bytes()), part_two),
{
    let bytes = input.as_bytes();
    let ls = lines(bytes);
    let ghost lv = lines_of(input.spec_bytes());
    let mut out: Vec<u64> = Vec::new();
    let mut i: usize = 0;
    proof {
        assert(lv.skip(0) =~= lv);
        match hand_keys(lv, part_two) {
            Option::None => {},
            Option::Some(ks) => {
                assert(out@ + ks =~= ks);
            },
        }
    }
    while i < ls.len()
        invariant
            0 <= i <= ls@.len(),
            ls.deep_view() == lv,
            lv == lines_of(input.spec_bytes()),
            (match hand_keys(lv.skip(i as int), part_two) {
                Option::None => Option::<Seq<u64>>::None,
                Option::Some(ks) => Some(out@ + ks),
            }) == hand_keys(lv, part_two),
        decreases ls.len() - i,
    {
        proof {
            assert(ls@[i as int].deep_view() =~= ls@[i as int]@);
            assert(lv[i as int] == ls@[i as int]@);
            assert(lv.skip(i as int).drop_first() =~= lv.skip(i as int + 1));
            assert(lv.skip(i as int)[0] == lv[i as int]);
        }
        let h = match parse_hand(ls[i].as_slice(), part_two) {
            Some(v) => v,
            None => {
                return None;
            },
        };
        let k = key_of_hand(&h);
        let ghost prev = out@;
        out.push(k);
        proof {
            match hand_keys(lv.skip(i as int + 1), part_two) {
                Option::None => {},
                Option::Some(ks) => {
                    assert(prev + (seq![k] + ks) =~= out@ + ks);
                },
            }
        }
        i = i + 1;
    }
    proof {
        assert(lv.skip(ls@.len() as int) =~= Seq::<Seq<u8>>::empty());
        assert(out@ + Seq::<u64>::empty() =~= out@);
    }
    Some(out)
}

/// How many keys are strictly below `v`.
fn count_lt_exec(ks: &Vec<u64>, v: u64) -> (r: usize)
    ensures
        r as int == count_lt(ks@, v),
{
    let mut count: usize = 0;
    let mut i: usize = 0;
    proof {
        assert(ks@.skip(0) =~= ks@);
    }
    while i < ks.len()
        invariant
            0 <= i <= ks@.len(),
            count <= i,
            count_lt(ks@, v) == count + count_lt(ks@.skip(i as int), v),
        decreases ks.len() - i,
    {
        proof {
            assert(ks@.skip(i as int).drop_first() =~= ks@.skip(i as int + 1));
            assert(ks@.skip(i as int)[0] == ks@[i as int]);
        }
        if ks[i] < v {
            count = count + 1;
        }
        i = i + 1;
    }
    proof {
        assert(ks@.skip(ks@.len() as int) =~= Seq::<u64>::empty());
    }
    count
}

/// How many of the first `upto` keys equal `v`.
fn count_eq_upto(ks: &Vec<u64>, upto: usize, v: u64) -> (r: usize)
    requires
        upto <= ks@.len(),
    ensures
        r as int == count_eqk(ks@.take(upto as int), v),
{
    let mut count: usize = 0;
    let mut i: usize = 0;
    let ghost pre = ks@.take(upto as int);
    proof {
        assert(pre.skip(0) =~= pre);
    }
    while i < upto
        invariant
            0 <= i <= upto <= ks@.len(),
            pre == ks@.take(upto as int),
            count <= i,
            count_eqk(pre, v) == count + count_eqk(pre.skip(i as int), v),
        decreases upto - i,
    {
        proof {
            assert(pre.skip(i as int).drop_first() =~= pre.skip(i as int + 1));
            assert(pre.skip(i as int)[0] == ks@[i as int]);
        }
        if ks[i] == v {
            count = count + 1;
        }
        i = i + 1;
    }
    proof {
        assert(pre.skip(upto as int) =~= Seq::<u64>::empty());
    }
    count
}

/// The total winnings of a list of hand keys, when they fit `u32`.
fn total_winnings(ks: &Vec<u64>) -> (r: Option<u32>)
    ensures
        r is Some <==> winnings_from(ks@, 0) <= u32::MAX,
        r matches Some(v) ==> v as int == winnings_from(ks@, 0),
{
    let mut total: u128 = 0;
    let mut i: usize = 0;
    proof {
        lemma_winnings_nonneg(ks@, 0);
    }
    while i < ks.len()
        invariant
            0 <= i <= ks@.len(),
            total <= u32::MAX,
            winnings_from(ks@, 0) == total + winnings_from(ks@, i as int),
        decreases ks.len() - i,
    {
        let v = ks[i];
        let lt = count_lt_exec(ks, v);
        let eqb = count_eq_upto(ks, i, v);
        let rank: u128 = 1 + lt as u128 + eqb as u128;
        let bid: u128 = (v % 0x1_0000_0000) as u128;
        proof {
            assert(bid * rank <= 0x1_0000_0000u128 * (rank as int)) by (nonlinear_arith)
                requires
                    0 <= bid <= 0x1_0000_0000u128,
                    rank >= 0,
            ;
        }
        let term: u128 = bid * rank;
        let next = total + term;
        proof {
            lemma_winnings_nonneg(ks@, i as int + 1);
            assert(winnings_from(ks@, i as int) == bid_of_key(ks@[i as int]) * rank_at(
                ks@,
                i as int,
            ) + winnings_from(ks@, i as int + 1));
        }
        if next > u32::MAX as u128 {
            return None;
        }
        total = next;
        i = i + 1;
    }
    Some(total as u32)
}

/// The total winnings with jacks counted as jacks.
pub fn part_one(input: &str) -> (r: Option<u32>)
    ensures
        ({
            let ks = hand_keys(lines_of(input.spec_bytes()), false);
            &&& (r is Some <==> (ks is Some && winnings_from(ks->0, 0) <= u32::MAX))
            &&& (r matches Some(v) ==> v as int == winnings_from(ks->0, 0))
        }),
{
    let ks = match parse_keys(input, false) {
        Some(v) => v,
        None => {
            return None;
        },
    };
    total_winnings(&ks)
}

/// The total winnings with jacks counted as jokers.
pub fn part_two(input: &str) -> (r: Option<u32>)
    ensures
        ({
            let ks = hand_keys(lines_of(input.spec_bytes()), true);
            &&& (r is Some <==> (ks is Some && winnings_from(ks->0, 0) <= u32::MAX))
            &&& (r matches Some(v) ==> v as int == winnings_from(ks->0, 0))
        }),
{
    let ks = match parse_keys(input, true) {
        Some(v) => v,
        None => {
            return None;
        },
    };
    total_winnings(&ks)
}

} // verus!
