//! Colour-inventory feasibility: each game line lists draws of red, green
//! and blue cubes; a game is possible when the componentwise maximum of its
//! draws fits the real inventory, and its power is the product of those
//! maxima.

use crate::text::is_digits;
use crate::text::is_space;
use crate::text::lines;
use crate::text::lines_of;
use crate::text::parse_u64;
use crate::text::uint_val;
use vstd::prelude::*;
use vstd::string::StringSliceAdditionalSpecFns;

verus! {

/// Cube counts of the three colours.
#[derive(Clone, Copy, PartialEq, Eq, Structural, Debug)]
pub struct Colours {
    pub red: u32,
    pub green: u32,
    pub blue: u32,
}

pub open spec fn cview(c: Colours) -> (int, int, int) {
    (c.red as int, c.green as int, c.blue as int)
}

pub open spec fn cviews(cs: Seq<Colours>) -> Seq<(int, int, int)> {
    cs.map_values(|c: Colours| cview(c))
}

/// The pieces of `s` split at every occurrence of `b`; empty pieces count.
pub open spec fn pieces_from(s: Seq<u8>, b: u8, cur: Seq<u8>) -> Seq<Seq<u8>>
    decreases s.len(),
{
    if s.len() == 0 {
        seq![cur]
    } else if s[0] == b {
        seq![cur] + pieces_from(s.drop_first(), b, seq![])
    } else {
        pieces_from(s.drop_first(), b, cur.push(s[0]))
    }
}

pub open spec fn split_all(s: Seq<u8>, b: u8) -> Seq<Seq<u8>> {
    pieces_from(s, b, seq![])
}

/// The part of `s` before the first `b` and the part after it, if any.
pub open spec fn split_byte(s: Seq<u8>, b: u8) -> Option<(Seq<u8>, Seq<u8>)>
    decreases s.len(),
{
    if s.len() == 0 {
        Option::None
    } else if s[0] == b {
        Some((Seq::<u8>::empty(), s.drop_first()))
    } else {
        match split_byte(s.drop_first(), b) {
            Option::None => Option::None,
            Option::Some(p) => Some((seq![s[0]] + p.0, p.1)),
        }
    }
}

proof fn lemma_split_byte_at(s: Seq<u8>, b: u8, j: int)
    requires
        0 <= j < s.len(),
        s[j] == b,
        forall|k: int| 0 <= k < j ==> s[k] != b,
    ensures
        split_byte(s, b) == Some((s.take(j), s.skip(j + 1))),
    decreases j,
{
    if j == 0 {
        assert(s.take(0) =~= Seq::<u8>::empty());
        assert(s.skip(1) =~= s.drop_first());
    } else {
        lemma_split_byte_at(s.drop_first(), b, j - 1);
        assert(seq![s[0]] + s.drop_first().take(j - 1) =~= s.take(j));
        assert(s.drop_first().skip(j) =~= s.skip(j + 1));
    }
}

proof fn lemma_split_byte_none(s: Seq<u8>, b: u8)
    requires
        forall|k: int| 0 <= k < s.len() ==> s[k] != b,
    ensures
        split_byte(s, b) is None,
    decreases s.len(),
{
    if s.len() > 0 {
        lemma_split_byte_none(s.drop_first(), b);
    }
}

pub open spec fn trim_front(s: Seq<u8>) -> Seq<u8>
    decreases s.len(),
{
    if s.len() > 0 && is_space(s[0]) {
        trim_front(s.drop_first())
    } else {
        s
    }
}

pub open spec fn trim_back(s: Seq<u8>) -> Seq<u8>
    decreases s.len(),
{
    if s.len() > 0 && is_space(s[s.len() - 1]) {
        trim_back(s.drop_last())
    } else {
        s
    }
}

pub open spec fn trim_of(s: Seq<u8>) -> Seq<u8> {
    trim_back(trim_front(s))
}

pub open spec fn red_word() -> Seq<u8> {
    seq![114u8, 101u8, 100u8]
}

pub open spec fn green_word() -> Seq<u8> {
    seq![103u8, 114u8, 101u8, 101u8, 110u8]
}

pub open spec fn blue_word() -> Seq<u8> {
    seq![98u8, 108u8, 117u8, 101u8]
}

/// One draw item: its trimmed text is a count, a single space, and the rest
/// names the colour.
pub open spec fn colour_of(piece: Seq<u8>) -> Option<(int, Seq<u8>)> {
    let t = trim_of(piece);
    match split_byte(t, 32) {
        Option::None => Option::None,
        Option::Some(p) => {
            if is_digits(p.0) && uint_val(p.0) <= u32::MAX {
                Some((uint_val(p.0), p.1))
            } else {
                Option::None
            }
        },
    }
}

/// A recognised colour word replaces that component; anything else leaves
/// the draw unchanged.
pub open spec fn upd(acc: (int, int, int), v: int, w: Seq<u8>) -> (int, int, int) {
    if w == red_word() {
        (v, acc.1, acc.2)
    } else if w == green_word() {
        (acc.0, v, acc.2)
    } else if w == blue_word() {
        (acc.0, acc.1, v)
    } else {
        acc
    }
}

/// One draw group folded over its comma-separated items.
pub open spec fn fold_colours(ps: Seq<Seq<u8>>, acc: (int, int, int)) -> Option<(int, int, int)>
    decreases ps.len(),
{
    if ps.len() == 0 {
        Some(acc)
    } else {
        match colour_of(ps[0]) {
            Option::None => Option::None,
            Option::Some(p) => fold_colours(ps.drop_first(), upd(acc, p.0, p.1)),
        }
    }
}

pub open spec fn group_spec(g: Seq<u8>) -> Option<(int, int, int)> {
    fold_colours(split_all(g, 44), (0int, 0int, 0int))
}

/// Every draw group of one game line.
pub open spec fn group_specs(gs: Seq<Seq<u8>>) -> Option<Seq<(int, int, int)>>
    decreases gs.len(),
{
    if gs.len() == 0 {
        Some(Seq::<(int, int, int)>::empty())
    } else {
        match group_spec(gs[0]) {
            Option::None => Option::None,
            Option::Some(c) => match group_specs(gs.drop_first()) {
                Option::None => Option::None,
                Option::Some(cs) => Some(seq![c] + cs),
            },
        }
    }
}

pub open spec fn max3(a: (int, int, int), b: (int, int, int)) -> (int, int, int) {
    (
        if a.0 >= b.0 {
            a.0
        } else {
            b.0
        },
        if a.1 >= b.1 {
            a.1
        } else {
            b.1
        },
        if a.2 >= b.2 {
            a.2
        } else {
            b.2
        },
    )
}

/// The componentwise maximum of the draws.
pub open spec fn max_fold(cs: Seq<(int, int, int)>, acc: (int, int, int)) -> (int, int, int)
    decreases cs.len(),
{
    if cs.len() == 0 {
        acc
    } else {
        max_fold(cs.drop_first(), max3(acc, cs[0]))
    }
}

/// The game number before the colon: the label `Game ` and an integer.
pub open spec fn game_num_of(head: Seq<u8>) -> Option<int> {
    if head.len() >= 5 && head[0] == 71 && head[1] == 97 && head[2] == 109 && head[3] == 101
        && head[4] == 32 && is_digits(head.skip(5)) && uint_val(head.skip(5)) <= u32::MAX {
        Some(uint_val(head.skip(5)))
    } else {
        Option::None
    }
}

/// One game line: its number and the componentwise maximum of its draws.
pub open spec fn game_spec(l: Seq<u8>) -> Option<(int, (int, int, int))> {
    match split_byte(l, 58) {
        Option::None => Option::None,
        Option::Some(p) => match game_num_of(p.0) {
            Option::None => Option::None,
            Option::Some(n) => match group_specs(split_all(p.1, 59)) {
                Option::None => Option::None,
                Option::Some(cs) => Some((n, max_fold(cs, (0int, 0int, 0int)))),
            },
        },
    }
}

pub open spec fn possible(c: (int, int, int)) -> bool {
    c.0 <= 12 && c.1 <= 13 && c.2 <= 14
}

/// The sum of the numbers of the possible games.
pub open spec fn possible_sum(ls: Seq<Seq<u8>>) -> Option<int>
    decreases ls.len(),
{
    if ls.len() == 0 {
        Some(0int)
    } else {
        match game_spec(ls[0]) {
            Option::None => Option::None,
            Option::Some(g) => match possible_sum(ls.drop_first()) {
                Option::None => Option::None,
                Option::Some(t) => Some(
                    (if possible(g.1) {
                        g.0
                    } else {
                        0int
                    }) + t,
                ),
            },
        }
    }
}

/// The sum of the games' powers; a power whose partial product leaves `u32`
/// is an error.
pub open spec fn power_sum(ls: Seq<Seq<u8>>) -> Option<int>
    decreases ls.len(),
{
    if ls.len() == 0 {
        Some(0int)
    } else {
        match game_spec(ls[0]) {
            Option::None => Option::None,
            Option::Some(g) => {
                let rg = g.1.0 * g.1.1;
                if rg > u32::MAX || rg * g.1.2 > u32::MAX {
                    Option::None
                } else {
                    match power_sum(ls.drop_first()) {
                        Option::None => Option::None,
                        Option::Some(t) => Some(rg * g.1.2 + t),
                    }
                }
            },
        }
    }
}

/// Whether the real inventory can supply the game's maxima.
pub fn game_is_possible(game_colours: &Colours, real_colours: &Colours) -> (r: bool)
    ensures
        r == (real_colours.red >= game_colours.red && real_colours.green >= game_colours.green
            && real_colours.blue >= game_colours.blue),
{
    real_colours.red >= game_colours.red && real_colours.green >= game_colours.green
        && real_colours.blue >= game_colours.blue
}

/// Splits a byte string at every occurrence of `b`; empty pieces count.
fn split_all_exec(s: &[u8], b: u8) -> (out: Vec<Vec<u8>>)
    ensures
        out.deep_view() == split_all(s@, b),
{
    let mut out: Vec<Vec<u8>> = Vec::new();
    let mut cur: Vec<u8> = Vec::new();
    let mut i: usize = 0;
    proof {
        assert(out.deep_view() =~~= Seq::<Seq<u8>>::empty());
        assert(s@.skip(0) =~= s@);
        assert(Seq::<Seq<u8>>::empty() + pieces_from(s@, b, cur@) =~= pieces_from(s@, b, cur@));
    }
    while i < s.len()
        invariant
            0 <= i <= s@.len(),
            split_all(s@, b) == out.deep_view() + pieces_from(s@.skip(i as int), b, cur@),
        decreases s@.len() - i,
    {
        proof {
            assert(s@.skip(i as int).drop_first() =~= s@.skip(i as int + 1));
            assert(s@.skip(i as int)[0] == s@[i as int]);
        }
        if s[i] == b {
            let done = cur;
            cur = Vec::new();
            let ghost prev = out.deep_view();
            let ghost dv = done@;
            out.push(done);
            proof {
                assert(out.deep_view() =~~= prev + seq![dv]);
                assert(prev + (seq![dv] + pieces_from(s@.skip(i as int + 1), b, cur@)) =~= out
                    .deep_view() + pieces_from(s@.skip(i as int + 1), b, cur@));
            }
        } else {
            cur.push(s[i]);
        }
        i = i + 1;
    }
    proof {
        assert(s@.skip(i as int) =~= Seq::<u8>::empty());
    }
    let ghost prev = out.deep_view();
    let ghost dv = cur@;
    out.push(cur);
    proof {
        assert(out.deep_view() =~~= prev + seq![dv]);
        assert(split_all(s@, b) =~= out.deep_view());
    }
    out
}

/// The trimmed view of a byte string.
fn trim_exec(s: &[u8]) -> (r: &[u8])
    ensures
        r@ == trim_of(s@),
{
    let mut lo: usize = 0;
    proof {
        assert(s@.skip(0) =~= s@);
    }
    while lo < s.len() && (s[lo] == 32 || s[lo] == 9 || s[lo] == 13 || s[lo] == 10)
        invariant
            0 <= lo <= s@.len(),
            trim_front(s@) == trim_front(s@.skip(lo as int)),
        decreases s@.len() - lo,
    {
        proof {
            assert(s@.skip(lo as int).drop_first() =~= s@.skip(lo as int + 1));
            assert(s@.skip(lo as int)[0] == s@[lo as int]);
        }
        lo = lo + 1;
    }
    proof {
        if lo < s@.len() {
            assert(trim_front(s@.skip(lo as int)) == s@.skip(lo as int));
        } else {
            assert(s@.skip(lo as int) =~= Seq::<u8>::empty());
        }
    }
    let mut hi: usize = s.len();
    let ghost base = s@.skip(lo as int);
    while hi > lo && (s[hi - 1] == 32 || s[hi - 1] == 9 || s[hi - 1] == 13 || s[hi - 1] == 10)
        invariant
            lo <= hi <= s@.len(),
            base == s@.skip(lo as int),
            trim_front(s@) == base,
            trim_back(base) == trim_back(s@.subrange(lo as int, hi as int)),
        decreases hi,
    {
        proof {
            assert(s@.subrange(lo as int, hi as int).drop_last() =~= s@.subrange(
                lo as int,
                hi as int - 1,
            ));
            assert(s@.subrange(lo as int, hi as int).len() > 0);
            assert(s@.subrange(lo as int, hi as int)[hi - lo - 1] == s@[hi as int - 1]);
        }
        hi = hi - 1;
    }
    proof {
        if hi > lo {
            assert(s@.subrange(lo as int, hi as int)[hi - lo - 1] == s@[hi as int - 1]);
            assert(trim_back(s@.subrange(lo as int, hi as int)) == s@.subrange(
                lo as int,
                hi as int,
            ));
        } else {
            assert(s@.subrange(lo as int, hi as int) =~= Seq::<u8>::empty());
        }
    }
    let r = vstd::slice::slice_subrange(s, lo, hi);
    proof {
        assert(r@ =~= s@.subrange(lo as int, hi as int));
        assert(base =~= s@.subrange(lo as int, s@.len() as int));
    }
    r
}

/// Parses one draw item into its count and colour word.
pub fn parse_colour<'a>(colour: &'a [u8]) -> (r: Option<(u32, &'a [u8])>)
    ensures
        r is Some <==> colour_of(colour@) is Some,
        r matches Some(p) ==> Some((p.0 as int, p.1@)) == colour_of(colour@),
{
    let t = trim_exec(colour);
    let mut j: usize = 0;
    while j < t.len()
        invariant
            0 <= j <= t@.len(),
            t@ == trim_of(colour@),
            forall|k: int| 0 <= k < j ==> t@[k] != 32,
        decreases t@.len() - j,
    {
        if t[j] == 32 {
            proof {
                lemma_split_byte_at(t@, 32, j as int);
            }
            let num = vstd::slice::slice_subrange(t, 0, j);
            let word = vstd::slice::slice_subrange(t, j + 1, t.len());
            proof {
                assert(num@ =~= t@.take(j as int));
                assert(word@ =~= t@.skip(j as int + 1));
            }
            let v = match parse_u64(num) {
                Some(v) => v,
                None => {
                    return None;
                },
            };
            proof {
                crate::text::lemma_uint_val_nonneg(num@);
            }
            if v > u32::MAX as u64 {
                return None;
            }
            return Some((v as u32, word));
        }
        j = j + 1;
    }
    proof {
        lemma_split_byte_none(t@, 32);
    }
    None
}

/// Folds the comma-separated items of one draw group.
pub fn parse_colours(colours: &[u8]) -> (r: Option<Colours>)
    ensures
        r is Some <==> group_spec(colours@) is Some,
        r matches Some(c) ==> Some(cview(c)) == group_spec(colours@),
{
    let ps = split_all_exec(colours, 44);
    let ghost psv = split_all(colours@, 44);
    let mut acc = Colours { red: 0, green: 0, blue: 0 };
    let mut i: usize = 0;
    proof {
        assert(psv.skip(0) =~= psv);
    }
    while i < ps.len()
        invariant
            0 <= i <= ps@.len(),
            ps.deep_view() == psv,
            psv == split_all(colours@, 44),
            fold_colours(psv.skip(i as int), cview(acc)) == group_spec(colours@),
        decreases ps@.len() - i,
    {
        proof {
            assert(ps@[i as int].deep_view() =~= ps@[i as int]@);
            assert(psv[i as int] == ps@[i as int]@);
            assert(psv.skip(i as int).drop_first() =~= psv.skip(i as int + 1));
            assert(psv.skip(i as int)[0] == psv[i as int]);
        }
        let p = match parse_colour(ps[i].as_slice()) {
            Some(v) => v,
            None => {
                return None;
            },
        };
        let w = p.1;
        if w.len() == 3 && w[0] == 114 && w[1] == 101 && w[2] == 100 {
            proof {
                assert(w@ =~= red_word());
            }
            acc = Colours { red: p.0, ..acc };
        } else if w.len() == 5 && w[0] == 103 && w[1] == 114 && w[2] == 101 && w[3] == 101 && w[4]
            == 110 {
            proof {
                assert(w@ =~= green_word());
                assert(w@ != red_word());
            }
            acc = Colours { green: p.0, ..acc };
        } else if w.len() == 4 && w[0] == 98 && w[1] == 108 && w[2] == 117 && w[3] == 101 {
            proof {
                assert(w@ =~= blue_word());
                assert(w@ != red_word() && w@ != green_word());
            }
            acc = Colours { blue: p.0, ..acc };
        } else {
            proof {
                assert(w@ != red_word() && w@ != green_word() && w@ != blue_word());
            }
        }
        i = i + 1;
    }
    proof {
        assert(psv.skip(ps@.len() as int) =~= Seq::<Seq<u8>>::empty());
    }
    Some(acc)
}

/// Parses every draw group of one line.
pub fn parse_all_colours(all_colours: &[u8]) -> (r: Option<Vec<Colours>>)
    ensures
        r is Some <==> group_specs(split_all(all_colours@, 59)) is Some,
        r matches Some(v) ==> Some(cviews(v@)) == group_specs(split_all(all_colours@, 59)),
{
    let gs = split_all_exec(all_colours, 59);
    let ghost gsv = split_all(all_colours@, 59);
    let mut out: Vec<Colours> = Vec::new();
    let mut i: usize = 0;
    proof {
        assert(gsv.skip(0) =~= gsv);
        match group_specs(gsv) {
            Option::None => {},
            Option::Some(cs) => {
                assert(cviews(out@) + cs =~= cs);
            },
        }
    }
    while i < gs.len()
        invariant
            0 <= i <= gs@.len(),
            gs.deep_view() == gsv,
            gsv == split_all(all_colours@, 59),
            (match group_specs(gsv.skip(i as int)) {
                Option::None => Option::<Seq<(int, int, int)>>::None,
                Option::Some(cs) => Some(cviews(out@) + cs),
            }) == group_specs(gsv),
        decreases gs@.len() - i,
    {
        proof {
            assert(gs@[i as int].deep_view() =~= gs@[i as int]@);
            assert(gsv[i as int] == gs@[i as int]@);
            assert(gsv.skip(i as int).drop_first() =~= gsv.skip(i as int + 1));
            assert(gsv.skip(i as int)[0] == gsv[i as int]);
        }
        let c = match parse_colours(gs[i].as_slice()) {
            Some(v) => v,
            None => {
                return None;
            },
        };
        let ghost prev = cviews(out@);
        out.push(c);
        proof {
            assert(cviews(out@) =~= prev.push(cview(c)));
            match group_specs(gsv.skip(i as int + 1)) {
                Option::None => {},
                Option::Some(cs) => {
                    assert(prev + (seq![cview(c)] + cs) =~= prev.push(cview(c)) + cs);
                },
            }
        }
        i = i + 1;
    }
    proof {
        assert(gsv.skip(gs@.len() as int) =~= Seq::<Seq<u8>>::empty());
        assert(cviews(out@) + Seq::<(int, int, int)>::empty() =~= cviews(out@));
    }
    Some(out)
}

/// The componentwise maximum of the draws.
pub fn max_colours(colours: Vec<Colours>) -> (r: Colours)
    ensures
        cview(r) == max_fold(cviews(colours@), (0int, 0int, 0int)),
{
    let ghost cvs = cviews(colours@);
    let mut acc = Colours { red: 0, green: 0, blue: 0 };
    let mut i: usize = 0;
    proof {
        assert(cvs.skip(0) =~= cvs);
    }
    while i < colours.len()
        invariant
            0 <= i <= colours@.len(),
            cvs == cviews(colours@),
            max_fold(cvs.skip(i as int), cview(acc)) == max_fold(cvs, (0int, 0int, 0int)),
        decreases colours@.len() - i,
    {
        proof {
            assert(cvs.skip(i as int).drop_first() =~= cvs.skip(i as int + 1));
            assert(cvs.skip(i as int)[0] == cvs[i as int]);
        }
        let c = colours[i];
        acc = Colours {
            red: if acc.red >= c.red {
                acc.red
            } else {
                c.red
            },
            green: if acc.green >= c.green {
                acc.green
            } else {
                c.green
            },
            blue: if acc.blue >= c.blue {
                acc.blue
            } else {
                c.blue
            },
        };
        i = i + 1;
    }
    proof {
        assert(cvs.skip(colours@.len() as int) =~= Seq::<(int, int, int)>::empty());
    }
    acc
}

/// Parses the game number before the colon.
pub fn parse_game_number(number: &[u8]) -> (r: Option<u32>)
    ensures
        r is Some <==> game_num_of(number@) is Some,
        r matches Some(v) ==> Some(v as int) == game_num_of(number@),
{
    if number.len() < 5 || number[0] != 71 || number[1] != 97 || number[2] != 109 || number[3]
        != 101 || number[4] != 32 {
        return None;
    }
    let digits = vstd::slice::slice_subrange(number, 5, number.len());
    proof {
        assert(digits@ =~= number@.skip(5));
    }
    let v = match parse_u64(digits) {
        Some(v) => v,
        None => {
            return None;
        },
    };
    proof {
        crate::text::lemma_uint_val_nonneg(digits@);
    }
    if v > u32::MAX as u64 {
        return None;
    }
    Some(v as u32)
}

/// Parses one game line into its number and its draws.
pub fn parse_line(line: &[u8]) -> (r: Option<(u32, Vec<Colours>)>)
    ensures
        r is Some <==> game_spec(line@) is Some,
        r matches Some(p) ==> game_spec(line@) == Some(
            (p.0 as int, max_fold(cviews(p.1@), (0int, 0int, 0int))),
        ),
{
    let mut j: usize = 0;
    while j < line.len()
        invariant
            0 <= j <= line@.len(),
            forall|k: int| 0 <= k < j ==> line@[k] != 58,
        decreases line@.len() - j,
    {
        if line[j] == 58 {
            proof {
                lemma_split_byte_at(line@, 58, j as int);
            }
            let head = vstd::slice::slice_subrange(line, 0, j);
            let draws = vstd::slice::slice_subrange(line, j + 1, line.len());
            proof {
                assert(head@ =~= line@.take(j as int));
                assert(draws@ =~= line@.skip(j as int + 1));
            }
            let n = match parse_game_number(head) {
                Some(v) => v,
                None => {
                    return None;
                },
            };
            let cs = match parse_all_colours(draws) {
                Some(v) => v,
                None => {
                    return None;
                },
            };
            return Some((n, cs));
        }
        j = j + 1;
    }
    proof {
        lemma_split_byte_none(line@, 58);
    }
    None
}

/// The sum of the numbers of the games a `12 red, 13 green, 14 blue`
/// inventory can supply; nothing when a line is malformed or the sum leaves
/// `u32`.
pub fn part_one(input: &str) -> (r: Option<u32>)
    ensures
        r is Some <==> (possible_sum(lines_of(input.spec_bytes())) is Some && possible_sum(
            lines_of(input.spec_bytes()),
        )->0 <= u32::MAX),
        r matches Some(v) ==> Some(v as int) == possible_sum(lines_of(input.spec_bytes())),
{
    let bytes = input.as_bytes();
    let ls = lines(bytes);
    let ghost lv = lines_of(input.spec_bytes());
    let mut total: u128 = 0;
    let mut i: usize = 0;
    proof {
        assert(lv.skip(0) =~= lv);
    }
    while i < ls.len()
        invariant
            0 <= i <= ls@.len(),
            ls.deep_view() == lv,
            lv == lines_of(input.spec_bytes()),
            total as int <= (i as int) * (u32::MAX as int),
            (match possible_sum(lv.skip(i as int)) {
                Option::None => Option::<int>::None,
                Option::Some(t) => Some(total as int + t),
            }) == possible_sum(lv),
        decreases ls@.len() - i,
    {
        proof {
            assert(ls@[i as int].deep_view() =~= ls@[i as int]@);
            assert(lv[i as int] == ls@[i as int]@);
            assert(lv.skip(i as int).drop_first() =~= lv.skip(i as int + 1));
            assert(lv.skip(i as int)[0] == lv[i as int]);
        }
        let p = match parse_line(ls[i].as_slice()) {
            Some(v) => v,
            None => {
                return None;
            },
        };
        let maxs = max_colours(p.1);
        let real_colours = Colours { red: 12, green: 13, blue: 14 };
        if game_is_possible(&maxs, &real_colours) {
            total = total + p.0 as u128;
        }
        i = i + 1;
    }
    proof {
        assert(lv.skip(ls@.len() as int) =~= Seq::<Seq<u8>>::empty());
    }
    if total > u32::MAX as u128 {
        return None;
    }
    Some(total as u32)
}

/// The sum of the games' powers: the product of the componentwise maxima of
/// each game's draws; nothing when a line is malformed, a power leaves
/// `u32`, or the sum leaves `u32`.
pub fn part_two(input: &str) -> (r: Option<u32>)
    ensures
        r is Some <==> (power_sum(lines_of(input.spec_bytes())) is Some && power_sum(
            lines_of(input.spec_bytes()),
        )->0 <= u32::MAX),
        r matches Some(v) ==> Some(v as int) == power_sum(lines_of(input.spec_bytes())),
{
    let bytes = input.as_bytes();
    let ls = lines(bytes);
    let ghost lv = lines_of(input.spec_bytes());
    let mut total: u128 = 0;
    let mut i: usize = 0;
    proof {
        assert(lv.skip(0) =~= lv);
    }
    while i < ls.len()
        invariant
            0 <= i <= ls@.len(),
            ls.deep_view() == lv,
            lv == lines_of(input.spec_bytes()),
            total as int <= (i as int) * (u32::MAX as int),
            (match power_sum(lv.skip(i as int)) {
                Option::None => Option::<int>::None,
                Option::Some(t) => Some(total as int + t),
            }) == power_sum(lv),
        decreases ls@.len() - i,
    {
        proof {
            assert(ls@[i as int].deep_view() =~= ls@[i as int]@);
            assert(lv[i as int] == ls@[i as int]@);
            assert(lv.skip(i as int).drop_first() =~= lv.skip(i as int + 1));
            assert(lv.skip(i as int)[0] == lv[i as int]);
        }
        let p = match parse_line(ls[i].as_slice()) {
            Some(v) => v,
            None => {
                return None;
            },
        };
        let maxs = max_colours(p.1);
        proof {
            assert((maxs.red as int) * (maxs.green as int) <= 0xffff_ffffu64 * 0xffff_ffffu64)
                by (nonlinear_arith)
                requires
                    0 <= maxs.red <= 0xffff_ffffu64,
                    0 <= maxs.green <= 0xffff_ffffu64,
            ;
        }
        let rg: u64 = maxs.red as u64 * maxs.green as u64;
        if rg > u32::MAX as u64 {
            return None;
        }
        proof {
            assert((rg as int) * (maxs.blue as int) <= 0xffff_ffffu64 * 0xffff_ffffu64)
                by (nonlinear_arith)
                requires
                    0 <= rg <= 0xffff_ffffu64,
                    0 <= maxs.blue <= 0xffff_ffffu64,
            ;
        }
        let rgb: u64 = rg * maxs.blue as u64;
        if rgb > u32::MAX as u64 {
            return None;
        }
        total = total + rgb as u128;
        i = i + 1;
    }
    proof {
        assert(lv.skip(ls@.len() as int) =~= Seq::<Seq<u8>>::empty());
    }
    if total > u32::MAX as u128 {
        return None;
    }
    Some(total as u32)
}

} // verus!
