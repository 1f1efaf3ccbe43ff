//! Calibration recovery: each line contributes a two-digit value built from
//! its first and last digit, read either as digit characters alone or also
//! as spelled-out digit words.

use crate::text::is_digit;
use crate::text::lines;
use crate::text::lines_of;
use vstd::prelude::*;
use vstd::string::StringSliceAdditionalSpecFns;

verus! {

/// The digit spelled out starting at position `i`, if any.
pub open spec fn word_digit_at(s: Seq<u8>, i: int) -> Option<u32> {
    if i + 3 <= s.len() && s[i] == 111 && s[i + 1] == 110 && s[i + 2] == 101 {
        Some(1u32)  // one
    } else if i + 3 <= s.len() && s[i] == 116 && s[i + 1] == 119 && s[i + 2] == 111 {
        Some(2u32)  // two
    } else if i + 5 <= s.len() && s[i] == 116 && s[i + 1] == 104 && s[i + 2] == 114 && s[i + 3]
        == 101 && s[i + 4] == 101 {
        Some(3u32)  // three
    } else if i + 4 <= s.len() && s[i] == 102 && s[i + 1] == 111 && s[i + 2] == 117 && s[i + 3]
        == 114 {
        Some(4u32)  // four
    } else if i + 4 <= s.len() && s[i] == 102 && s[i + 1] == 105 && s[i + 2] == 118 && s[i + 3]
        == 101 {
        Some(5u32)  // five
    } else if i + 3 <= s.len() && s[i] == 115 && s[i + 1] == 105 && s[i + 2] == 120 {
        Some(6u32)  // six
    } else if i + 5 <= s.len() && s[i] == 115 && s[i + 1] == 101 && s[i + 2] == 118 && s[i + 3]
        == 101 && s[i + 4] == 110 {
        Some(7u32)  // seven
    } else if i + 5 <= s.len() && s[i] == 101 && s[i + 1] == 105 && s[i + 2] == 103 && s[i + 3]
        == 104 && s[i + 4] == 116 {
        Some(8u32)  // eight
    } else if i + 4 <= s.len() && s[i] == 110 && s[i + 1] == 105 && s[i + 2] == 110 && s[i + 3]
        == 101 {
        Some(9u32)  // nine
    } else {
        Option::None
    }
}

/// The digit values of the digit characters of `s` from position `i` on.
pub open spec fn digits_plain(s: Seq<u8>, i: int) -> Seq<u32>
    decreases s.len() - i,
{
    if i < 0 || i >= s.len() {
        Seq::<u32>::empty()
    } else if is_digit(s[i]) {
        seq![(s[i] - 48) as u32] + digits_plain(s, i + 1)
    } else {
        digits_plain(s, i + 1)
    }
}

/// The digit values of `s` from position `i` on, reading digit characters
/// and spelled-out digit words, in position order.
pub open spec fn digits_words(s: Seq<u8>, i: int) -> Seq<u32>
    decreases s.len() - i,
{
    if i < 0 || i >= s.len() {
        Seq::<u32>::empty()
    } else if is_digit(s[i]) {
        seq![(s[i] - 48) as u32] + digits_words(s, i + 1)
    } else {
        match word_digit_at(s, i) {
            Option::Some(d) => seq![d] + digits_words(s, i + 1),
            Option::None => digits_words(s, i + 1),
        }
    }
}

/// The calibration value of a line's digits: ten times the first plus the
/// last.
pub open spec fn cal_of(ds: Seq<u32>) -> int {
    ds[0] * 10 + ds.last()
}

/// The digit characters of one line, in order.
pub fn get_digits(line: &[u8]) -> (r: Vec<u32>)
    ensures
        r@ == digits_plain(line@, 0),
        forall|k: int| 0 <= k < r@.len() ==> #[trigger] r@[k] <= 9,
{
    let mut out: Vec<u32> = Vec::new();
    let mut i: usize = 0;
    proof {
        assert(Seq::<u32>::empty() + digits_plain(line@, 0) =~= digits_plain(line@, 0));
    }
    while i < line.len()
        invariant
            0 <= i <= line@.len(),
            digits_plain(line@, 0) == out@ + digits_plain(line@, i as int),
            forall|k: int| 0 <= k < out@.len() ==> #[trigger] out@[k] <= 9,
        decreases line.len() - i,
    {
        let b = line[i];
        if 48 <= b && b <= 57 {
            let ghost prev = out@;
            out.push((b - 48) as u32);
            proof {
                assert(prev + (seq![(b - 48) as u32] + digits_plain(line@, i as int + 1))
                    =~= out@ + digits_plain(line@, i as int + 1));
            }
        }
        i = i + 1;
    }
    proof {
        assert(out@ + Seq::<u32>::empty() =~= out@);
    }
    out
}

/// The digit characters and digit words of one line, in position order.
pub fn get_digits_with_words(line: &[u8]) -> (r: Vec<u32>)
    ensures
        r@ == digits_words(line@, 0),
        forall|k: int| 0 <= k < r@.len() ==> #[trigger] r@[k] <= 9,
{
    let mut out: Vec<u32> = Vec::new();
    let mut i: usize = 0;
    let n = line.len();
    proof {
        assert(Seq::<u32>::empty() + digits_words(line@, 0) =~= digits_words(line@, 0));
    }
    while i < n
        invariant
            n == line@.len(),
            0 <= i <= n,
            digits_words(line@, 0) == out@ + digits_words(line@, i as int),
            forall|k: int| 0 <= k < out@.len() ==> #[trigger] out@[k] <= 9,
        decreases n - i,
    {
        let b = line[i];
        let d: u32 = if 48 <= b && b <= 57 {
            (b - 48) as u32
        } else if n - i >= 3 && line[i] == 111 && line[i + 1] == 110 && line[i + 2] == 101 {
            1
        } else if n - i >= 3 && line[i] == 116 && line[i + 1] == 119 && line[i + 2] == 111 {
            2
        } else if n - i >= 5 && line[i] == 116 && line[i + 1] == 104 && line[i + 2] == 114
            && line[i + 3] == 101 && line[i + 4] == 101 {
            3
        } else if n - i >= 4 && line[i] == 102 && line[i + 1] == 111 && line[i + 2] == 117
            && line[i + 3] == 114 {
            4
        } else if n - i >= 4 && line[i] == 102 && line[i + 1] == 105 && line[i + 2] == 118
            && line[i + 3] == 101 {
            5
        } else if n - i >= 3 && line[i] == 115 && line[i + 1] == 105 && line[i + 2] == 120 {
            6
        } else if n - i >= 5 && line[i] == 115 && line[i + 1] == 101 && line[i + 2] == 118
            && line[i + 3] == 101 && line[i + 4] == 110 {
            7
        } else if n - i >= 5 && line[i] == 101 && line[i + 1] == 105 && line[i + 2] == 103
            && line[i + 3] == 104 && line[i + 4] == 116 {
            8
        } else if n - i >= 4 && line[i] == 110 && line[i + 1] == 105 && line[i + 2] == 110
            && line[i + 3] == 101 {
            9
        } else {
            10
        };
        if d <= 9 {
            let ghost prev = out@;
            out.push(d);
            proof {
                assert(prev + (seq![d] + digits_words(line@, i as int + 1)) =~= out@
                    + digits_words(line@, i as int + 1));
            }
        }
        i = i + 1;
    }
    proof {
        assert(out@ + Seq::<u32>::empty() =~= out@);
    }
    out
}

/// The calibration value of one line's digits.
pub fn get_calibration(digits: Vec<u32>) -> (r: u32)
    requires
        digits@.len() >= 1,
        digits@[0] <= 9,
        digits@.last() <= 9,
    ensures
        r as int == cal_of(digits@),
{
    let first = digits[0];
    let last = digits[digits.len() - 1];
    first * 10 + last
}

/// The sum of calibration values when only digit characters count; nothing
/// when a line has no digit.
pub open spec fn plain_sum(ls: Seq<Seq<u8>>) -> Option<int>
    decreases ls.len(),
{
    if ls.len() == 0 {
        Some(0int)
    } else {
        let ds = digits_plain(ls[0], 0);
        if ds.len() == 0 {
            Option::None
        } else {
            match plain_sum(ls.drop_first()) {
                Option::None => Option::None,
                Option::Some(t) => Some(cal_of(ds) + t),
            }
        }
    }
}

/// The sum of calibration values when digit words count too.
pub open spec fn words_sum(ls: Seq<Seq<u8>>) -> Option<int>
    decreases ls.len(),
{
    if ls.len() == 0 {
        Some(0int)
    } else {
        let ds = digits_words(ls[0], 0);
        if ds.len() == 0 {
            Option::None
        } else {
            match words_sum(ls.drop_first()) {
                Option::None => Option::None,
                Option::Some(t) => Some(cal_of(ds) + t),
            }
        }
    }
}

/// The sum over all lines of the calibration value read from digit
/// characters; nothing when a line holds no digit or the sum leaves `u32`.
pub fn part_one(input: &str) -> (r: Option<u32>)
    ensures
        r is Some <==> (plain_sum(lines_of(input.spec_bytes())) is Some && plain_sum(
            lines_of(input.spec_bytes()),
        )->0 <= u32::MAX),
        r matches Some(v) ==> Some(v as int) == plain_sum(lines_of(input.spec_bytes())),
{
    let bytes = input.as_bytes();
    let ls = lines(bytes);
    let ghost lv = lines_of(input.spec_bytes());
    let ghost full = plain_sum(lv);
    let mut total: u128 = 0;
    let mut i: usize = 0;
    proof {
        assert(lv.skip(0) =~= lv);
    }
    while i < ls.len()
        invariant
            0 <= i <= ls@.len(),
            ls.deep_view() == lv,
            lv == lines_of(input.spec_bytes()),
            full == plain_sum(lv),
            total as int <= (i as int) * 99,
            (match plain_sum(lv.skip(i as int)) {
                Option::None => Option::<int>::None,
                Option::Some(t) => Some(total as int + t),
            }) == full,
        decreases ls.len() - i,
    {
        proof {
            assert(ls@[i as int].deep_view() =~= ls@[i as int]@);
            assert(lv[i as int] == ls@[i as int]@);
            assert(lv.skip(i as int).drop_first() =~= lv.skip(i as int + 1));
            assert(lv.skip(i as int)[0] == lv[i as int]);
        }
        let ds = get_digits(ls[i].as_slice());
        if ds.len() == 0 {
            return None;
        }
        let c = get_calibration(ds);
        total = total + c as u128;
        i = i + 1;
    }
    proof {
        assert(lv.skip(ls@.len() as int) =~= Seq::<Seq<u8>>::empty());
    }
    if total > u32::MAX as u128 {
        return None;
    }
    Some(total as u32)
}

/// The sum over all lines of the calibration value read from digit
/// characters and digit words; nothing when a line holds no digit or the sum
/// leaves `u32`.
pub fn part_two(input: &str) -> (r: Option<u32>)
    ensures
        r is Some <==> (words_sum(lines_of(input.spec_bytes())) is Some && words_sum(
            lines_of(input.spec_bytes()),
        )->0 <= u32::MAX),
        r matches Some(v) ==> Some(v as int) == words_sum(lines_of(input.spec_bytes())),
{
    let bytes = input.as_bytes();
    let ls = lines(bytes);
    let ghost lv = lines_of(input.spec_bytes());
    let ghost full = words_sum(lv);
    let mut total: u128 = 0;
    let mut i: usize = 0;
    proof {
        assert(lv.skip(0) =~= lv);
    }
    while i < ls.len()
        invariant
            0 <= i <= ls@.len(),
            ls.deep_view() == lv,
            lv == lines_of(input.spec_bytes()),
            full == words_sum(lv),
            total as int <= (i as int) * 99,
            (match words_sum(lv.skip(i as int)) {
                Option::None => Option::<int>::None,
                Option::Some(t) => Some(total as int + t),
            }) == full,
        decreases ls.len() - i,
    {
        proof {
            assert(ls@[i as int].deep_view() =~= ls@[i as int]@);
            assert(lv[i as int] == ls@[i as int]@);
            assert(lv.skip(i as int).drop_first() =~= lv.skip(i as int + 1));
            assert(lv.skip(i as int)[0] == lv[i as int]);
        }
        let ds = get_digits_with_words(ls[i].as_slice());
        if ds.len() == 0 {
            return None;
        }
        let c = get_calibration(ds);
        total = total + c as u128;
        i = i + 1;
    }
    proof {
        assert(lv.skip(ls@.len() as int) =~= Seq::<Seq<u8>>::empty());
    }
    if total > u32::MAX as u128 {
        return None;
    }
    Some(total as u32)
}

} // verus!
