//! Byte-level text utilities shared by all solvers: line splitting,
//! whitespace tokenization, and unsigned/signed integer parsing, each with an
//! exact specification over `Seq<u8>`.

use vstd::prelude::*;

verus! {

/// Newline byte.
pub const NL: u8 = 10;

/// Carriage-return byte.
pub const CR: u8 = 13;

pub open spec fn is_space(b: u8) -> bool {
    b == 32 || b == 9 || b == 13 || b == 10
}

pub open spec fn is_digit(b: u8) -> bool {
    48 <= b && b <= 57
}

/// A line with a trailing carriage return dropped, as `str::lines` does.
pub open spec fn strip_cr(l: Seq<u8>) -> Seq<u8> {
    if l.len() > 0 && l[l.len() - 1] == CR {
        l.drop_last()
    } else {
        l
    }
}

/// The lines of `s` continuing a partial line `cur`: text is split at every
/// newline byte, and a final line without a trailing newline still counts.
pub open spec fn lines_from(s: Seq<u8>, cur: Seq<u8>) -> Seq<Seq<u8>>
    decreases s.len(),
{
    if s.len() == 0 {
        if cur.len() == 0 {
            seq![]
        } else {
            seq![strip_cr(cur)]
        }
    } else if s[0] == NL {
        seq![strip_cr(cur)] + lines_from(s.drop_first(), seq![])
    } else {
        lines_from(s.drop_first(), cur.push(s[0]))
    }
}

/// The lines of `s`, split at newline bytes, with trailing carriage returns
/// removed; a trailing newline does not produce an extra empty line.
pub open spec fn lines_of(s: Seq<u8>) -> Seq<Seq<u8>> {
    lines_from(s, seq![])
}

/// The whitespace-separated tokens of `s` continuing a partial token `cur`.
pub open spec fn tokens_from(s: Seq<u8>, cur: Seq<u8>) -> Seq<Seq<u8>>
    decreases s.len(),
{
    if s.len() == 0 {
        if cur.len() == 0 {
            seq![]
        } else {
            seq![cur]
        }
    } else if is_space(s[0]) {
        if cur.len() == 0 {
            tokens_from(s.drop_first(), seq![])
        } else {
            seq![cur] + tokens_from(s.drop_first(), seq![])
        }
    } else {
        tokens_from(s.drop_first(), cur.push(s[0]))
    }
}

/// The maximal runs of non-whitespace bytes in `s`, in order.
pub open spec fn tokens_of(s: Seq<u8>) -> Seq<Seq<u8>> {
    tokens_from(s, seq![])
}

/// Whether `t` is a non-empty, all-digit token.
pub open spec fn is_digits(t: Seq<u8>) -> bool {
    t.len() > 0 && forall|i: int| 0 <= i < t.len() ==> is_digit(t[i])
}

/// The numeric value of a digit string, most significant digit first.
pub open spec fn uint_val(t: Seq<u8>) -> int
    decreases t.len(),
{
    if t.len() == 0 {
        0
    } else {
        uint_val(t.drop_last()) * 10 + (t.last() - 48)
    }
}

/// Whether `t` is an optionally `-`-signed digit string.
pub open spec fn is_int_token(t: Seq<u8>) -> bool {
    if t.len() > 0 && t[0] == 45 {
        is_digits(t.drop_first())
    } else {
        is_digits(t)
    }
}

/// The numeric value of an optionally signed digit string.
pub open spec fn sint_val(t: Seq<u8>) -> int {
    if t.len() > 0 && t[0] == 45 {
        -uint_val(t.drop_first())
    } else {
        uint_val(t)
    }
}

/// The value of a digit string never falls when more digits follow.
pub proof fn lemma_uint_val_prefix(t: Seq<u8>, k: int)
    requires
        0 <= k <= t.len(),
        forall|i: int| 0 <= i < t.len() ==> is_digit(t[i]),
    ensures
        0 <= uint_val(t.take(k)) <= uint_val(t),
    decreases t.len() - k,
{
    if k == t.len() {
        assert(t.take(k) =~= t);
        lemma_uint_val_nonneg(t);
    } else {
        lemma_uint_val_prefix(t, k + 1);
        assert(t.take(k + 1).drop_last() =~= t.take(k));
        assert(uint_val(t.take(k + 1)) == uint_val(t.take(k)) * 10 + (t[k] - 48));
        lemma_uint_val_nonneg(t.take(k));
    }
}

pub proof fn lemma_uint_val_nonneg(t: Seq<u8>)
    requires
        forall|i: int| 0 <= i < t.len() ==> is_digit(t[i]),
    ensures
        uint_val(t) >= 0,
    decreases t.len(),
{
    if t.len() > 0 {
        assert(forall|i: int| 0 <= i < t.drop_last().len() ==> is_digit(t.drop_last()[i]));
        lemma_uint_val_nonneg(t.drop_last());
    }
}

/// Splits a byte string into its lines.
pub fn lines(s: &[u8]) -> (out: Vec<Vec<u8>>)
    ensures
        out.deep_view() == lines_of(s@),
{
    let mut out: Vec<Vec<u8>> = Vec::new();
    let mut cur: Vec<u8> = Vec::new();
    let mut i: usize = 0;
    proof {
        assert(out.deep_view() =~~= Seq::<Seq<u8>>::empty());
        assert(s@.skip(0) =~= s@);
        assert(Seq::<Seq<u8>>::empty() + lines_from(s@, cur@) =~= lines_from(s@, cur@));
    }
    while i < s.len()
        invariant
            0 <= i <= s.len(),
            lines_of(s@) == out.deep_view() + lines_from(s@.skip(i as int), cur@),
        decreases s.len() - i,
    {
        let b = s[i];
        proof {
            assert(s@.skip(i as int).drop_first() =~= s@.skip(i as int + 1));
            assert(s@.skip(i as int)[0] == s@[i as int]);
        }
        if b == NL {
            let done = cur;
            cur = Vec::new();
            let ghost prev = out.deep_view();
            let stripped = strip_line(done);
            out.push(stripped);
            proof {
                assert(out.deep_view() =~~= prev + seq![stripped.view()]);
                assert(prev + (seq![stripped.view()] + lines_from(s@.skip(i as int + 1), cur@))
                    =~= out.deep_view() + lines_from(s@.skip(i as int + 1), cur@));
            }
        } else {
            cur.push(b);
        }
        i = i + 1;
    }
    proof {
        assert(s@.skip(i as int) =~= Seq::<u8>::empty());
    }
    if cur.len() > 0 {
        let ghost prev = out.deep_view();
        let stripped = strip_line(cur);
        out.push(stripped);
        proof {
            assert(out.deep_view() =~~= prev + seq![stripped.view()]);
            assert(lines_of(s@) =~= out.deep_view());
        }
    } else {
        proof {
            assert(lines_of(s@) =~= out.deep_view() + Seq::<Seq<u8>>::empty());
        }
    }
    out
}

/// Removes a trailing carriage return from one line, if present.
fn strip_line(mut l: Vec<u8>) -> (out: Vec<u8>)
    ensures
        out@ == strip_cr(l@),
{
    if l.len() > 0 && l[l.len() - 1] == CR {
        l.pop();
        l
    } else {
        l
    }
}

/// Splits a byte string into whitespace-separated tokens.
pub fn tokens(s: &[u8]) -> (out: Vec<Vec<u8>>)
    ensures
        out.deep_view() == tokens_of(s@),
{
    let mut out: Vec<Vec<u8>> = Vec::new();
    let mut cur: Vec<u8> = Vec::new();
    let mut i: usize = 0;
    proof {
        assert(out.deep_view() =~~= Seq::<Seq<u8>>::empty());
        assert(s@.skip(0) =~= s@);
        assert(Seq::<Seq<u8>>::empty() + tokens_from(s@, cur@) =~= tokens_from(s@, cur@));
    }
    while i < s.len()
        invariant
            0 <= i <= s.len(),
            tokens_of(s@) == out.deep_view() + tokens_from(s@.skip(i as int), cur@),
        decreases s.len() - i,
    {
        let b = s[i];
        proof {
            assert(s@.skip(i as int).drop_first() =~= s@.skip(i as int + 1));
            assert(s@.skip(i as int)[0] == s@[i as int]);
        }
        if b == 32 || b == 9 || b == 13 || b == 10 {
            if cur.len() > 0 {
                let done = cur;
                cur = Vec::new();
                let ghost prev = out.deep_view();
                let ghost dv = done@;
                out.push(done);
                proof {
                    assert(out.deep_view() =~~= prev + seq![dv]);
                    assert(prev + (seq![dv] + tokens_from(s@.skip(i as int + 1), cur@))
                        =~= out.deep_view() + tokens_from(s@.skip(i as int + 1), cur@));
                }
            } else {
                proof {
                    assert(cur@ =~= Seq::<u8>::empty());
                }
            }
        } else {
            cur.push(b);
        }
        i = i + 1;
    }
    proof {
        assert(s@.skip(i as int) =~= Seq::<u8>::empty());
    }
    if cur.len() > 0 {
        let ghost prev = out.deep_view();
        let ghost dv = cur@;
        out.push(cur);
        proof {
            assert(out.deep_view() =~~= prev + seq![dv]);
            assert(tokens_of(s@) =~= out.deep_view());
        }
    } else {
        proof {
            assert(tokens_of(s@) =~= out.deep_view() + Seq::<Seq<u8>>::empty());
        }
    }
    out
}

/// Parses a non-empty digit string as a `u64`; rejects empty or non-digit
/// tokens and values above `u64::MAX`.
pub fn parse_u64(t: &[u8]) -> (r: Option<u64>)
    ensures
        r == (if is_digits(t@) && uint_val(t@) <= u64::MAX {
            Some(uint_val(t@) as u64)
        } else {
            None::<u64>
        }),
{
    if t.len() == 0 {
        return None;
    }
    let mut acc: u64 = 0;
    let mut i: usize = 0;
    while i < t.len()
        invariant
            0 <= i <= t.len(),
            forall|k: int| 0 <= k < i ==> is_digit(t@[k]),
            acc == uint_val(t@.take(i as int)),
        decreases t.len() - i,
    {
        let b = t[i];
        if !(48 <= b && b <= 57) {
            return None;
        }
        let d = (b - 48) as u64;
        proof {
            assert(t@.take(i as int + 1).drop_last() =~= t@.take(i as int));
            assert(uint_val(t@.take(i as int + 1)) == acc * 10 + d);
        }
        if acc > (u64::MAX - d) / 10 {
            proof {
                if is_digits(t@) {
                    lemma_uint_val_prefix(t@, i as int + 1);
                }
            }
            return None;
        }
        acc = acc * 10 + d;
        i = i + 1;
    }
    proof {
        assert(t@.take(i as int) =~= t@);
    }
    Some(acc)
}

/// Parses an optionally `-`-signed digit string as an `i64`; rejects tokens
/// that are not signed digit strings and values outside the `i64` range.
pub fn parse_i64(t: &[u8]) -> (r: Option<i64>)
    ensures
        r == (if is_int_token(t@) && i64::MIN <= sint_val(t@) <= i64::MAX {
            Some(sint_val(t@) as i64)
        } else {
            None::<i64>
        }),
{
    if t.len() > 0 && t[0] == 45 {
        let rest = slice_tail(t);
        proof {
            assert(rest@ =~= t@.drop_first());
        }
        match parse_u64(rest) {
            Some(v) => {
                proof {
                    lemma_uint_val_nonneg(rest@);
                    assert(v as int == uint_val(t@.drop_first()));
                }
                if v <= 0x8000_0000_0000_0000u64 {
                    let w: i128 = -(v as i128);
                    proof {
                        assert(i64::MIN <= w <= i64::MAX);
                        assert(w == sint_val(t@));
                        assert(is_int_token(t@));
                        assert(Some(w as i64) == Some(sint_val(t@) as i64));
                    }
                    Some(w as i64)
                } else {
                    proof {
                        assert(sint_val(t@) < i64::MIN);
                    }
                    None
                }
            },
            None => {
                proof {
                    assert(!(is_int_token(t@) && i64::MIN <= sint_val(t@) <= i64::MAX));
                }
                None
            },
        }
    } else {
        match parse_u64(t) {
            Some(v) => {
                proof {
                    lemma_uint_val_nonneg(t@);
                    assert(sint_val(t@) == uint_val(t@));
                }
                if v <= i64::MAX as u64 {
                    proof {
                        assert(Some(v as i64) == Some(sint_val(t@) as i64));
                    }
                    Some(v as i64)
                } else {
                    proof {
                        assert(!(i64::MIN <= sint_val(t@) <= i64::MAX));
                    }
                    None
                }
            },
            None => {
                proof {
                    assert(!(is_int_token(t@) && i64::MIN <= sint_val(t@) <= i64::MAX));
                }
                None
            },
        }
    }
}

/// Whether every token of `s` is a digit string whose value fits `u64`.
pub open spec fn uint_tokens_ok(s: Seq<u8>) -> bool {
    forall|i: int|
        0 <= i < tokens_of(s).len() ==> is_digits(#[trigger] tokens_of(s)[i]) && uint_val(
            tokens_of(s)[i],
        ) <= u64::MAX
}

/// The values of the tokens of `s`.
pub open spec fn uint_token_vals(s: Seq<u8>) -> Seq<u64> {
    tokens_of(s).map_values(|t: Seq<u8>| uint_val(t) as u64)
}

/// Parses every whitespace-separated token of `s` as a `u64`.
pub fn parse_uint_tokens(s: &[u8]) -> (r: Option<Vec<u64>>)
    ensures
        r is Some <==> uint_tokens_ok(s@),
        r matches Some(v) ==> v@ == uint_token_vals(s@),
{
    let ts = tokens(s);
    let ghost tso = tokens_of(s@);
    let mut out: Vec<u64> = Vec::new();
    let mut i: usize = 0;
    while i < ts.len()
        invariant
            0 <= i <= ts@.len(),
            ts.deep_view() == tso,
            tso == tokens_of(s@),
            forall|k: int|
                0 <= k < i ==> is_digits(#[trigger] tso[k]) && uint_val(tso[k]) <= u64::MAX,
            out@ == uint_token_vals(s@).take(i as int),
        decreases ts.len() - i,
    {
        proof {
            assert(ts@[i as int].deep_view() =~= ts@[i as int]@);
            assert(tso[i as int] == ts@[i as int]@);
        }
        match parse_u64(ts[i].as_slice()) {
            Some(v) => {
                out.push(v);
                proof {
                    assert(uint_token_vals(s@)[i as int] == uint_val(tso[i as int]) as u64);
                    assert(uint_token_vals(s@).take(i as int + 1) =~= uint_token_vals(
                        s@,
                    ).take(i as int).push(v));
                }
            },
            None => {
                proof {
                    assert(!(is_digits(tso[i as int]) && uint_val(tso[i as int]) <= u64::MAX));
                }
                return None;
            },
        }
        i = i + 1;
    }
    proof {
        assert(uint_token_vals(s@).take(tso.len() as int) =~= uint_token_vals(s@));
    }
    Some(out)
}

/// The concatenation of a list of byte strings, in order.
pub open spec fn concat_of(ts: Seq<Seq<u8>>) -> Seq<u8>
    decreases ts.len(),
{
    if ts.len() == 0 {
        Seq::<u8>::empty()
    } else {
        ts[0] + concat_of(ts.drop_first())
    }
}

/// What follows the first colon of `s`, if any.
pub open spec fn after_colon(s: Seq<u8>) -> Option<Seq<u8>>
    decreases s.len(),
{
    if s.len() == 0 {
        Option::None
    } else if s[0] == 58 {
        Some(s.drop_first())
    } else {
        after_colon(s.drop_first())
    }
}

/// Returns the bytes after the first colon of `s`, if any.
pub fn split_colon(s: &[u8]) -> (r: Option<&[u8]>)
    ensures
        r is Some <==> after_colon(s@) is Some,
        r matches Some(v) ==> Some(v@) == after_colon(s@),
{
    let mut i: usize = 0;
    proof {
        assert(s@.skip(0) =~= s@);
    }
    while i < s.len()
        invariant
            0 <= i <= s@.len(),
            after_colon(s@) == after_colon(s@.skip(i as int)),
        decreases s.len() - i,
    {
        proof {
            assert(s@.skip(i as int).drop_first() =~= s@.skip(i as int + 1));
            assert(s@.skip(i as int)[0] == s@[i as int]);
        }
        if s[i] == 58 {
            let r = vstd::slice::slice_subrange(s, i + 1, s.len());
            proof {
                assert(r@ =~= s@.skip(i as int).drop_first());
            }
            return Some(r);
        }
        i = i + 1;
    }
    proof {
        assert(s@.skip(i as int) =~= Seq::<u8>::empty());
    }
    None
}

/// The bytes of a slice after its first element.
fn slice_tail(t: &[u8]) -> (r: &[u8])
    requires
        t@.len() > 0,
    ensures
        r@ == t@.skip(1),
{
    vstd::slice::slice_subrange(t, 1, t.len())
}

} // verus!
