//! The almanac: parsing the seed line and the mapping-stage blocks, and the
//! two resolution modes over the parsed pipeline.
//!
//! Mode A treats every seed number as its own length-one range; mode B
//! consumes the seed numbers two at a time as `(start, length)` ranges.  Both
//! resolve through the same pipeline by range splitting and report the
//! smallest reachable final identifier.

use crate::ranges::IdentifierRange;
use crate::ranges::MappingRange;
use crate::ranges::MappingStage;
use crate::ranges::range_wf;
use crate::ranges::ranges_wf;
use crate::ranges::rule_wf;
use crate::ranges::stage_wf;
use crate::ranges::sum_lens;
use crate::resolver::is_min_start;
use crate::resolver::lemma_resolve_semantics;
use crate::resolver::minimum;
use crate::resolver::pipeline_wf;
use crate::resolver::resolve;
use crate::resolver::resolve_spec;
use crate::resolver::stage_views;
use crate::text::is_digits;
use crate::text::lines;
use crate::text::lines_of;
use crate::text::parse_u64;
use crate::text::lemma_uint_val_nonneg;
use crate::text::tokens;
use crate::text::tokens_of;
use crate::text::uint_val;
use vstd::prelude::*;
use vstd::string::StringSliceAdditionalSpecFns;

verus! {

/// One distinguished kind per parse failure site; any failure aborts the
/// whole parse with no partial result.
#[derive(Clone, Copy, PartialEq, Eq, Structural, Debug)]
pub enum ParseError {
    /// The input has no first line to read seeds from.
    MissingSeedsLine,
    /// The first line does not begin with the seeds label.
    MalformedSeedsLine,
    /// A field that must be an unsigned 64-bit integer is not one.
    MalformedInteger,
    /// The line after the seeds line is not blank.
    MissingBlankSeparator,
    /// A line inside a stage block does not hold exactly three integers.
    MalformedRuleLine,
    /// A rule whose source or destination interval leaves the identifier
    /// space, is empty, or whose offset cannot be represented.
    RuleOutOfBounds,
    /// A seed pair whose range leaves the identifier space.
    SeedOutOfBounds,
}

/// The parsed input: the raw seed numbers and the ordered pipeline.
#[derive(Debug)]
pub struct Almanac {
    pub seed_values: Vec<u64>,
    pub pipeline: Vec<MappingStage>,
}

/// `seeds: ` — the required label of the first line.
pub open spec fn has_seeds_prefix(l: Seq<u8>) -> bool {
    l.len() >= 7 && l[0] == 115 && l[1] == 101 && l[2] == 101 && l[3] == 100 && l[4] == 115
        && l[5] == 58 && l[6] == 32
}

pub open spec fn seed_tokens_ok(l: Seq<u8>) -> bool {
    forall|i: int|
        0 <= i < tokens_of(l).len() ==> is_digits(#[trigger] tokens_of(l)[i]) && uint_val(
            tokens_of(l)[i],
        ) <= u64::MAX
}

pub open spec fn seed_vals(l: Seq<u8>) -> Seq<u64> {
    tokens_of(l).map_values(|t: Seq<u8>| uint_val(t) as u64)
}

/// One rule line: exactly three integers `destStart sourceStart length`,
/// denoting a non-empty source interval and a destination interval that both
/// fit the identifier space, with a representable offset.
pub open spec fn parse_rule(l: Seq<u8>) -> Option<MappingRange> {
    let ts = tokens_of(l);
    if ts.len() == 3 && is_digits(ts[0]) && is_digits(ts[1]) && is_digits(ts[2]) && uint_val(ts[0])
        <= u64::MAX && uint_val(ts[1]) <= u64::MAX && uint_val(ts[2]) <= u64::MAX {
        let d = uint_val(ts[0]);
        let s = uint_val(ts[1]);
        let n = uint_val(ts[2]);
        if n >= 1 && s + n <= u64::MAX + 1 && d + n <= u64::MAX + 1 && i64::MIN <= d - s <= i64::MAX {
            Some(
                MappingRange {
                    source_start: s as u64,
                    length: n as u64,
                    dest_offset: (d - s) as i64,
                },
            )
        } else {
            None
        }
    } else {
        None
    }
}

/// The stage blocks of the lines after the seeds section: blank lines
/// delimit blocks, the first line of a block is a label and is ignored, and
/// every further line must parse as a rule.  `cur` is the block being read.
pub open spec fn parse_stages(ls: Seq<Seq<u8>>, cur: Option<Seq<MappingRange>>) -> Option<
    Seq<Seq<MappingRange>>,
>
    decreases ls.len(),
{
    if ls.len() == 0 {
        match cur {
            Option::None => Some(Seq::<Seq<MappingRange>>::empty()),
            Option::Some(rs) => Some(seq![rs]),
        }
    } else if ls[0].len() == 0 {
        match cur {
            Option::None => parse_stages(ls.drop_first(), Option::None),
            Option::Some(rs) => match parse_stages(ls.drop_first(), Option::None) {
                Option::None => Option::None,
                Option::Some(ss) => Some(seq![rs] + ss),
            },
        }
    } else {
        match cur {
            Option::None => parse_stages(ls.drop_first(), Some(Seq::<MappingRange>::empty())),
            Option::Some(rs) => match parse_rule(ls[0]) {
                Option::None => Option::None,
                Option::Some(m) => parse_stages(ls.drop_first(), Some(rs.push(m))),
            },
        }
    }
}

/// The whole input: the seeds line, a blank separator, then the stage blocks.
pub open spec fn almanac_spec(s: Seq<u8>) -> Option<(Seq<u64>, Seq<Seq<MappingRange>>)> {
    let ls = lines_of(s);
    if ls.len() == 0 {
        Option::None
    } else if !has_seeds_prefix(ls[0]) {
        Option::None
    } else if !seed_tokens_ok(ls[0].skip(7)) {
        Option::None
    } else {
        let seeds = seed_vals(ls[0].skip(7));
        if ls.len() == 1 {
            Some((seeds, Seq::<Seq<MappingRange>>::empty()))
        } else if ls[1].len() != 0 {
            Option::None
        } else {
            match parse_stages(ls.skip(2), Option::None) {
                Option::None => Option::None,
                Option::Some(ss) => Some((seeds, ss)),
            }
        }
    }
}

/// Combines the blocks already read with the outcome of the remaining lines.
pub open spec fn stages_step(
    acc: Seq<Seq<MappingRange>>,
    rest: Option<Seq<Seq<MappingRange>>>,
) -> Option<Seq<Seq<MappingRange>>> {
    match rest {
        Option::None => Option::None,
        Option::Some(ss) => Some(acc + ss),
    }
}

/// Parses the seed numbers after the label.
fn parse_seed_values(rest: &[u8]) -> (r: Result<Vec<u64>, ParseError>)
    ensures
        r is Ok <==> seed_tokens_ok(rest@),
        r matches Ok(v) ==> v@ == seed_vals(rest@),
{
    let ts = tokens(rest);
    let ghost tso = tokens_of(rest@);
    let mut out: Vec<u64> = Vec::new();
    let mut i: usize = 0;
    while i < ts.len()
        invariant
            0 <= i <= ts.len(),
            ts.deep_view() == tso,
            tso == tokens_of(rest@),
            forall|k: int|
                0 <= k < i ==> is_digits(#[trigger] tso[k]) && uint_val(tso[k]) <= u64::MAX,
            out@ == seed_vals(rest@).take(i as int),
        decreases ts.len() - i,
    {
        proof {
            assert(ts@[i as int].deep_view() =~= ts@[i as int]@);
            assert(tso[i as int] == ts@[i as int]@);
        }
        match parse_u64(ts[i].as_slice()) {
            Some(v) => {
                out.push(v);
                proof {
                    assert(seed_vals(rest@)[i as int] == uint_val(tso[i as int]) as u64);
                    assert(seed_vals(rest@).take(i as int + 1) =~= seed_vals(rest@).take(
                        i as int,
                    ).push(v));
                }
            },
            None => {
                proof {
                    assert(!(is_digits(tso[i as int]) && uint_val(tso[i as int]) <= u64::MAX));
                    assert(!seed_tokens_ok(rest@));
                }
                return Err(ParseError::MalformedInteger);
            },
        }
        i = i + 1;
    }
    proof {
        assert(seed_vals(rest@).take(tso.len() as int) =~= seed_vals(rest@));
    }
    Ok(out)
}

/// Parses one rule line; the returned rule is always well formed.
fn parse_rule_line(line: &[u8]) -> (r: Result<MappingRange, ParseError>)
    ensures
        r is Ok <==> parse_rule(line@) is Some,
        r matches Ok(m) ==> parse_rule(line@) == Some(m) && rule_wf(m),
{
    let ts = tokens(line);
    let ghost tso = tokens_of(line@);
    if ts.len() != 3 {
        return Err(ParseError::MalformedRuleLine);
    }
    proof {
        assert(ts@[0].deep_view() =~= ts@[0]@);
        assert(ts@[1].deep_view() =~= ts@[1]@);
        assert(ts@[2].deep_view() =~= ts@[2]@);
        assert(tso[0] == ts@[0]@ && tso[1] == ts@[1]@ && tso[2] == ts@[2]@);
    }
    let d = match parse_u64(ts[0].as_slice()) {
        Some(v) => v,
        None => {
            return Err(ParseError::MalformedInteger);
        },
    };
    let s = match parse_u64(ts[1].as_slice()) {
        Some(v) => v,
        None => {
            return Err(ParseError::MalformedInteger);
        },
    };
    let n = match parse_u64(ts[2].as_slice()) {
        Some(v) => v,
        None => {
            return Err(ParseError::MalformedInteger);
        },
    };
    proof {
        lemma_uint_val_nonneg(tso[0]);
        lemma_uint_val_nonneg(tso[1]);
        lemma_uint_val_nonneg(tso[2]);
    }
    if n == 0 {
        return Err(ParseError::RuleOutOfBounds);
    }
    if s as u128 + n as u128 > u64::MAX as u128 + 1 || d as u128 + n as u128 > u64::MAX as u128
        + 1 {
        return Err(ParseError::RuleOutOfBounds);
    }
    let off: i128 = d as i128 - s as i128;
    if off < i64::MIN as i128 || off > i64::MAX as i128 {
        return Err(ParseError::RuleOutOfBounds);
    }
    let m = MappingRange { source_start: s, length: n, dest_offset: off as i64 };
    proof {
        assert(rule_wf(m));
        assert(parse_rule(line@) == Some(m));
    }
    Ok(m)
}

/// Parses the whole input into seed numbers and the ordered pipeline.
/// Any malformed line aborts the parse: no partial result is returned.
pub fn parse_almanac(input: &str) -> (r: Result<Almanac, ParseError>)
    ensures
        r is Ok <==> almanac_spec(input.spec_bytes()) is Some,
        r matches Ok(a) ==> almanac_spec(input.spec_bytes()) == Some(
            (a.seed_values@, stage_views(a.pipeline@)),
        ) && pipeline_wf(stage_views(a.pipeline@)),
{
    let bytes = input.as_bytes();
    let ghost sb = input.spec_bytes();
    let ls = lines(bytes);
    let ghost lv = lines_of(sb);
    if ls.len() == 0 {
        return Err(ParseError::MissingSeedsLine);
    }
    proof {
        assert(ls@[0].deep_view() =~= ls@[0]@);
        assert(lv[0] == ls@[0]@);
    }
    let first = ls[0].as_slice();
    if first.len() < 7 || first[0] != 115 || first[1] != 101 || first[2] != 101 || first[3] != 100
        || first[4] != 115 || first[5] != 58 || first[6] != 32 {
        proof {
            assert(!has_seeds_prefix(lv[0]));
        }
        return Err(ParseError::MalformedSeedsLine);
    }
    let rest = vstd::slice::slice_subrange(first, 7, first.len());
    proof {
        assert(rest@ =~= lv[0].skip(7));
    }
    let seed_values = match parse_seed_values(rest) {
        Ok(v) => v,
        Err(e) => {
            return Err(e);
        },
    };
    if ls.len() == 1 {
        let pipeline: Vec<MappingStage> = Vec::new();
        proof {
            assert(stage_views(pipeline@) =~= Seq::<Seq<MappingRange>>::empty());
        }
        return Ok(Almanac { seed_values, pipeline });
    }
    proof {
        assert(ls@[1].deep_view() =~= ls@[1]@);
        assert(lv[1] == ls@[1]@);
    }
    if ls[1].len() != 0 {
        return Err(ParseError::MissingBlankSeparator);
    }
    let mut pipeline: Vec<MappingStage> = Vec::new();
    let mut curr: Vec<MappingRange> = Vec::new();
    let mut in_block = false;
    let mut i: usize = 2;
    proof {
        assert(stage_views(pipeline@) =~= Seq::<Seq<MappingRange>>::empty());
        assert(stages_step(stage_views(pipeline@), parse_stages(lv.skip(2), Option::None))
            == parse_stages(lv.skip(2), Option::None)) by {
            match parse_stages(lv.skip(2), Option::<Seq<MappingRange>>::None) {
                Option::None => {},
                Option::Some(ss) => {
                    assert(stage_views(pipeline@) + ss =~= ss);
                },
            }
        }
    }
    while i < ls.len()
        invariant
            2 <= i <= ls@.len(),
            ls.deep_view() == lv,
            lv == lines_of(input.spec_bytes()),
            lv.len() >= 2,
            has_seeds_prefix(lv[0]),
            seed_tokens_ok(lv[0].skip(7)),
            seed_values@ == seed_vals(lv[0].skip(7)),
            lv[1].len() == 0,
            pipeline_wf(stage_views(pipeline@)),
            stage_wf(curr@),
            !in_block ==> curr@ == Seq::<MappingRange>::empty(),
            stages_step(
                stage_views(pipeline@),
                parse_stages(
                    lv.skip(i as int),
                    if in_block {
                        Some(curr@)
                    } else {
                        Option::<Seq<MappingRange>>::None
                    },
                ),
            ) == parse_stages(lv.skip(2), Option::None),
        decreases ls.len() - i,
    {
        proof {
            assert(ls@[i as int].deep_view() =~= ls@[i as int]@);
            assert(lv[i as int] == ls@[i as int]@);
            assert(lv.skip(i as int).drop_first() =~= lv.skip(i as int + 1));
            assert(lv.skip(i as int)[0] == lv[i as int]);
        }
        if ls[i].len() == 0 {
            if in_block {
                let done = curr;
                curr = Vec::new();
                in_block = false;
                let ghost prev = stage_views(pipeline@);
                let ghost dv = done@;
                pipeline.push(MappingStage { rules: done });
                proof {
                    assert(stage_views(pipeline@) =~= prev + seq![dv]);
                    match parse_stages(lv.skip(i as int + 1), Option::<Seq<MappingRange>>::None) {
                        Option::None => {},
                        Option::Some(ss) => {
                            assert(prev + (seq![dv] + ss) =~= (prev + seq![dv]) + ss);
                        },
                    }
                }
            }
        } else {
            if !in_block {
                in_block = true;
            } else {
                match parse_rule_line(ls[i].as_slice()) {
                    Ok(m) => {
                        curr.push(m);
                    },
                    Err(e) => {
                        proof {
                            assert(parse_rule(lv[i as int]) is None);
                            assert(parse_stages(lv.skip(2), Option::None) is None);
                        }
                        return Err(e);
                    },
                }
            }
        }
        i = i + 1;
    }
    proof {
        assert(lv.skip(ls@.len() as int) =~= Seq::<Seq<u8>>::empty());
    }
    if in_block {
        let ghost prev = stage_views(pipeline@);
        let ghost dv = curr@;
        pipeline.push(MappingStage { rules: curr });
        proof {
            assert(stage_views(pipeline@) =~= prev + seq![dv]);
            assert(prev + seq![dv] =~= prev + seq![dv] + Seq::<Seq<MappingRange>>::empty());
            assert(parse_stages(
                Seq::<Seq<u8>>::empty(),
                Some(dv),
            ) == Option::Some(seq![dv]));
            assert(stages_step(prev, Some(seq![dv])) == Some(prev + seq![dv]));
        }
        Ok(Almanac { seed_values, pipeline })
    } else {
        proof {
            assert(stage_views(pipeline@) + Seq::<Seq<MappingRange>>::empty() =~= stage_views(
                pipeline@,
            ));
        }
        Ok(Almanac { seed_values, pipeline })
    }
}

/// Mode A: every seed number is its own length-one range.
pub open spec fn mode_a_ranges(seeds: Seq<u64>) -> Seq<IdentifierRange> {
    seeds.map_values(|v: u64| IdentifierRange { start: v, length: 1 })
}

/// Mode B: seed numbers consumed two at a time as `(start, length)`; pairs of
/// length zero denote no identifiers and are dropped, a trailing odd number
/// is ignored, and a pair whose range leaves the identifier space is an
/// error.
pub open spec fn mode_b_ranges(seeds: Seq<u64>) -> Option<Seq<IdentifierRange>>
    decreases seeds.len(),
{
    if seeds.len() < 2 {
        Some(Seq::<IdentifierRange>::empty())
    } else {
        let s = seeds[0];
        let l = seeds[1];
        if s + l > u64::MAX + 1 {
            Option::None
        } else if l == 0 {
            mode_b_ranges(seeds.skip(2))
        } else {
            match mode_b_ranges(seeds.skip(2)) {
                Option::None => Option::None,
                Option::Some(rs) => Some(seq![IdentifierRange { start: s, length: l }] + rs),
            }
        }
    }
}

/// Builds the mode-A seed set.
pub fn seed_ranges_single(vals: &Vec<u64>) -> (out: Vec<IdentifierRange>)
    ensures
        out@ == mode_a_ranges(vals@),
        ranges_wf(out@),
{
    let mut out: Vec<IdentifierRange> = Vec::new();
    let mut i: usize = 0;
    while i < vals.len()
        invariant
            0 <= i <= vals@.len(),
            out@ == mode_a_ranges(vals@).take(i as int),
            ranges_wf(out@),
        decreases vals.len() - i,
    {
        out.push(IdentifierRange { start: vals[i], length: 1 });
        proof {
            assert(mode_a_ranges(vals@).take(i as int + 1) =~= mode_a_ranges(vals@).take(
                i as int,
            ).push(mode_a_ranges(vals@)[i as int]));
        }
        i = i + 1;
    }
    proof {
        assert(mode_a_ranges(vals@).take(vals@.len() as int) =~= mode_a_ranges(vals@));
    }
    out
}

/// Builds the mode-B seed set, or reports the first pair out of bounds.
pub fn seed_ranges_paired(vals: &Vec<u64>) -> (r: Result<Vec<IdentifierRange>, ParseError>)
    ensures
        r is Ok <==> mode_b_ranges(vals@) is Some,
        r matches Ok(v) ==> Some(v@) == mode_b_ranges(vals@) && ranges_wf(v@),
{
    let mut out: Vec<IdentifierRange> = Vec::new();
    let mut i: usize = 0;
    proof {
        assert(vals@.skip(0) =~= vals@);
        match mode_b_ranges(vals@) {
            Option::None => {},
            Option::Some(rs) => {
                assert(out@ + rs =~= rs);
            },
        }
    }
    while i < vals.len() && i + 1 < vals.len()
        invariant
            0 <= i <= vals@.len(),
            ranges_wf(out@),
            mode_b_ranges(vals@) == (match mode_b_ranges(vals@.skip(i as int)) {
                Option::None => Option::<Seq<IdentifierRange>>::None,
                Option::Some(rs) => Some(out@ + rs),
            }),
        decreases vals.len() - i,
    {
        let s = vals[i];
        let l = vals[i + 1];
        proof {
            assert(vals@.skip(i as int)[0] == s);
            assert(vals@.skip(i as int)[1] == l);
            assert(vals@.skip(i as int).skip(2) =~= vals@.skip(i as int + 2));
        }
        if s as u128 + l as u128 > u64::MAX as u128 + 1 {
            proof {
                assert(mode_b_ranges(vals@.skip(i as int)) is None);
            }
            return Err(ParseError::SeedOutOfBounds);
        }
        if l > 0 {
            let ghost prev = out@;
            out.push(IdentifierRange { start: s, length: l });
            proof {
                match mode_b_ranges(vals@.skip(i as int + 2)) {
                    Option::None => {},
                    Option::Some(rs) => {
                        assert(prev + (seq![IdentifierRange { start: s, length: l }] + rs)
                            =~= out@ + rs);
                    },
                }
            }
        }
        i = i + 2;
    }
    proof {
        assert(vals@.skip(i as int).len() < 2);
        match mode_b_ranges(vals@.skip(i as int)) {
            Option::None => {},
            Option::Some(rs) => {
                assert(rs =~= Seq::<IdentifierRange>::empty());
                assert(out@ + rs =~= out@);
            },
        }
    }
    Ok(out)
}

proof fn lemma_sum_lens_bounds(qs: Seq<IdentifierRange>)
    requires
        ranges_wf(qs),
    ensures
        sum_lens(qs) >= 0,
        qs.len() > 0 ==> sum_lens(qs) > 0,
    decreases qs.len(),
{
    if qs.len() > 0 {
        assert(range_wf(qs[0]));
        lemma_sum_lens_bounds(qs.drop_first());
    }
}

proof fn lemma_mode_a_sum(seeds: Seq<u64>)
    ensures
        sum_lens(mode_a_ranges(seeds)) == seeds.len(),
    decreases seeds.len(),
{
    if seeds.len() > 0 {
        assert(mode_a_ranges(seeds).drop_first() =~= mode_a_ranges(seeds.drop_first()));
        lemma_mode_a_sum(seeds.drop_first());
    }
}

/// Mode A over the full input: the smallest final identifier any single seed
/// number reaches through the pipeline, or nothing when the input is
/// malformed or holds no seeds.
pub fn part_one(input: &str) -> (r: Option<u64>)
    ensures
        r is Some <==> (almanac_spec(input.spec_bytes()) is Some && (almanac_spec(
            input.spec_bytes(),
        )->0).0.len() > 0),
        r matches Some(v) ==> is_min_start(
            resolve_spec(
                (almanac_spec(input.spec_bytes())->0).1,
                mode_a_ranges((almanac_spec(input.spec_bytes())->0).0),
            ),
            v,
        ),
{
    let a = match parse_almanac(input) {
        Ok(a) => a,
        Err(_) => {
            return None;
        },
    };
    let ranges = seed_ranges_single(&a.seed_values);
    let out = resolve(&ranges, &a.pipeline);
    proof {
        lemma_resolve_semantics(stage_views(a.pipeline@), ranges@);
        lemma_mode_a_sum(a.seed_values@);
        lemma_sum_lens_bounds(out@);
        lemma_sum_lens_bounds(ranges@);
    }
    match minimum(&out) {
        Ok(v) => Some(v),
        Err(_) => None,
    }
}

/// Mode B over the full input: the smallest final identifier any seed of the
/// paired ranges reaches through the pipeline, computed by range splitting,
/// or nothing when the input is malformed, a pair is out of bounds, or the
/// pairs hold no identifiers.
pub fn part_two(input: &str) -> (r: Option<u64>)
    ensures
        r is Some <==> (almanac_spec(input.spec_bytes()) is Some && mode_b_ranges(
            (almanac_spec(input.spec_bytes())->0).0,
        ) is Some && mode_b_ranges((almanac_spec(input.spec_bytes())->0).0)->0.len() > 0),
        r matches Some(v) ==> is_min_start(
            resolve_spec(
                (almanac_spec(input.spec_bytes())->0).1,
                mode_b_ranges((almanac_spec(input.spec_bytes())->0).0)->0,
            ),
            v,
        ),
{
    let a = match parse_almanac(input) {
        Ok(a) => a,
        Err(_) => {
            return None;
        },
    };
    let ranges = match seed_ranges_paired(&a.seed_values) {
        Ok(v) => v,
        Err(_) => {
            return None;
        },
    };
    let out = resolve(&ranges, &a.pipeline);
    proof {
        lemma_resolve_semantics(stage_views(a.pipeline@), ranges@);
        lemma_sum_lens_bounds(out@);
        lemma_sum_lens_bounds(ranges@);
    }
    match minimum(&out) {
        Ok(v) => Some(v),
        Err(_) => None,
    }
}

} // verus!
