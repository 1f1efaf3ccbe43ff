//! Behavioural tests of the range-mapping engine: the partition, identity,
//! boundary, composition and empty-pipeline laws on concrete values, the
//! error paths, and the scale check on a range of a trillion identifiers.

use advent_of_code::almanac::parse_almanac;
use advent_of_code::almanac::seed_ranges_paired;
use advent_of_code::almanac::seed_ranges_single;
use advent_of_code::almanac::ParseError;
use advent_of_code::ranges::IdentifierRange;
use advent_of_code::ranges::MappingRange;
use advent_of_code::ranges::MappingStage;
use advent_of_code::resolver::minimum;
use advent_of_code::resolver::resolve;

fn rng(start: u64, length: u64) -> IdentifierRange {
    IdentifierRange { start, length }
}

fn rule(dest: u64, src: u64, len: u64) -> MappingRange {
    MappingRange { source_start: src, length: len, dest_offset: dest as i64 - src as i64 }
}

/// Partition: fragment lengths sum to the input length and the fragments are
/// pairwise disjoint once sorted by start.
#[test]
fn partition_of_split_range() {
    let stage = MappingStage { rules: vec![rule(100, 10, 5), rule(300, 20, 5)] };
    let out = stage.apply(&rng(5, 30));
    let total: u64 = out.iter().map(|f| f.length).sum();
    assert_eq!(total, 30);
    let mut spans: Vec<(u64, u64)> = out.iter().map(|f| (f.start, f.start + f.length)).collect();
    spans.sort();
    for w in spans.windows(2) {
        assert!(w[0].1 <= w[1].0, "fragments overlap");
    }
}

/// Identity: a stage with no rules returns the input range unchanged.
#[test]
fn identity_stage_returns_input() {
    let stage = MappingStage { rules: vec![] };
    let out = stage.apply(&rng(42, 17));
    assert_eq!(out.len(), 1);
    assert_eq!(out[0], rng(42, 17));
}

/// Boundary: the last covered identifier maps, the first one past the end
/// does not.
#[test]
fn boundary_is_exclusive() {
    let stage = MappingStage { rules: vec![rule(500, 100, 10)] };
    // identifier 109 == sourceStart + length - 1 maps
    let last = stage.apply(&rng(109, 1));
    assert_eq!(last, vec![rng(509, 1)]);
    // identifier 110 == sourceStart + length passes through unchanged
    let past = stage.apply(&rng(110, 1));
    assert_eq!(past, vec![rng(110, 1)]);
}

/// Composition: resolving through two stages equals resolving through the
/// first and then the second, as multisets of fragments.
#[test]
fn composition_of_stages() {
    let a = MappingStage { rules: vec![rule(100, 10, 5), rule(0, 50, 20)] };
    let b = MappingStage { rules: vec![rule(1000, 0, 200)] };
    let seeds = vec![rng(0, 100)];
    let both = resolve(&seeds, &vec![a.clone(), b.clone()]);
    let first = resolve(&seeds, &vec![a]);
    let second = resolve(&first, &vec![b]);
    let mut x: Vec<(u64, u64)> = both.iter().map(|f| (f.start, f.length)).collect();
    let mut y: Vec<(u64, u64)> = second.iter().map(|f| (f.start, f.length)).collect();
    x.sort();
    y.sort();
    assert_eq!(x, y);
}

/// Empty pipeline: resolving through no stages returns the seeds unchanged.
#[test]
fn empty_pipeline_returns_seeds() {
    let seeds = vec![rng(79, 14), rng(55, 13)];
    let out = resolve(&seeds, &vec![]);
    assert_eq!(out, seeds);
}

/// Scale: a range of a trillion identifiers resolves by splitting, never by
/// enumeration.
#[test]
fn trillion_wide_range_resolves() {
    let stage = MappingStage {
        rules: vec![rule(0, 500_000_000_000, 1_000_000), rule(10, 1_000, 100)],
    };
    let seeds = vec![rng(0, 1_000_000_000_000)];
    let out = resolve(&seeds, &vec![stage]);
    let total: u64 = out.iter().map(|f| f.length).sum();
    assert_eq!(total, 1_000_000_000_000);
    let m = minimum(&out).unwrap();
    assert_eq!(m, 0);
}

/// The minimum of no ranges is an explicit error.
#[test]
fn minimum_of_nothing_is_an_error() {
    assert!(minimum(&vec![]).is_err());
}

#[test]
fn mode_a_builds_unit_ranges() {
    let ranges = seed_ranges_single(&vec![79, 14]);
    assert_eq!(ranges, vec![rng(79, 1), rng(14, 1)]);
}

#[test]
fn mode_b_pairs_and_skips_empty() {
    let ranges = seed_ranges_paired(&vec![79, 14, 55, 0, 7]).unwrap();
    assert_eq!(ranges, vec![rng(79, 14)]);
}

#[test]
fn mode_b_rejects_wrapping_pair() {
    let r = seed_ranges_paired(&vec![u64::MAX, 2]);
    assert_eq!(r, Err(ParseError::SeedOutOfBounds));
}

#[test]
fn parse_rejects_empty_input() {
    assert_eq!(parse_almanac("").unwrap_err(), ParseError::MissingSeedsLine);
}

#[test]
fn parse_rejects_missing_label() {
    assert_eq!(parse_almanac("79 14").unwrap_err(), ParseError::MalformedSeedsLine);
}

#[test]
fn parse_rejects_bad_integer() {
    assert_eq!(parse_almanac("seeds: 79 x4").unwrap_err(), ParseError::MalformedInteger);
}

#[test]
fn parse_rejects_missing_blank_line() {
    assert_eq!(
        parse_almanac("seeds: 79\nsoil map:\n1 2 3").unwrap_err(),
        ParseError::MissingBlankSeparator
    );
}

#[test]
fn parse_rejects_short_rule_line() {
    assert_eq!(
        parse_almanac("seeds: 79\n\nsoil map:\n1 2").unwrap_err(),
        ParseError::MalformedRuleLine
    );
}

#[test]
fn parse_rejects_empty_rule() {
    assert_eq!(
        parse_almanac("seeds: 79\n\nsoil map:\n1 2 0").unwrap_err(),
        ParseError::RuleOutOfBounds
    );
}

#[test]
fn parse_accepts_pipeline_without_rules() {
    let a = parse_almanac("seeds: 3 1").unwrap();
    assert_eq!(a.seed_values, vec![3, 1]);
    assert_eq!(a.pipeline.len(), 0);
}

/// An overlap is won by the first rule in input order.
#[test]
fn overlap_first_rule_wins() {
    let stage = MappingStage {
        rules: vec![rule(100, 10, 10), rule(200, 10, 10)],
    };
    let out = stage.apply(&rng(10, 10));
    assert_eq!(out, vec![rng(100, 10)]);
}

/// Mode A equals brute force on a small pipeline.
#[test]
fn single_ids_match_range_splitting() {
    let input = "seeds: 0 1 2 3 4 5 6 7 8 9\n\nonly map:\n100 3 4";
    let one = advent_of_code::almanac::part_one(input);
    assert_eq!(one, Some(0));
    let input2 = "seeds: 5 6\n\nonly map:\n100 3 4";
    assert_eq!(advent_of_code::almanac::part_one(input2), Some(100 + 2));
}
