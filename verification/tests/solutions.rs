//! The example scenarios for every solver, one test per part.

const EX01A: &str = "1abc2\npqr3stu8vwx\na1b2c3d4e5f\ntreb7uchet";
const EX01B: &str = "two1nine\neightwothree\nabcone2threexyz\nxtwone3four\n4nineeightseven2\nzoneight234\n7pqrstsixteen";

#[test]
fn day01_test_part_one() {
    let result = advent_of_code::calibration::part_one(EX01A);
    assert_eq!(result, Some(142));
}

#[test]
fn day01_test_part_two() {
    let result = advent_of_code::calibration::part_two(EX01B);
    assert_eq!(result, Some(281));
}

const EX02: &str = "Game 1: 3 blue, 4 red; 1 red, 2 green, 6 blue; 2 green\nGame 2: 1 blue, 2 green; 3 green, 4 blue, 1 red; 1 green, 1 blue\nGame 3: 8 green, 6 blue, 20 red; 5 blue, 4 red, 13 green; 5 green, 1 red\nGame 4: 1 green, 3 red, 6 blue; 3 green, 6 red; 3 green, 15 blue, 14 red\nGame 5: 6 red, 1 blue, 3 green; 2 blue, 1 red, 2 green";

#[test]
fn day02_test_part_one() {
    let result = advent_of_code::cubes::part_one(EX02);
    assert_eq!(result, Some(8));
}

#[test]
fn day02_test_part_two() {
    let result = advent_of_code::cubes::part_two(EX02);
    assert_eq!(result, Some(2286));
}

const EX03: &str = "467..114..\n...*......\n..35..633.\n......#...\n617*......\n.....+.58.\n..592.....\n......755.\n...$.*....\n.664.598..";

#[test]
fn day03_test_part_one() {
    let result = advent_of_code::schematic::part_one(EX03);
    assert_eq!(result, Some(4361));
}

#[test]
fn day03_test_part_two() {
    let result = advent_of_code::schematic::part_two(EX03);
    assert_eq!(result, Some(467835));
}

const EX04: &str = "Card 1: 41 48 83 86 17 | 83 86  6 31 17  9 48 53\nCard 2: 13 32 20 16 61 | 61 30 68 82 17 32 24 19\nCard 3:  1 21 53 59 44 | 69 82 63 72 16 21 14  1\nCard 4: 41 92 73 84 69 | 59 84 76 51 58  5 54 83\nCard 5: 87 83 26 28 32 | 88 30 70 12 93 22 82 36\nCard 6: 31 18 13 56 72 | 74 77 10 23 35 67 36 11";

#[test]
fn day04_test_part_one() {
    let result = advent_of_code::scratchcards::part_one(EX04);
    assert_eq!(result, Some(13));
}

#[test]
fn day04_test_part_two() {
    let result = advent_of_code::scratchcards::part_two(EX04);
    assert_eq!(result, Some(30));
}

const EX05: &str = "seeds: 79 14 55 13\n\nseed-to-soil map:\n50 98 2\n52 50 48\n\nsoil-to-fertilizer map:\n0 15 37\n37 52 2\n39 0 15\n\nfertilizer-to-water map:\n49 53 8\n0 11 42\n42 0 7\n57 7 4\n\nwater-to-light map:\n88 18 7\n18 25 70\n\nlight-to-temperature map:\n45 77 23\n81 45 19\n68 64 13\n\ntemperature-to-humidity map:\n0 69 1\n1 0 69\n\nhumidity-to-location map:\n60 56 37\n56 93 4";

#[test]
fn day05_test_part_one() {
    let result = advent_of_code::almanac::part_one(EX05);
    assert_eq!(result, Some(35));
}

#[test]
fn day05_test_part_two() {
    let result = advent_of_code::almanac::part_two(EX05);
    assert_eq!(result, Some(46));
}

const EX06: &str = "Time:      7  15   30\nDistance:  9  40  200";

#[test]
fn day06_test_part_one() {
    let result = advent_of_code::races::part_one(EX06);
    assert_eq!(result, Some(288));
}

#[test]
fn day06_test_part_two() {
    let result = advent_of_code::races::part_two(EX06);
    assert_eq!(result, Some(71503));
}

const EX07: &str = "32T3K 765\nT55J5 684\nKK677 28\nKTJJT 220\nQQQJA 483";

#[test]
fn day07_test_part_one() {
    let result = advent_of_code::camel::part_one(EX07);
    assert_eq!(result, Some(6440));
}

#[test]
fn day07_test_part_two() {
    let result = advent_of_code::camel::part_two(EX07);
    assert_eq!(result, Some(5905));
}

const EX08A: &str = "RL\n\nAAA = (BBB, CCC)\nBBB = (DDD, EEE)\nCCC = (ZZZ, GGG)\nDDD = (DDD, DDD)\nEEE = (EEE, EEE)\nGGG = (GGG, GGG)\nZZZ = (ZZZ, ZZZ)";
const EX08B: &str = "LLR\n\nAAA = (BBB, BBB)\nBBB = (AAA, ZZZ)\nZZZ = (ZZZ, ZZZ)";
const EX08C: &str = "LR\n\n11A = (11B, XXX)\n11B = (XXX, 11Z)\n11Z = (11B, XXX)\n22A = (22B, XXX)\n22B = (22C, 22C)\n22C = (22Z, 22Z)\n22Z = (22B, 22B)\nXXX = (XXX, XXX)";

#[test]
fn day08_test_part_one() {
    let result = advent_of_code::network::part_one(EX08A);
    assert_eq!(result, Some(2));
}

#[test]
fn test_part_one_b() {
    let result = advent_of_code::network::part_one(EX08B);
    assert_eq!(result, Some(6));
}

#[test]
fn day08_test_part_two() {
    let result = advent_of_code::network::part_two(EX08C);
    assert_eq!(result, Some(6));
}

const EX09: &str = "0 3 6 9 12 15\n1 3 6 10 15 21\n10 13 16 21 30 45";

#[test]
fn day09_test_part_one() {
    let result = advent_of_code::extrapolation::part_one(EX09);
    assert_eq!(result, Some(114));
}

#[test]
fn day09_test_part_two() {
    let result = advent_of_code::extrapolation::part_two(EX09);
    assert_eq!(result, Some(2));
}
