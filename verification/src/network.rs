//! Graph-cycle traversal with least-common-multiple synchronization: nodes of
//! three letters, a cyclic left/right instruction tape, and walks that stop
//! at a goal node.  Node names are packed into `u32` codes; lookups scan the
//! node table in input order, first definition winning.

use crate::text::lines;
use crate::text::lines_of;
use vstd::prelude::*;
use vstd::string::StringSliceAdditionalSpecFns;

verus! {

/// The packed code of the three-letter node at `l[i..i+3]`.
pub open spec fn node_code(l: Seq<u8>, i: int) -> u32 {
    (l[i] * 0x10000 + l[i + 1] * 0x100 + l[i + 2]) as u32
}

/// One node line: `XXX = (YYY, ZZZ)`, sixteen bytes exactly.
pub open spec fn parse_node_line(l: Seq<u8>) -> Option<(u32, u32, u32)> {
    if l.len() == 16 && l[3] == 32 && l[4] == 61 && l[5] == 32 && l[6] == 40 && l[10] == 44
        && l[11] == 32 && l[15] == 41 {
        Some((node_code(l, 0), node_code(l, 7), node_code(l, 12)))
    } else {
        Option::None
    }
}

/// The node table: every line after the instruction tape and its separator
/// must be a node line.
pub open spec fn parse_nodes(ls: Seq<Seq<u8>>) -> Option<Seq<(u32, u32, u32)>>
    decreases ls.len(),
{
    if ls.len() == 0 {
        Some(Seq::<(u32, u32, u32)>::empty())
    } else {
        match parse_node_line(ls[0]) {
            Option::None => Option::None,
            Option::Some(n) => match parse_nodes(ls.drop_first()) {
                Option::None => Option::None,
                Option::Some(ns) => Some(seq![n] + ns),
            },
        }
    }
}

/// The whole document: the instruction tape, a skipped separator line, then
/// the node table.
pub open spec fn parse_network(s: Seq<u8>) -> Option<(Seq<u8>, Seq<(u32, u32, u32)>)> {
    let ls = lines_of(s);
    if ls.len() == 0 {
        Option::None
    } else if ls.len() == 1 {
        Some((ls[0], Seq::<(u32, u32, u32)>::empty()))
    } else {
        match parse_nodes(ls.skip(2)) {
            Option::None => Option::None,
            Option::Some(ns) => Some((ls[0], ns)),
        }
    }
}

/// The successors of a node: the first table entry with its code.
pub open spec fn lookup(maps: Seq<(u32, u32, u32)>, node: u32) -> Option<(u32, u32)>
    decreases maps.len(),
{
    if maps.len() == 0 {
        Option::None
    } else if maps[0].0 == node {
        Some((maps[0].1, maps[0].2))
    } else {
        lookup(maps.drop_first(), node)
    }
}

/// A stopping condition: an exact node, or any node whose last letter
/// matches.
#[derive(Clone, Copy, PartialEq, Eq, Structural, Debug)]
pub enum NodeGoal {
    Exact(u32),
    EndsWith(u8),
}

pub open spec fn goal_met(g: NodeGoal, node: u32) -> bool {
    match g {
        NodeGoal::Exact(t) => node == t,
        NodeGoal::EndsWith(b) => node % 0x100 == b,
    }
}

/// How many steps a walk takes from `node` (reading the tape at `pos`) to
/// the first node meeting the goal, giving up after `fuel` steps or on a
/// node with no table entry.
pub open spec fn find_goal(
    maps: Seq<(u32, u32, u32)>,
    ins: Seq<u8>,
    g: NodeGoal,
    node: u32,
    pos: int,
    fuel: nat,
) -> Option<int>
    decreases fuel,
{
    if goal_met(g, node) {
        Some(0)
    } else if fuel == 0 {
        Option::None
    } else {
        match lookup(maps, node) {
            Option::None => Option::None,
            Option::Some(lr) => {
                let next = if ins[pos] == 76 {
                    lr.0
                } else {
                    lr.1
                };
                let pos2 = if pos + 1 == ins.len() {
                    0int
                } else {
                    pos + 1
                };
                match find_goal(maps, ins, g, next, pos2, (fuel - 1) as nat) {
                    Option::None => Option::None,
                    Option::Some(k) => Some(k + 1),
                }
            },
        }
    }
}

/// The walk gives up after one full tape for every node and one more: any
/// longer walk must have revisited a node at the same tape position.
pub open spec fn search_fuel(ilen: int, mlen: int) -> int {
    let f = ilen * (mlen + 1);
    if f > u32::MAX {
        u32::MAX as int
    } else {
        f
    }
}

/// Finds the first table entry of a node.
fn lookup_node(maps: &Vec<(u32, u32, u32)>, node: u32) -> (r: Option<(u32, u32)>)
    ensures
        r == lookup(maps@, node),
{
    let mut i: usize = 0;
    proof {
        assert(maps@.skip(0) =~= maps@);
    }
    while i < maps.len()
        invariant
            0 <= i <= maps@.len(),
            lookup(maps@, node) == lookup(maps@.skip(i as int), node),
        decreases maps.len() - i,
    {
        proof {
            assert(maps@.skip(i as int).drop_first() =~= maps@.skip(i as int + 1));
            assert(maps@.skip(i as int)[0] == maps@[i as int]);
        }
        if maps[i].0 == node {
            return Some((maps[i].1, maps[i].2));
        }
        i = i + 1;
    }
    proof {
        assert(maps@.skip(i as int) =~= Seq::<(u32, u32, u32)>::empty());
    }
    None
}

/// What the walk from `start` returns: met immediately on an empty tape, or
/// searched with the standard fuel.
pub open spec fn steps_result(
    ins: Seq<u8>,
    maps: Seq<(u32, u32, u32)>,
    start: u32,
    goal: NodeGoal,
) -> Option<int> {
    if ins.len() == 0 {
        if goal_met(goal, start) {
            Some(0int)
        } else {
            Option::None
        }
    } else {
        find_goal(maps, ins, goal, start, 0, search_fuel(ins.len() as int, maps.len() as int) as nat)
    }
}

/// Walks the network from `start` until the goal is met, counting steps;
/// gives up after the search fuel runs out, on a missing node, or when the
/// instruction tape is empty.
pub fn steps_to_node(
    instructions: &Vec<u8>,
    maps: &Vec<(u32, u32, u32)>,
    start: u32,
    goal: NodeGoal,
) -> (r: Option<u32>)
    ensures
        r is Some <==> steps_result(instructions@, maps@, start, goal) is Some,
        r matches Some(k) ==> Some(k as int) == steps_result(instructions@, maps@, start, goal),
{
    if instructions.len() == 0 {
        if goal_check(goal, start) {
            return Some(0);
        }
        return None;
    }
    let ghost full_fuel = search_fuel(instructions@.len() as int, maps@.len() as int) as nat;
    let fuel: u32 = fuel_exec(instructions.len(), maps.len());
    let mut node: u32 = start;
    let mut pos: usize = 0;
    let mut steps: u32 = 0;
    while steps < fuel
        invariant
            instructions@.len() > 0,
            fuel as int == search_fuel(instructions@.len() as int, maps@.len() as int),
            full_fuel == fuel as nat,
            0 <= steps <= fuel,
            0 <= pos < instructions@.len(),
            (match find_goal(
                maps@,
                instructions@,
                goal,
                node,
                pos as int,
                (fuel - steps) as nat,
            ) {
                Option::None => Option::<int>::None,
                Option::Some(k) => Some(k + steps),
            }) == find_goal(maps@, instructions@, goal, start, 0, full_fuel),
        decreases fuel - steps,
    {
        if goal_check(goal, node) {
            return Some(steps);
        }
        let lr = match lookup_node(maps, node) {
            Some(v) => v,
            None => {
                return None;
            },
        };
        let dir = instructions[pos];
        node = if dir == 76 {
            lr.0
        } else {
            lr.1
        };
        if pos == instructions.len() - 1 {
            pos = 0;
        } else {
            pos = pos + 1;
        }
        steps = steps + 1;
    }
    if goal_check(goal, node) {
        proof {
            assert(find_goal(maps@, instructions@, goal, node, pos as int, 0) == Some(0int));
        }
        return Some(steps);
    }
    None
}

/// Whether a node meets the goal.
fn goal_check(goal: NodeGoal, node: u32) -> (r: bool)
    ensures
        r == goal_met(goal, node),
{
    match goal {
        NodeGoal::Exact(t) => node == t,
        NodeGoal::EndsWith(b) => node % 0x100 == b as u32,
    }
}

/// The node `AAA`, where the single walk begins.
pub const NODE_AAA: u32 = 65 * 0x10000 + 65 * 0x100 + 65;

/// The node `ZZZ`, where the single walk ends.
pub const NODE_ZZZ: u32 = 90 * 0x10000 + 90 * 0x100 + 90;

/// Euclid's greatest common divisor.
pub open spec fn spec_gcd(a: int, b: int) -> int
    decreases b,
{
    if b <= 0 {
        a
    } else {
        spec_gcd(b, a % b)
    }
}

/// The least common multiple of a list, folded right as `a * b / gcd(a, b)`;
/// fails on an empty list or when an intermediate product leaves `u64`.
pub open spec fn lcm_list(ns: Seq<int>) -> Option<int>
    decreases ns.len(),
{
    if ns.len() == 0 {
        Option::None
    } else if ns.len() == 1 {
        Some(ns[0])
    } else {
        match lcm_list(ns.drop_first()) {
            Option::None => Option::None,
            Option::Some(b) => {
                let p = ns[0] * b;
                if p > u64::MAX {
                    Option::None
                } else if spec_gcd(ns[0], b) == 0 {
                    Some(0int)
                } else {
                    Some(p / spec_gcd(ns[0], b))
                }
            },
        }
    }
}

/// Euclid's algorithm.
pub fn gcd(a: u64, b: u64) -> (r: u64)
    ensures
        r as int == spec_gcd(a as int, b as int),
    decreases b,
{
    if b == 0 {
        a
    } else {
        gcd(b, a % b)
    }
}

/// The least common multiple of a non-empty list; fails when an intermediate
/// product leaves `u64`.
pub fn lcm(nums: &[u64]) -> (r: Option<u64>)
    requires
        nums@.len() >= 1,
    ensures
        r is Some <==> lcm_list(nums@.map_values(|x: u64| x as int)) is Some,
        r matches Some(v) ==> Some(v as int) == lcm_list(nums@.map_values(|x: u64| x as int)),
    decreases nums@.len(),
{
    let ghost vals = nums@.map_values(|x: u64| x as int);
    if nums.len() == 1 {
        return Some(nums[0]);
    }
    let a = nums[0];
    let rest = vstd::slice::slice_subrange(nums, 1, nums.len());
    proof {
        assert(rest@ =~= nums@.drop_first());
        assert(rest@.map_values(|x: u64| x as int) =~= vals.drop_first());
    }
    let b = match lcm(rest) {
        Some(v) => v,
        None => {
            return None;
        },
    };
    let p = match a.checked_mul(b) {
        Some(v) => v,
        None => {
            return None;
        },
    };
    let g = gcd(a, b);
    if g == 0 {
        Some(0)
    } else {
        Some(p / g)
    }
}

/// The nodes whose names end in `A`, in table order.
pub open spec fn a_starts(maps: Seq<(u32, u32, u32)>) -> Seq<u32>
    decreases maps.len(),
{
    if maps.len() == 0 {
        Seq::<u32>::empty()
    } else {
        (if maps[0].0 % 0x100 == 65 {
            seq![maps[0].0]
        } else {
            Seq::<u32>::empty()
        }) + a_starts(maps.drop_first())
    }
}

/// The walk lengths from every starting node to a node ending in `Z`.
pub open spec fn cycle_steps(
    ins: Seq<u8>,
    maps: Seq<(u32, u32, u32)>,
    starts: Seq<u32>,
) -> Option<Seq<int>>
    decreases starts.len(),
{
    if starts.len() == 0 {
        Some(Seq::<int>::empty())
    } else {
        match steps_result(ins, maps, starts[0], NodeGoal::EndsWith(90)) {
            Option::None => Option::None,
            Option::Some(k) => match cycle_steps(ins, maps, starts.drop_first()) {
                Option::None => Option::None,
                Option::Some(cs) => Some(seq![k] + cs),
            },
        }
    }
}

/// What mode one of the document denotes: the walk length from `AAA` to
/// `ZZZ`.
pub open spec fn part_one_spec(s: Seq<u8>) -> Option<int> {
    match parse_network(s) {
        Option::None => Option::None,
        Option::Some(pn) => steps_result(pn.0, pn.1, NODE_AAA, NodeGoal::Exact(NODE_ZZZ)),
    }
}

/// What mode two of the document denotes: the least common multiple of the
/// walk lengths from every `..A` node to a `..Z` node.
pub open spec fn part_two_spec(s: Seq<u8>) -> Option<int> {
    match parse_network(s) {
        Option::None => Option::None,
        Option::Some(pn) => match cycle_steps(pn.0, pn.1, a_starts(pn.1)) {
            Option::None => Option::None,
            Option::Some(cs) => lcm_list(cs),
        },
    }
}

/// Parses the instruction tape and the node table.
fn parse_input(input: &str) -> (r: Option<(Vec<u8>, Vec<(u32, u32, u32)>)>)
    ensures
        r is Some <==> parse_network(input.spec_bytes()) is Some,
        r matches Some(d) ==> Some((d.0@, d.1@)) == parse_network(input.spec_bytes()),
{
    let bytes = input.as_bytes();
    let ls = lines(bytes);
    let ghost lv = lines_of(input.spec_bytes());
    if ls.len() == 0 {
        return None;
    }
    proof {
        assert(ls@[0].deep_view() =~= ls@[0]@);
        assert(lv[0] == ls@[0]@);
    }
    let first = &ls[0];
    let mut ins: Vec<u8> = Vec::new();
    let mut t: usize = 0;
    while t < first.len()
        invariant
            0 <= t <= first@.len(),
            ins@ == first@.take(t as int),
        decreases first.len() - t,
    {
        ins.push(first[t]);
        proof {
            assert(first@.take(t as int + 1) =~= first@.take(t as int).push(first@[t as int]));
        }
        t = t + 1;
    }
    proof {
        assert(ins@ =~= lv[0]);
    }
    let mut maps: Vec<(u32, u32, u32)> = Vec::new();
    if ls.len() == 1 {
        return Some((ins, maps));
    }
    let mut i: usize = 2;
    proof {
        assert(maps@.map_values(|x: (u32, u32, u32)| x) =~= maps@);
        match parse_nodes(lv.skip(2)) {
            Option::None => {},
            Option::Some(ns) => {
                assert(maps@ + ns =~= ns);
            },
        }
    }
    while i < ls.len()
        invariant
            2 <= i <= ls@.len(),
            ls.deep_view() == lv,
            lv == lines_of(input.spec_bytes()),
            lv.len() >= 2,
            ins@ == lv[0],
            (match parse_nodes(lv.skip(i as int)) {
                Option::None => Option::<Seq<(u32, u32, u32)>>::None,
                Option::Some(ns) => Some(maps@ + ns),
            }) == parse_nodes(lv.skip(2)),
        decreases ls.len() - i,
    {
        proof {
            assert(ls@[i as int].deep_view() =~= ls@[i as int]@);
            assert(lv[i as int] == ls@[i as int]@);
            assert(lv.skip(i as int).drop_first() =~= lv.skip(i as int + 1));
            assert(lv.skip(i as int)[0] == lv[i as int]);
        }
        let l = &ls[i];
        if !(l.len() == 16 && l[3] == 32 && l[4] == 61 && l[5] == 32 && l[6] == 40 && l[10] == 44
            && l[11] == 32 && l[15] == 41) {
            proof {
                assert(parse_node_line(lv[i as int]) is None);
            }
            return None;
        }
        let node = (l[0] as u32) * 0x10000 + (l[1] as u32) * 0x100 + (l[2] as u32);
        let left = (l[7] as u32) * 0x10000 + (l[8] as u32) * 0x100 + (l[9] as u32);
        let right = (l[12] as u32) * 0x10000 + (l[13] as u32) * 0x100 + (l[14] as u32);
        let ghost prev = maps@;
        maps.push((node, left, right));
        proof {
            assert(parse_node_line(lv[i as int]) == Some((node, left, right)));
            match parse_nodes(lv.skip(i as int + 1)) {
                Option::None => {},
                Option::Some(ns) => {
                    assert(prev + (seq![(node, left, right)] + ns) =~= maps@ + ns);
                },
            }
        }
        i = i + 1;
    }
    proof {
        assert(lv.skip(ls@.len() as int) =~= Seq::<Seq<u8>>::empty());
        assert(maps@ + Seq::<(u32, u32, u32)>::empty() =~= maps@);
    }
    Some((ins, maps))
}

/// The number of steps from `AAA` to `ZZZ`, or nothing when the document is
/// malformed, the walk never arrives, or it gives up.
pub fn part_one(input: &str) -> (r: Option<u32>)
    ensures
        r is Some <==> part_one_spec(input.spec_bytes()) is Some,
        r matches Some(v) ==> Some(v as int) == part_one_spec(input.spec_bytes()),
{
    let d = match parse_input(input) {
        Some(v) => v,
        None => {
            return None;
        },
    };
    steps_to_node(&d.0, &d.1, NODE_AAA, NodeGoal::Exact(NODE_ZZZ))
}

/// The least common multiple of the walk lengths: the number of steps after
/// which every walk that starts on a `..A` node stands on a `..Z` node.
pub fn part_two(input: &str) -> (r: Option<u64>)
    ensures
        r is Some <==> part_two_spec(input.spec_bytes()) is Some,
        r matches Some(v) ==> Some(v as int) == part_two_spec(input.spec_bytes()),
{
    let d = match parse_input(input) {
        Some(v) => v,
        None => {
            return None;
        },
    };
    let ins = d.0;
    let maps = d.1;
    let mut starts: Vec<u32> = Vec::new();
    let mut i: usize = 0;
    proof {
        assert(maps@.skip(0) =~= maps@);
        assert(starts@ + a_starts(maps@) =~= a_starts(maps@));
    }
    while i < maps.len()
        invariant
            0 <= i <= maps@.len(),
            a_starts(maps@) == starts@ + a_starts(maps@.skip(i as int)),
        decreases maps.len() - i,
    {
        proof {
            assert(maps@.skip(i as int).drop_first() =~= maps@.skip(i as int + 1));
            assert(maps@.skip(i as int)[0] == maps@[i as int]);
        }
        if maps[i].0 % 0x100 == 65 {
            let ghost prev = starts@;
            starts.push(maps[i].0);
            proof {
                assert(prev + (seq![maps@[i as int].0] + a_starts(maps@.skip(i as int + 1)))
                    =~= starts@ + a_starts(maps@.skip(i as int + 1)));
            }
        } else {
            proof {
                assert(Seq::<u32>::empty() + a_starts(maps@.skip(i as int + 1)) =~= a_starts(
                    maps@.skip(i as int + 1),
                ));
            }
        }
        i = i + 1;
    }
    proof {
        assert(maps@.skip(maps@.len() as int) =~= Seq::<(u32, u32, u32)>::empty());
        assert(starts@ + Seq::<u32>::empty() =~= starts@);
        assert(starts@ == a_starts(maps@));
    }
    let mut cycles: Vec<u64> = Vec::new();
    let ghost all = cycle_steps(ins@, maps@, starts@);
    let mut j: usize = 0;
    proof {
        assert(starts@.skip(0) =~= starts@);
        match all {
            Option::None => {},
            Option::Some(cs) => {
                assert(cycles@.map_values(|x: u64| x as int) + cs =~= cs);
            },
        }
    }
    while j < starts.len()
        invariant
            0 <= j <= starts@.len(),
            parse_network(input.spec_bytes()) == Some((ins@, maps@)),
            starts@ == a_starts(maps@),
            all == cycle_steps(ins@, maps@, starts@),
            (match cycle_steps(ins@, maps@, starts@.skip(j as int)) {
                Option::None => Option::<Seq<int>>::None,
                Option::Some(cs) => Some(cycles@.map_values(|x: u64| x as int) + cs),
            }) == all,
        decreases starts.len() - j,
    {
        proof {
            assert(starts@.skip(j as int).drop_first() =~= starts@.skip(j as int + 1));
            assert(starts@.skip(j as int)[0] == starts@[j as int]);
        }
        let k = match steps_to_node(&ins, &maps, starts[j], NodeGoal::EndsWith(90)) {
            Some(v) => v,
            None => {
                return None;
            },
        };
        let ghost prev = cycles@.map_values(|x: u64| x as int);
        cycles.push(k as u64);
        proof {
            assert(cycles@.map_values(|x: u64| x as int) =~= prev.push(k as int));
            match cycle_steps(ins@, maps@, starts@.skip(j as int + 1)) {
                Option::None => {},
                Option::Some(cs) => {
                    assert(prev + (seq![k as int] + cs) =~= prev.push(k as int) + cs);
                },
            }
        }
        j = j + 1;
    }
    proof {
        assert(starts@.skip(starts@.len() as int) =~= Seq::<u32>::empty());
        assert(cycles@.map_values(|x: u64| x as int) + Seq::<int>::empty() =~= cycles@.map_values(
            |x: u64| x as int,
        ));
    }
    if cycles.len() == 0 {
        return None;
    }
    lcm(cycles.as_slice())
}

/// The search fuel, saturated at `u32::MAX`.
fn fuel_exec(ilen: usize, mlen: usize) -> (r: u32)
    ensures
        r as int == search_fuel(ilen as int, mlen as int),
{
    proof {
        assert((ilen as int) * (mlen as int + 1) <= u64::MAX as int * (u64::MAX as int + 1))
            by (nonlinear_arith)
            requires
                0 <= ilen as int <= u64::MAX as int,
                0 <= mlen as int <= u64::MAX as int,
        ;
        assert((ilen as int) * (mlen as int + 1) >= 0) by (nonlinear_arith)
            requires
                0 <= ilen as int && 0 <= mlen as int,
        ;
    }
    let f: u128 = (ilen as u128) * (mlen as u128 + 1);
    if f > u32::MAX as u128 {
        u32::MAX
    } else {
        f as u32
    }
}

} // verus!
