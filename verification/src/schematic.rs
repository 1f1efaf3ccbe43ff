//! Two-dimensional adjacency scan over a character grid: digit runs form
//! part numbers, any other non-dot character is a symbol, and a part counts
//! when a symbol touches it, diagonals included.  A `*` touching exactly two
//! parts is a gear.

use crate::text::is_digit;
use crate::text::lines;
use crate::text::lines_of;
use crate::text::parse_u64;
use crate::text::uint_val;
use vstd::prelude::*;
use vstd::string::StringSliceAdditionalSpecFns;

verus! {

/// One part number: its row, column span and value.
#[derive(Clone, Copy, PartialEq, Eq, Structural, Debug)]
pub struct Number {
    pub row: usize,
    pub column: usize,
    pub length: usize,
    pub value: u32,
}

/// One symbol cell; `maybe_gear` marks a `*`.
#[derive(Clone, Copy, PartialEq, Eq, Structural, Debug)]
pub struct Symbol {
    pub row: usize,
    pub column: usize,
    pub maybe_gear: bool,
}

/// All parsed numbers and symbols of the grid.
pub struct Engine {
    pub numbers: Vec<Number>,
    pub symbols: Vec<Symbol>,
}

/// The digit runs of a row from position `i` on; `cur` is the start of the
/// run being read, if any.  Each run is a half-open column span.
pub open spec fn runs_acc(row: Seq<u8>, i: int, cur: Option<int>) -> Seq<(int, int)>
    decreases row.len() - i,
{
    if i < 0 || i >= row.len() {
        match cur {
            Option::None => Seq::<(int, int)>::empty(),
            Option::Some(s) => seq![(s, if i < 0 { i } else { row.len() as int })],
        }
    } else if is_digit(row[i]) {
        runs_acc(
            row,
            i + 1,
            match cur {
                Option::None => Some(i),
                Option::Some(s) => Some(s),
            },
        )
    } else {
        match cur {
            Option::None => runs_acc(row, i + 1, Option::None),
            Option::Some(s) => seq![(s, i)] + runs_acc(row, i + 1, Option::None),
        }
    }
}

pub open spec fn runs_of(row: Seq<u8>) -> Seq<(int, int)> {
    runs_acc(row, 0, Option::None)
}

/// A symbol cell is neither a digit nor a dot.
pub open spec fn is_symbol(b: u8) -> bool {
    !is_digit(b) && b != 46
}

/// The symbol columns of a row from position `i` on, with the gear flag.
pub open spec fn syms_acc(row: Seq<u8>, i: int) -> Seq<(int, bool)>
    decreases row.len() - i,
{
    if i < 0 || i >= row.len() {
        Seq::<(int, bool)>::empty()
    } else if is_symbol(row[i]) {
        seq![(i, row[i] == 42)] + syms_acc(row, i + 1)
    } else {
        syms_acc(row, i + 1)
    }
}

/// The numbers of one row as `(row, start, end, value)`, or nothing when a
/// value leaves `u32`.
pub open spec fn row_numbers(row: Seq<u8>, r: int) -> Option<Seq<(int, int, int, int)>> {
    if forall|k: int|
        0 <= k < runs_of(row).len() ==> uint_val(
            row.subrange((#[trigger] runs_of(row)[k]).0, runs_of(row)[k].1),
        ) <= u32::MAX {
        Some(
            runs_of(row).map_values(
                |p: (int, int)| (r, p.0, p.1, uint_val(row.subrange(p.0, p.1))),
            ),
        )
    } else {
        Option::None
    }
}

/// The numbers of the grid from row `r` on.
pub open spec fn grid_numbers(g: Seq<Seq<u8>>, r: int) -> Option<Seq<(int, int, int, int)>>
    decreases g.len() - r,
{
    if r < 0 || r >= g.len() {
        Some(Seq::<(int, int, int, int)>::empty())
    } else {
        match row_numbers(g[r], r) {
            Option::None => Option::None,
            Option::Some(ns) => match grid_numbers(g, r + 1) {
                Option::None => Option::None,
                Option::Some(rest) => Some(ns + rest),
            },
        }
    }
}

/// The symbols of the grid from row `r` on, as `(row, column, gear)`.
pub open spec fn grid_symbols(g: Seq<Seq<u8>>, r: int) -> Seq<(int, int, bool)>
    decreases g.len() - r,
{
    if r < 0 || r >= g.len() {
        Seq::<(int, int, bool)>::empty()
    } else {
        syms_acc(g[r], 0).map_values(|p: (int, bool)| (r, p.0, p.1)) + grid_symbols(g, r + 1)
    }
}

/// Whether a symbol at `(sr, sc)` touches the number spanning columns
/// `[ns, ne)` of row `nr`, diagonals included.
pub open spec fn adjacent(nr: int, ns: int, ne: int, sr: int, sc: int) -> bool {
    &&& sr >= nr - 1
    &&& sr <= nr + 1
    &&& sc >= ns - 1
    &&& sc <= ne
}

pub open spec fn any_adjacent(n: (int, int, int, int), ss: Seq<(int, int, bool)>) -> bool {
    exists|k: int|
        0 <= k < ss.len() && adjacent(n.0, n.1, n.2, (#[trigger] ss[k]).0, ss[k].1)
}

/// The sum of the values of the numbers at positions `i` and beyond that
/// touch some symbol.
pub open spec fn part_sum(
    ns: Seq<(int, int, int, int)>,
    ss: Seq<(int, int, bool)>,
    i: int,
) -> int
    decreases ns.len() - i,
{
    if i < 0 || i >= ns.len() {
        0
    } else {
        (if any_adjacent(ns[i], ss) {
            ns[i].3
        } else {
            0int
        }) + part_sum(ns, ss, i + 1)
    }
}

/// How many numbers touch the symbol at `(sr, sc)`.
pub open spec fn adj_count(ns: Seq<(int, int, int, int)>, sr: int, sc: int, i: int) -> int
    decreases ns.len() - i,
{
    if i < 0 || i >= ns.len() {
        0
    } else {
        (if adjacent(ns[i].0, ns[i].1, ns[i].2, sr, sc) {
            1int
        } else {
            0int
        }) + adj_count(ns, sr, sc, i + 1)
    }
}

/// The product of the values of the numbers touching `(sr, sc)`.
pub open spec fn adj_product(ns: Seq<(int, int, int, int)>, sr: int, sc: int, i: int) -> int
    decreases ns.len() - i,
{
    if i < 0 || i >= ns.len() {
        1
    } else {
        (if adjacent(ns[i].0, ns[i].1, ns[i].2, sr, sc) {
            ns[i].3
        } else {
            1int
        }) * adj_product(ns, sr, sc, i + 1)
    }
}

/// The sum of gear ratios: over every `*` symbol touching exactly two
/// numbers, the product of those two values.
pub open spec fn gear_sum(
    ns: Seq<(int, int, int, int)>,
    ss: Seq<(int, int, bool)>,
    j: int,
) -> int
    decreases ss.len() - j,
{
    if j < 0 || j >= ss.len() {
        0
    } else {
        (if ss[j].2 && adj_count(ns, ss[j].0, ss[j].1, 0) == 2 {
            adj_product(ns, ss[j].0, ss[j].1, 0)
        } else {
            0int
        }) + gear_sum(ns, ss, j + 1)
    }
}

pub open spec fn num_views(v: Seq<Number>) -> Seq<(int, int, int, int)> {
    v.map_values(
        |n: Number| (n.row as int, n.column as int, n.column + n.length, n.value as int),
    )
}

pub open spec fn sym_views(v: Seq<Symbol>) -> Seq<(int, int, bool)> {
    v.map_values(|s: Symbol| (s.row as int, s.column as int, s.maybe_gear))
}

/// Parses the digit runs of one row into numbers.
fn parse_numbers_row(row: &[u8], r: usize) -> (out: Option<Vec<Number>>)
    ensures
        out is Some <==> row_numbers(row@, r as int) is Some,
        out matches Some(v) ==> Some(num_views(v@)) == row_numbers(row@, r as int),
{
    let ghost target = runs_of(row@);
    let mut nums: Vec<Number> = Vec::new();
    let ghost mut done: Seq<(int, int)> = Seq::empty();
    let mut start: usize = 0;
    let mut in_run = false;
    let mut i: usize = 0;
    proof {
        assert(done + runs_acc(row@, 0, Option::None) =~= runs_acc(row@, 0, Option::None));
    }
    while i < row.len()
        invariant
            0 <= i <= row@.len(),
            in_run ==> 0 <= start < i,
            in_run ==> (forall|k: int| start <= k < i ==> is_digit(row@[k])),
            target == runs_of(row@),
            target == done + runs_acc(
                row@,
                i as int,
                if in_run {
                    Some(start as int)
                } else {
                    Option::<int>::None
                },
            ),
            nums@.len() == done.len(),
            forall|k: int|
                0 <= k < done.len() ==> #[trigger] num_views(nums@)[k] == (
                    r as int,
                    done[k].0,
                    done[k].1,
                    uint_val(row@.subrange(done[k].0, done[k].1)),
                ) && uint_val(row@.subrange(done[k].0, done[k].1)) <= u32::MAX,
        decreases row@.len() - i,
    {
        let b = row[i];
        if 48 <= b && b <= 57 {
            if !in_run {
                in_run = true;
                start = i;
            }
        } else {
            if in_run {
                let piece = vstd::slice::slice_subrange(row, start, i);
                proof {
                    assert(piece@ =~= row@.subrange(start as int, i as int));
                    assert(crate::text::is_digits(piece@));
                }
                let val = match parse_u64(piece) {
                    Some(v) => v,
                    None => {
                        proof {
                            assert(target[done.len() as int] == (start as int, i as int));
                            crate::text::lemma_uint_val_nonneg(piece@);
                        }
                        return None;
                    },
                };
                proof {
                    crate::text::lemma_uint_val_nonneg(piece@);
                }
                if val > u32::MAX as u64 {
                    proof {
                        assert(target[done.len() as int] == (start as int, i as int));
                    }
                    return None;
                }
                let ghost prev = nums@;
                let ghost old_done = done;
                nums.push(
                    Number { row: r, column: start, length: i - start, value: val as u32 },
                );
                proof {
                    done = old_done + seq![(start as int, i as int)];
                    assert(old_done + (seq![(start as int, i as int)] + runs_acc(
                        row@,
                        i as int + 1,
                        Option::<int>::None,
                    )) =~= done + runs_acc(row@, i as int + 1, Option::<int>::None));
                    assert forall|k: int| 0 <= k < done.len() implies #[trigger] num_views(
                        nums@,
                    )[k] == (
                        r as int,
                        done[k].0,
                        done[k].1,
                        uint_val(row@.subrange(done[k].0, done[k].1)),
                    ) && uint_val(row@.subrange(done[k].0, done[k].1)) <= u32::MAX by {
                        if k < done.len() - 1 {
                            assert(num_views(prev)[k] == (
                                r as int,
                                done[k].0,
                                done[k].1,
                                uint_val(row@.subrange(done[k].0, done[k].1)),
                            ));
                        }
                    }
                }
                in_run = false;
            }
        }
        i = i + 1;
    }
    if in_run {
        let piece = vstd::slice::slice_subrange(row, start, row.len());
        proof {
            assert(piece@ =~= row@.subrange(start as int, row@.len() as int));
            assert(crate::text::is_digits(piece@));
            assert(runs_acc(row@, row@.len() as int, Some(start as int)) =~= seq![
                (start as int, row@.len() as int),
            ]);
        }
        let val = match parse_u64(piece) {
            Some(v) => v,
            None => {
                proof {
                    assert(target[done.len() as int] == (start as int, row@.len() as int));
                    crate::text::lemma_uint_val_nonneg(piece@);
                }
                return None;
            },
        };
        proof {
            crate::text::lemma_uint_val_nonneg(piece@);
        }
        if val > u32::MAX as u64 {
            proof {
                assert(target[done.len() as int] == (start as int, row@.len() as int));
            }
            return None;
        }
        let ghost prev = nums@;
        nums.push(
            Number { row: r, column: start, length: row.len() - start, value: val as u32 },
        );
        proof {
            done = done + seq![(start as int, row@.len() as int)];
            assert forall|k: int| 0 <= k < done.len() implies #[trigger] num_views(nums@)[k]
                == (
                r as int,
                done[k].0,
                done[k].1,
                uint_val(row@.subrange(done[k].0, done[k].1)),
            ) && uint_val(row@.subrange(done[k].0, done[k].1)) <= u32::MAX by {
                if k < done.len() - 1 {
                    assert(num_views(prev)[k] == (
                        r as int,
                        done[k].0,
                        done[k].1,
                        uint_val(row@.subrange(done[k].0, done[k].1)),
                    ));
                }
            }
        }
    } else {
        proof {
            assert(runs_acc(row@, row@.len() as int, Option::<int>::None) =~= Seq::<(
                int,
                int,
            )>::empty());
        }
    }
    proof {
        assert(done + Seq::<(int, int)>::empty() =~= done);
        assert(target == done);
        assert forall|k: int|
            0 <= k < runs_of(row@).len() implies uint_val(
            row@.subrange((#[trigger] runs_of(row@)[k]).0, runs_of(row@)[k].1),
        ) <= u32::MAX by {
            assert(num_views(nums@)[k].3 == uint_val(row@.subrange(done[k].0, done[k].1)));
        }
        assert(num_views(nums@) =~= row_numbers(row@, r as int)->0);
    }
    Some(nums)
}

/// Collects the symbols of one row.
fn parse_symbols_row(row: &[u8], r: usize) -> (out: Vec<Symbol>)
    ensures
        sym_views(out@) == syms_acc(row@, 0).map_values(|p: (int, bool)| (r as int, p.0, p.1)),
{
    let mut syms: Vec<Symbol> = Vec::new();
    let mut i: usize = 0;
    let ghost tag = |p: (int, bool)| (r as int, p.0, p.1);
    proof {
        assert(sym_views(syms@) + syms_acc(row@, 0).map_values(tag) =~= syms_acc(
            row@,
            0,
        ).map_values(tag));
    }
    while i < row.len()
        invariant
            0 <= i <= row@.len(),
            tag == (|p: (int, bool)| (r as int, p.0, p.1)),
            syms_acc(row@, 0).map_values(tag) == sym_views(syms@) + syms_acc(
                row@,
                i as int,
            ).map_values(tag),
        decreases row@.len() - i,
    {
        let b = row[i];
        if !(48 <= b && b <= 57) && b != 46 {
            let ghost prev = sym_views(syms@);
            syms.push(Symbol { row: r, column: i, maybe_gear: b == 42 });
            proof {
                assert(sym_views(syms@) =~= prev.push((r as int, i as int, row@[i as int] == 42)));
                assert((seq![(i as int, row@[i as int] == 42)] + syms_acc(
                    row@,
                    i as int + 1,
                )).map_values(tag) =~= seq![(r as int, i as int, row@[i as int] == 42)]
                    + syms_acc(row@, i as int + 1).map_values(tag));
                assert(prev + (seq![(r as int, i as int, row@[i as int] == 42)] + syms_acc(
                    row@,
                    i as int + 1,
                ).map_values(tag)) =~= sym_views(syms@) + syms_acc(
                    row@,
                    i as int + 1,
                ).map_values(tag));
            }
        } else {
            proof {
                assert(syms_acc(row@, i as int).map_values(tag) =~= syms_acc(
                    row@,
                    i as int + 1,
                ).map_values(tag));
            }
        }
        i = i + 1;
    }
    proof {
        assert(syms_acc(row@, row@.len() as int).map_values(tag) =~= Seq::<(
            int,
            int,
            bool,
        )>::empty());
        assert(sym_views(syms@) + Seq::<(int, int, bool)>::empty() =~= sym_views(syms@));
    }
    syms
}

/// Parses the whole grid into its numbers and symbols.
pub fn parse_input(input: &str) -> (out: Option<Engine>)
    ensures
        out is Some <==> grid_numbers(lines_of(input.spec_bytes()), 0) is Some,
        out matches Some(e) ==> Some(num_views(e.numbers@)) == grid_numbers(
            lines_of(input.spec_bytes()),
            0,
        ) && sym_views(e.symbols@) == grid_symbols(lines_of(input.spec_bytes()), 0),
{
    let bytes = input.as_bytes();
    let ls = lines(bytes);
    let ghost lv = lines_of(input.spec_bytes());
    let mut numbers: Vec<Number> = Vec::new();
    let mut symbols: Vec<Symbol> = Vec::new();
    let mut r: usize = 0;
    proof {
        match grid_numbers(lv, 0) {
            Option::None => {},
            Option::Some(ns) => {
                assert(num_views(numbers@) + ns =~= ns);
            },
        }
        assert(sym_views(symbols@) + grid_symbols(lv, 0) =~= grid_symbols(lv, 0));
    }
    while r < ls.len()
        invariant
            0 <= r <= ls@.len(),
            ls.deep_view() == lv,
            lv == lines_of(input.spec_bytes()),
            (match grid_numbers(lv, r as int) {
                Option::None => Option::<Seq<(int, int, int, int)>>::None,
                Option::Some(ns) => Some(num_views(numbers@) + ns),
            }) == grid_numbers(lv, 0),
            sym_views(symbols@) + grid_symbols(lv, r as int) == grid_symbols(lv, 0),
        decreases ls.len() - r,
    {
        proof {
            assert(ls@[r as int].deep_view() =~= ls@[r as int]@);
            assert(lv[r as int] == ls@[r as int]@);
        }
        let row_nums = match parse_numbers_row(ls[r].as_slice(), r) {
            Some(v) => v,
            None => {
                return None;
            },
        };
        let ghost prev_n = num_views(numbers@);
        let ghost added_n = num_views(row_nums@);
        let mut t: usize = 0;
        let ghost rn = row_nums@;
        while t < row_nums.len()
            invariant
                0 <= t <= rn.len(),
                rn == row_nums@,
                numbers@.len() == prev_n.len() + t,
                num_views(numbers@) =~= prev_n + num_views(rn).take(t as int),
            decreases rn.len() - t,
        {
            numbers.push(row_nums[t]);
            proof {
                assert(num_views(numbers@) =~= (prev_n + num_views(rn).take(t as int)).push(
                    num_views(rn)[t as int],
                ));
                assert((prev_n + num_views(rn).take(t as int)).push(num_views(rn)[t as int])
                    =~= prev_n + num_views(rn).take(t as int + 1));
            }
            t = t + 1;
        }
        proof {
            assert(num_views(rn).take(rn.len() as int) =~= num_views(rn));
        }
        let row_syms = parse_symbols_row(ls[r].as_slice(), r);
        let ghost prev_s = sym_views(symbols@);
        let mut u: usize = 0;
        let ghost rs = row_syms@;
        while u < row_syms.len()
            invariant
                0 <= u <= rs.len(),
                rs == row_syms@,
                symbols@.len() == prev_s.len() + u,
                sym_views(symbols@) =~= prev_s + sym_views(rs).take(u as int),
            decreases rs.len() - u,
        {
            symbols.push(row_syms[u]);
            proof {
                assert(sym_views(symbols@) =~= (prev_s + sym_views(rs).take(u as int)).push(
                    sym_views(rs)[u as int],
                ));
                assert((prev_s + sym_views(rs).take(u as int)).push(sym_views(rs)[u as int])
                    =~= prev_s + sym_views(rs).take(u as int + 1));
            }
            u = u + 1;
        }
        proof {
            assert(sym_views(rs).take(rs.len() as int) =~= sym_views(rs));
            assert(grid_numbers(lv, r as int) matches Some(ns) ==> prev_n + (added_n
                + (grid_numbers(lv, r as int + 1)->0)) =~= (prev_n + added_n) + (grid_numbers(
                lv,
                r as int + 1,
            )->0));
            assert(prev_s + (sym_views(rs).map_values(|x: (int, int, bool)| x) + grid_symbols(
                lv,
                r as int + 1,
            )) =~= (prev_s + sym_views(rs)) + grid_symbols(lv, r as int + 1));
            assert(syms_acc(lv[r as int], 0).map_values(
                |p: (int, bool)| (r as int, p.0, p.1),
            ) + grid_symbols(lv, r as int + 1) =~= grid_symbols(lv, r as int));
        }
        r = r + 1;
    }
    proof {
        assert(grid_numbers(lv, ls@.len() as int) == Some(Seq::<(int, int, int, int)>::empty()));
        assert(grid_symbols(lv, ls@.len() as int) =~= Seq::<(int, int, bool)>::empty());
        match grid_numbers(lv, 0) {
            Option::None => {},
            Option::Some(ns) => {
                assert(num_views(numbers@) + Seq::<(int, int, int, int)>::empty() =~= num_views(
                    numbers@,
                ));
            },
        }
        assert(sym_views(symbols@) + Seq::<(int, int, bool)>::empty() =~= sym_views(symbols@));
    }
    Some(Engine { numbers, symbols })
}

/// Whether the symbol touches the number, diagonals included.
pub fn is_adjacent(number: &Number, symbol: &Symbol) -> (r: bool)
    ensures
        r == adjacent(
            number.row as int,
            number.column as int,
            number.column + number.length,
            symbol.row as int,
            symbol.column as int,
        ),
{
    (symbol.row as u128 + 1 >= number.row as u128) && (symbol.row as u128 <= number.row as u128
        + 1) && (symbol.column as u128 + 1 >= number.column as u128) && (symbol.column as u128
        <= number.column as u128 + number.length as u128)
}

/// Whether any symbol touches the number.
pub fn is_any_adjacent(number: &Number, symbols: &Vec<Symbol>) -> (r: bool)
    ensures
        r == any_adjacent(
            (number.row as int, number.column as int, number.column + number.length,
            number.value as int),
            sym_views(symbols@),
        ),
{
    let ghost ss = sym_views(symbols@);
    let mut k: usize = 0;
    while k < symbols.len()
        invariant
            0 <= k <= symbols@.len(),
            ss == sym_views(symbols@),
            forall|j: int|
                0 <= j < k ==> !adjacent(
                    number.row as int,
                    number.column as int,
                    number.column + number.length,
                    (#[trigger] ss[j]).0,
                    ss[j].1,
                ),
        decreases symbols.len() - k,
    {
        if is_adjacent(number, &symbols[k]) {
            proof {
                assert(adjacent(
                    number.row as int,
                    number.column as int,
                    number.column + number.length,
                    ss[k as int].0,
                    ss[k as int].1,
                ));
            }
            return true;
        }
        k = k + 1;
    }
    false
}

/// The gear ratio of a candidate symbol: the product of the two touching
/// numbers, or nothing when it does not touch exactly two.
pub fn gear_ratio(numbers: &Vec<Number>, maybe_gear: &Symbol) -> (r: Option<u64>)
    ensures
        ({
            let ns = num_views(numbers@);
            let sr = maybe_gear.row as int;
            let sc = maybe_gear.column as int;
            &&& (r is Some <==> adj_count(ns, sr, sc, 0) == 2)
            &&& (r matches Some(v) ==> v as int == adj_product(ns, sr, sc, 0))
        }),
{
    let ghost ns = num_views(numbers@);
    let ghost sr = maybe_gear.row as int;
    let ghost sc = maybe_gear.column as int;
    let mut count: usize = 0;
    let mut product: u64 = 1;
    let mut i: usize = 0;
    while i < numbers.len()
        invariant
            0 <= i <= numbers@.len(),
            ns == num_views(numbers@),
            sr == maybe_gear.row as int,
            sc == maybe_gear.column as int,
            count <= i,
            count <= 2,
            adj_count(ns, sr, sc, 0) == count + adj_count(ns, sr, sc, i as int),
            (product as int) * adj_product(ns, sr, sc, i as int) == adj_product(ns, sr, sc, 0),
            count == 0 ==> product == 1,
            count == 1 ==> product <= u32::MAX,
        decreases numbers.len() - i,
    {
        let n = numbers[i];
        if is_adjacent(&n, maybe_gear) {
            if count >= 2 {
                proof {
                    lemma_adj_count_bounds(ns, sr, sc, i as int + 1);
                    assert(adj_count(ns, sr, sc, i as int) == 1 + adj_count(
                        ns,
                        sr,
                        sc,
                        i as int + 1,
                    ));
                }
                return None;
            }
            let ghost a_rest = adj_product(ns, sr, sc, i as int + 1);
            proof {
                assert(n.value <= u32::MAX);
                assert((product as int) * (n.value as int) <= 0xffff_ffffu64 * 0xffff_ffffu64)
                    by (nonlinear_arith)
                    requires
                        0 <= product <= 0xffff_ffffu64,
                        0 <= n.value <= 0xffff_ffffu64,
                ;
                assert(adj_product(ns, sr, sc, i as int) == (n.value as int) * a_rest);
                assert(((product as int) * (n.value as int)) * a_rest == (product as int) * ((
                n.value as int) * a_rest)) by (nonlinear_arith);
            }
            product = product * (n.value as u64);
            count = count + 1;
        }
        i = i + 1;
    }
    if count == 2 {
        Some(product)
    } else {
        None
    }
}

/// The sum of all part numbers: numbers touching at least one symbol.
/// Nothing when a number's value or the sum leaves `u32`.
pub fn part_one(input: &str) -> (r: Option<u32>)
    ensures
        ({
            let g = lines_of(input.spec_bytes());
            let gn = grid_numbers(g, 0);
            &&& (r is Some <==> (gn is Some && part_sum(gn->0, grid_symbols(g, 0), 0)
                <= u32::MAX))
            &&& (r matches Some(v) ==> v as int == part_sum(gn->0, grid_symbols(g, 0), 0))
        }),
{
    let engine = match parse_input(input) {
        Some(e) => e,
        None => {
            return None;
        },
    };
    let ghost ns = num_views(engine.numbers@);
    let ghost ss = sym_views(engine.symbols@);
    let mut total: u128 = 0;
    let mut i: usize = 0;
    while i < engine.numbers.len()
        invariant
            0 <= i <= engine.numbers@.len(),
            ns == num_views(engine.numbers@),
            ss == sym_views(engine.symbols@),
            Some(ns) == grid_numbers(lines_of(input.spec_bytes()), 0),
            ss == grid_symbols(lines_of(input.spec_bytes()), 0),
            total as int <= (i as int) * (u32::MAX as int),
            part_sum(ns, ss, 0) == total + part_sum(ns, ss, i as int),
        decreases engine.numbers.len() - i,
    {
        let n = engine.numbers[i];
        if is_any_adjacent(&n, &engine.symbols) {
            total = total + n.value as u128;
        }
        i = i + 1;
    }
    if total > u32::MAX as u128 {
        return None;
    }
    Some(total as u32)
}

/// The sum of gear ratios: for every `*` touching exactly two part numbers,
/// the product of those two values.  Nothing when the sum leaves `u32`.
pub fn part_two(input: &str) -> (r: Option<u32>)
    ensures
        ({
            let g = lines_of(input.spec_bytes());
            let gn = grid_numbers(g, 0);
            &&& (r is Some <==> (gn is Some && gear_sum(gn->0, grid_symbols(g, 0), 0)
                <= u32::MAX))
            &&& (r matches Some(v) ==> v as int == gear_sum(gn->0, grid_symbols(g, 0), 0))
        }),
{
    let engine = match parse_input(input) {
        Some(e) => e,
        None => {
            return None;
        },
    };
    let ghost ns = num_views(engine.numbers@);
    let ghost ss = sym_views(engine.symbols@);
    let mut total: u128 = 0;
    let mut j: usize = 0;
    while j < engine.symbols.len()
        invariant
            0 <= j <= engine.symbols@.len(),
            ns == num_views(engine.numbers@),
            ss == sym_views(engine.symbols@),
            Some(ns) == grid_numbers(lines_of(input.spec_bytes()), 0),
            ss == grid_symbols(lines_of(input.spec_bytes()), 0),
            total as int <= (j as int) * (0xffff_ffff_ffff_ffffu64 as int),
            gear_sum(ns, ss, 0) == total + gear_sum(ns, ss, j as int),
        decreases engine.symbols.len() - j,
    {
        let s = engine.symbols[j];
        if s.maybe_gear {
            match gear_ratio(&engine.numbers, &s) {
                Some(p) => {
                    total = total + p as u128;
                },
                None => {},
            }
        }
        j = j + 1;
    }
    if total > u32::MAX as u128 {
        return None;
    }
    Some(total as u32)
}

proof fn lemma_adj_count_bounds(ns: Seq<(int, int, int, int)>, sr: int, sc: int, i: int)
    ensures
        adj_count(ns, sr, sc, i) >= 0,
    decreases ns.len() - i,
{
    if 0 <= i < ns.len() {
        lemma_adj_count_bounds(ns, sr, sc, i + 1);
    }
}

} // verus!
