//! Engine schematic: numbers next to symbols in a character grid.

use vstd::prelude::*;
use vstd::string::StringSliceAdditionalSpecFns;
use crate::text::{lines_of, split_lines};

verus! {

pub open spec fn is_digit(c: char) -> bool {
    '0' <= c && c <= '9'
}

pub open spec fn digit_value(c: char) -> int {
    c as int - '0' as int
}

/// The decimal value of a run of digits.
pub open spec fn num_value(s: Seq<char>) -> int
    decreases s.len(),
{
    if s.len() == 0 {
        0
    } else {
        num_value(s.drop_last()) * 10 + digit_value(s.last())
    }
}

/// First index of the digit run through `pos`.
pub open spec fn run_start(line: Seq<char>, pos: int) -> int
    decreases pos,
{
    if pos > 0 && pos <= line.len() && is_digit(line[pos - 1]) {
        run_start(line, pos - 1)
    } else {
        pos
    }
}

/// One past the last index of the digit run through `pos`.
pub open spec fn run_end(line: Seq<char>, pos: int) -> int
    decreases line.len() - pos,
{
    if 0 <= pos && pos + 1 < line.len() && is_digit(line[pos + 1]) {
        run_end(line, pos + 1)
    } else {
        pos + 1
    }
}

/// The number whose digits include position `pos` of `line`, if `line[pos]` is a digit.
pub open spec fn number_at(line: Seq<char>, pos: int) -> Option<int> {
    if 0 <= pos < line.len() && is_digit(line[pos]) {
        Some(num_value(line.subrange(run_start(line, pos), run_end(line, pos))))
    } else {
        None
    }
}

/// Every number of the grid fits in a `u32`.
pub open spec fn numbers_fit(mat: Seq<Seq<char>>) -> bool {
    forall|r: int, c: int|
        0 <= r < mat.len() ==> (#[trigger] number_at(mat[r], c) matches Some(v) ==> v <= u32::MAX)
}

proof fn lemma_run_start(line: Seq<char>, pos: int)
    requires
        0 <= pos < line.len(),
    ensures
        0 <= run_start(line, pos) <= pos,
        forall|t: int| run_start(line, pos) <= t < pos ==> is_digit(#[trigger] line[t]),
        run_start(line, pos) > 0 ==> !is_digit(line[run_start(line, pos) - 1]),
    decreases pos,
{
    if pos > 0 && is_digit(line[pos - 1]) {
        lemma_run_start(line, pos - 1);
    }
}

proof fn lemma_run_end(line: Seq<char>, pos: int)
    requires
        0 <= pos < line.len(),
    ensures
        pos < run_end(line, pos) <= line.len(),
        forall|t: int| pos < t < run_end(line, pos) ==> is_digit(#[trigger] line[t]),
        run_end(line, pos) < line.len() ==> !is_digit(line[run_end(line, pos)]),
    decreases line.len() - pos,
{
    if pos + 1 < line.len() && is_digit(line[pos + 1]) {
        lemma_run_end(line, pos + 1);
    }
}

proof fn lemma_num_value_prefix(s: Seq<char>, k: int)
    requires
        0 <= k <= s.len(),
        forall|t: int| 0 <= t < s.len() ==> is_digit(#[trigger] s[t]),
    ensures
        0 <= num_value(s.subrange(0, k)) <= num_value(s),
    decreases s.len(),
{
    if s.len() > 0 {
        let d = s.drop_last();
        if k == s.len() {
            assert(s.subrange(0, k) =~= s);
        } else {
            assert(d.subrange(0, k) =~= s.subrange(0, k));
        }
        lemma_num_value_prefix(d, if k == s.len() { d.len() as int } else { k });
        assert(d.subrange(0, d.len() as int) =~= d);
        assert(is_digit(s[s.len() - 1]));
    }
}

/// The number that has a digit at `pos` of `line`, or `None` when `pos` is past the
/// end or holds no digit.
pub fn get_num(line: &Vec<char>, pos: usize) -> (r: Option<u32>)
    requires
        number_at(line@, pos as int) matches Some(v) ==> v <= u32::MAX,
    ensures
        r matches Some(v) ==> number_at(line@, pos as int) == Some(v as int),
        r is None <==> number_at(line@, pos as int) is None,
{
    if pos >= line.len() || !(line[pos] >= '0' && line[pos] <= '9') {
        return None;
    }
    let ghost l = line@;
    let ghost end = run_end(l, pos as int);
    proof {
        lemma_run_start(l, pos as int);
        lemma_run_end(l, pos as int);
    }
    let ghost start = run_start(l, pos as int);
    let mut p = pos;
    while p > 0 && line[p - 1] >= '0' && line[p - 1] <= '9'
        invariant
            l == line@,
            start <= p <= pos < l.len(),
            start == run_start(l, pos as int),
            run_start(l, p as int) == start,
        decreases p,
    {
        proof {
            lemma_run_start(l, p - 1);
        }
        p = p - 1;
    }
    assert(p == start);
    let ghost digits = l.subrange(start, end);
    proof {
        assert forall|t: int| 0 <= t < digits.len() implies is_digit(#[trigger] digits[t]) by {
            assert(digits[t] == l[start + t]);
        }
    }
    let mut num: u32 = 0;
    while p < line.len() && line[p] >= '0' && line[p] <= '9'
        invariant
            l == line@,
            0 <= start <= p <= end <= l.len(),
            digits == l.subrange(start, end),
            forall|t: int| 0 <= t < digits.len() ==> is_digit(#[trigger] digits[t]),
            end < l.len() ==> !is_digit(l[end]),
            num_value(digits) <= u32::MAX,
            num == num_value(l.subrange(start, p as int)),
        decreases l.len() - p,
    {
        assert(p < end);
        proof {
            lemma_num_value_prefix(digits, p - start + 1);
            assert(digits.subrange(0, p - start + 1) =~= l.subrange(start, p + 1));
            assert(l.subrange(start, p + 1).drop_last() =~= l.subrange(start, p as int));
        }
        num = num * 10 + (line[p] as u32 - '0' as u32);
        p = p + 1;
    }
    assert(p == end);
    Some(num)
}

/// The grid that a vector of rows holds.
pub open spec fn grid_view(mat: &Vec<Vec<char>>) -> Seq<Seq<char>> {
    Seq::new(mat@.len(), |r: int| mat@[r]@)
}

pub open spec fn num_in(mat: Seq<Seq<char>>, r: int, c: int) -> Option<int> {
    if 0 <= r < mat.len() {
        number_at(mat[r], c)
    } else {
        None
    }
}

pub open spec fn digit_at(mat: Seq<Seq<char>>, r: int, c: int) -> bool {
    0 <= r < mat.len() && 0 <= c < mat[r].len() && is_digit(mat[r][c])
}

pub open spec fn opt_seq(o: Option<int>) -> Seq<int> {
    match o {
        Some(v) => seq![v],
        None => Seq::empty(),
    }
}

/// The numbers found in row `r` over the columns `j - 1 ..= j + 1`, each number once:
/// the middle and left cells are read only when the cell to their right holds no digit.
pub open spec fn row_numbers(mat: Seq<Seq<char>>, r: int, j: int) -> Seq<int> {
    if 0 <= r < mat.len() {
        opt_seq(num_in(mat, r, j + 1)) + (if !digit_at(mat, r, j + 1) {
            opt_seq(num_in(mat, r, j))
        } else {
            Seq::empty()
        }) + (if !digit_at(mat, r, j) {
            opt_seq(num_in(mat, r, j - 1))
        } else {
            Seq::empty()
        })
    } else {
        Seq::empty()
    }
}

/// The numbers adjacent to cell `(i, j)`: left, right, then the rows above and below.
pub open spec fn numbers_around(mat: Seq<Seq<char>>, i: int, j: int) -> Seq<int> {
    opt_seq(num_in(mat, i, j - 1)) + opt_seq(num_in(mat, i, j + 1)) + row_numbers(mat, i - 1, j)
        + row_numbers(mat, i + 1, j)
}

pub open spec fn sum_of(s: Seq<int>) -> int
    decreases s.len(),
{
    if s.len() == 0 {
        0
    } else {
        sum_of(s.drop_last()) + s.last()
    }
}

pub open spec fn as_ints(v: Seq<u32>) -> Seq<int> {
    Seq::new(v.len(), |k: int| v[k] as int)
}

pub open spec fn opt_int(o: Option<u32>) -> Seq<int> {
    match o {
        Some(v) => seq![v as int],
        None => Seq::empty(),
    }
}

proof fn lemma_sum_prefix(s: Seq<int>, k: int)
    requires
        0 <= k <= s.len(),
        forall|t: int| 0 <= t < s.len() ==> 0 <= #[trigger] s[t],
    ensures
        0 <= sum_of(s.subrange(0, k)) <= sum_of(s),
    decreases s.len(),
{
    if s.len() > 0 {
        let d = s.drop_last();
        if k == s.len() {
            assert(s.subrange(0, k) =~= s);
            lemma_sum_prefix(d, d.len() as int);
            assert(d.subrange(0, d.len() as int) =~= d);
        } else {
            assert(d.subrange(0, k) =~= s.subrange(0, k));
            lemma_sum_prefix(d, k);
            lemma_sum_prefix(d, d.len() as int);
            assert(d.subrange(0, d.len() as int) =~= d);
        }
    }
}

fn num_at_cell(mat: &Vec<Vec<char>>, r: usize, c: usize) -> (o: Option<u32>)
    requires
        numbers_fit(grid_view(mat)),
    ensures
        opt_int(o) == opt_seq(num_in(grid_view(mat), r as int, c as int)),
{
    if r < mat.len() {
        assert(grid_view(mat)[r as int] == mat@[r as int]@);
        assert(number_at(grid_view(mat)[r as int], c as int) matches Some(v) ==> v <= u32::MAX);
        let o = get_num(&mat[r], c);
        assert(opt_int(o) =~= opt_seq(num_in(grid_view(mat), r as int, c as int)));
        o
    } else {
        None
    }
}

fn digit_cell(mat: &Vec<Vec<char>>, r: usize, c: usize) -> (b: bool)
    ensures
        b == digit_at(grid_view(mat), r as int, c as int),
{
    r < mat.len() && c < mat[r].len() && mat[r][c] >= '0' && mat[r][c] <= '9'
}

fn push_opt(out: &mut Vec<u32>, o: Option<u32>)
    ensures
        as_ints(final(out)@) =~= as_ints(old(out)@) + opt_int(o),
{
    if let Some(v) = o {
        out.push(v);
    }
}

/// The numbers adjacent to cell `(i, j)`, in the order of `numbers_around`.
#[verifier::rlimit(50)]
fn collect_around(mat: &Vec<Vec<char>>, i: usize, j: usize) -> (out: Vec<u32>)
    requires
        numbers_fit(grid_view(mat)),
        i < mat@.len(),
        j < mat@[i as int]@.len(),
    ensures
        as_ints(out@) =~= numbers_around(grid_view(mat), i as int, j as int),
{
    let ghost g = grid_view(mat);
    let height = mat.len();
    let width = mat[i].len();
    assert(i < height && j < width);
    let mut out: Vec<u32> = Vec::new();
    if j > 0 {
        push_opt(&mut out, num_at_cell(mat, i, j - 1));
    } else {
        assert(num_in(g, i as int, j - 1) is None);
    }
    push_opt(&mut out, num_at_cell(mat, i, j + 1));
    assert(as_ints(out@) =~= opt_seq(num_in(g, i as int, j - 1)) + opt_seq(
        num_in(g, i as int, j + 1),
    ));
    let ghost before_rows = as_ints(out@);
    if i > 0 {
        let r = i - 1;
        push_opt(&mut out, num_at_cell(mat, r, j + 1));
        if !digit_cell(mat, r, j + 1) {
            push_opt(&mut out, num_at_cell(mat, r, j));
        }
        if !digit_cell(mat, r, j) {
            if j > 0 {
                push_opt(&mut out, num_at_cell(mat, r, j - 1));
            } else {
                assert(num_in(g, r as int, j - 1) is None);
            }
        }
    }
    assert(as_ints(out@) =~= before_rows + row_numbers(g, i - 1, j as int));
    let ghost before_below = as_ints(out@);
    if i + 1 < mat.len() {
        let r = i + 1;
        push_opt(&mut out, num_at_cell(mat, r, j + 1));
        if !digit_cell(mat, r, j + 1) {
            push_opt(&mut out, num_at_cell(mat, r, j));
        }
        if !digit_cell(mat, r, j) {
            if j > 0 {
                push_opt(&mut out, num_at_cell(mat, r, j - 1));
            } else {
                assert(num_in(g, r as int, j - 1) is None);
            }
        }
    }
    assert(as_ints(out@) =~= before_below + row_numbers(g, i + 1, j as int));
    out
}

/// Sum of the numbers adjacent to the cell `(i, j)`.
pub fn get_sum_around_part(mat: &Vec<Vec<char>>, i: usize, j: usize) -> (r: u32)
    requires
        numbers_fit(grid_view(mat)),
        i < mat@.len(),
        j < mat@[i as int]@.len(),
        sum_of(numbers_around(grid_view(mat), i as int, j as int)) <= u32::MAX,
    ensures
        r == sum_of(numbers_around(grid_view(mat), i as int, j as int)),
{
    let nums = collect_around(mat, i, j);
    let ghost s = as_ints(nums@);
    let mut part_sum: u32 = 0;
    let mut k: usize = 0;
    while k < nums.len()
        invariant
            s == as_ints(nums@),
            k <= nums@.len(),
            sum_of(s) <= u32::MAX,
            part_sum == sum_of(s.subrange(0, k as int)),
        decreases nums@.len() - k,
    {
        proof {
            lemma_sum_prefix(s, k + 1);
            assert(s.subrange(0, k + 1).drop_last() =~= s.subrange(0, k as int));
        }
        part_sum = part_sum + nums[k];
        k = k + 1;
    }
    assert(s.subrange(0, s.len() as int) =~= s);
    part_sum
}

/// The product of the two numbers adjacent to a `*` at `(i, j)`, or `None` when the
/// cell is no `*` or does not have exactly two adjacent numbers.
pub open spec fn gear_ratio(mat: Seq<Seq<char>>, i: int, j: int) -> Option<int> {
    let around = numbers_around(mat, i, j);
    if 0 <= i < mat.len() && 0 <= j < mat[i].len() && mat[i][j] == '*' && around.len() == 2 {
        Some(around[0] * around[1])
    } else {
        None
    }
}

/// The gear ratio at `(i, j)`, if the cell is a gear.
pub fn get_gear_ratio(mat: &Vec<Vec<char>>, i: usize, j: usize) -> (r: Option<u32>)
    requires
        numbers_fit(grid_view(mat)),
        gear_ratio(grid_view(mat), i as int, j as int) matches Some(v) ==> v <= u32::MAX,
    ensures
        r matches Some(v) ==> gear_ratio(grid_view(mat), i as int, j as int) == Some(v as int),
        r is None <==> gear_ratio(grid_view(mat), i as int, j as int) is None,
{
    if i >= mat.len() || j >= mat[i].len() || mat[i][j] != '*' {
        return None;
    }
    let nums = collect_around(mat, i, j);
    if nums.len() == 2 {
        assert(as_ints(nums@)[0] == nums@[0] && as_ints(nums@)[1] == nums@[1]);
        Some(nums[0] * nums[1])
    } else {
        None
    }
}

proof fn lemma_number_at_nonneg(line: Seq<char>, pos: int)
    ensures
        number_at(line, pos) matches Some(v) ==> 0 <= v,
{
    if 0 <= pos < line.len() && is_digit(line[pos]) {
        lemma_run_start(line, pos);
        lemma_run_end(line, pos);
        let st = run_start(line, pos);
        let en = run_end(line, pos);
        let d = line.subrange(st, en);
        assert forall|t: int| 0 <= t < d.len() implies is_digit(#[trigger] d[t]) by {
            assert(d[t] == line[st + t]);
        }
        lemma_num_value_prefix(d, d.len() as int);
        assert(d.subrange(0, d.len() as int) =~= d);
    }
}

proof fn lemma_numbers_around_nonneg(mat: Seq<Seq<char>>, i: int, j: int)
    ensures
        forall|t: int|
            0 <= t < numbers_around(mat, i, j).len() ==> 0 <= #[trigger] numbers_around(mat, i, j)[t],
{
    assert forall|r: int, c: int| #[trigger] num_in(mat, r, c) is Some implies 0 <= num_in(
        mat,
        r,
        c,
    ).unwrap() by {
        if 0 <= r < mat.len() {
            lemma_number_at_nonneg(mat[r], c);
        }
    }
}

/// The text as a grid of characters, one row per line.
pub open spec fn char_grid(b: Seq<u8>) -> Seq<Seq<char>> {
    lines_of(b).map_values(|l: Seq<u8>| l.map_values(|c: u8| c as char))
}

/// A symbol is any character but a digit or `.`.
pub open spec fn is_symbol(c: char) -> bool {
    c != '.' && !is_digit(c)
}

/// What the cell `(i, j)` adds to the total: for a symbol, the sum of its adjacent
/// numbers, or with `gears` its gear ratio; nothing for other cells.
pub open spec fn cell_value(mat: Seq<Seq<char>>, i: int, j: int, gears: bool) -> int {
    if is_symbol(mat[i][j]) {
        if gears {
            match gear_ratio(mat, i, j) {
                Some(v) => v,
                None => 0,
            }
        } else {
            sum_of(numbers_around(mat, i, j))
        }
    } else {
        0
    }
}

pub open spec fn row_values(mat: Seq<Seq<char>>, i: int, gears: bool) -> Seq<int> {
    Seq::new(mat[i].len(), |j: int| cell_value(mat, i, j, gears))
}

pub open spec fn grid_values(mat: Seq<Seq<char>>, gears: bool) -> Seq<int> {
    Seq::new(mat.len(), |i: int| sum_of(row_values(mat, i, gears)))
}

/// Sum of the values of all cells of the grid.
pub open spec fn schematic_total(mat: Seq<Seq<char>>, gears: bool) -> int {
    sum_of(grid_values(mat, gears))
}

proof fn lemma_sum_nonneg(s: Seq<int>)
    requires
        forall|t: int| 0 <= t < s.len() ==> 0 <= #[trigger] s[t],
    ensures
        0 <= sum_of(s),
{
    lemma_sum_prefix(s, 0);
}

proof fn lemma_values_nonneg(mat: Seq<Seq<char>>, gears: bool)
    ensures
        forall|i: int, j: int|
            0 <= i < mat.len() && 0 <= j < mat[i].len() ==> 0 <= #[trigger] cell_value(mat, i, j, gears),
        forall|i: int| 0 <= i < mat.len() ==> 0 <= #[trigger] grid_values(mat, gears)[i],
{
    assert forall|i: int, j: int|
        0 <= i < mat.len() && 0 <= j < mat[i].len() implies 0 <= #[trigger] cell_value(mat, i, j, gears) by {
        lemma_numbers_around_nonneg(mat, i, j);
        lemma_sum_nonneg(numbers_around(mat, i, j));
        let a = numbers_around(mat, i, j);
        if a.len() == 2 {
            assert(0 <= a[0] && 0 <= a[1]);
            assert(0 <= a[0] * a[1]) by (nonlinear_arith)
                requires
                    0 <= a[0] && 0 <= a[1],
            ;
        }
    }
    assert forall|i: int| 0 <= i < mat.len() implies 0 <= #[trigger] grid_values(mat, gears)[i] by {
        lemma_sum_nonneg(row_values(mat, i, gears));
    }
}

/// The text as a grid of characters.
fn to_char_grid(input: &str) -> (mat: Vec<Vec<char>>)
    ensures
        grid_view(&mat) =~= char_grid(input.spec_bytes()),
{
    let lines = split_lines(input);
    let ghost ls = lines_of(input.spec_bytes());
    let mut mat: Vec<Vec<char>> = Vec::new();
    let mut i: usize = 0;
    while i < lines.len()
        invariant
            lines@.len() == ls.len(),
            forall|k: int| 0 <= k < lines@.len() ==> #[trigger] lines@[k]@ == ls[k],
            i <= lines@.len(),
            mat@.len() == i,
            forall|k: int|
                0 <= k < i ==> #[trigger] mat@[k]@ == ls[k].map_values(|c: u8| c as char),
        decreases lines@.len() - i,
    {
        let line = &lines[i];
        let mut row: Vec<char> = Vec::new();
        let mut j: usize = 0;
        while j < line.len()
            invariant
                j <= line@.len(),
                row@ == line@.subrange(0, j as int).map_values(|c: u8| c as char),
            decreases line@.len() - j,
        {
            row.push(line[j] as char);
            assert(line@.subrange(0, j + 1) =~= line@.subrange(0, j as int).push(line@[j as int]));
            j = j + 1;
        }
        assert(line@.subrange(0, line@.len() as int) =~= line@);
        assert(lines@[i as int]@ == ls[i as int]);
        mat.push(row);
        i = i + 1;
    }
    mat
}

/// Sum over all symbols of what `cell_value` gives them.
fn sum_over_symbols(mat: &Vec<Vec<char>>, gears: bool) -> (r: u32)
    requires
        numbers_fit(grid_view(mat)),
        schematic_total(grid_view(mat), gears) <= u32::MAX,
    ensures
        r == schematic_total(grid_view(mat), gears),
{
    let ghost g = grid_view(mat);
    let ghost gv = grid_values(g, gears);
    proof {
        lemma_values_nonneg(g, gears);
    }
    let mut sum: u32 = 0;
    let mut i: usize = 0;
    while i < mat.len()
        invariant
            g == grid_view(mat),
            gv == grid_values(g, gears),
            numbers_fit(g),
            forall|t: int| 0 <= t < gv.len() ==> 0 <= #[trigger] gv[t],
            forall|a: int, b: int|
                0 <= a < g.len() && 0 <= b < g[a].len() ==> 0 <= #[trigger] cell_value(g, a, b, gears),
            sum_of(gv) <= u32::MAX,
            i <= g.len(),
            sum == sum_of(gv.subrange(0, i as int)),
        decreases g.len() - i,
    {
        let ghost rv = row_values(g, i as int, gears);
        proof {
            lemma_sum_prefix(gv, i + 1);
            assert(gv.subrange(0, i + 1).drop_last() =~= gv.subrange(0, i as int));
        }
        let mut j: usize = 0;
        while j < mat[i].len()
            invariant
                g == grid_view(mat),
                gv == grid_values(g, gears),
                numbers_fit(g),
                i < g.len(),
                rv == row_values(g, i as int, gears),
                forall|t: int| 0 <= t < rv.len() ==> 0 <= #[trigger] rv[t],
                j <= rv.len(),
                sum_of(gv.subrange(0, i as int)) + sum_of(rv) <= u32::MAX,
                sum == sum_of(gv.subrange(0, i as int)) + sum_of(rv.subrange(0, j as int)),
            decreases rv.len() - j,
        {
            proof {
                lemma_sum_prefix(rv, j + 1);
                assert(rv.subrange(0, j + 1).drop_last() =~= rv.subrange(0, j as int));
            }
            let c = mat[i][j];
            assert(c == g[i as int][j as int]);
            if c != '.' && !(c >= '0' && c <= '9') {
                if gears {
                    let v = get_gear_ratio(mat, i, j);
                    if let Some(v) = v {
                        sum = sum + v;
                    }
                } else {
                    let v = get_sum_around_part(mat, i, j);
                    sum = sum + v;
                }
            }
            j = j + 1;
        }
        assert(rv.subrange(0, rv.len() as int) =~= rv);
        i = i + 1;
    }
    assert(gv.subrange(0, gv.len() as int) =~= gv);
    sum
}

/// Sum of all numbers adjacent to a symbol, each counted once per symbol.
pub fn calc_solution_1(input: &str) -> (r: u32)
    requires
        numbers_fit(char_grid(input.spec_bytes())),
        schematic_total(char_grid(input.spec_bytes()), false) <= u32::MAX,
    ensures
        r == schematic_total(char_grid(input.spec_bytes()), false),
{
    let mat = to_char_grid(input);
    sum_over_symbols(&mat, false)
}

/// Sum of the gear ratios of all gears.
pub fn calc_solution_2(input: &str) -> (r: u32)
    requires
        numbers_fit(char_grid(input.spec_bytes())),
        schematic_total(char_grid(input.spec_bytes()), true) <= u32::MAX,
    ensures
        r == schematic_total(char_grid(input.spec_bytes()), true),
{
    let mat = to_char_grid(input);
    sum_over_symbols(&mat, true)
}

} // verus!
