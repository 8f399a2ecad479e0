//! A grid of tree heights: which trees are visible from outside, and how far each tree
//! can see.

use vstd::prelude::*;
use vstd::string::StringSliceAdditionalSpecFns;
use crate::text::{lines_of, split_lines};

verus! {

/// The grid that a vector of rows holds.
pub open spec fn grid_view(map: &Vec<Vec<u32>>) -> Seq<Seq<u32>> {
    Seq::new(map@.len(), |r: int| map@[r]@)
}

/// A nonempty grid whose rows all have the (nonzero) length of the first.
pub open spec fn grid_rect(m: Seq<Seq<u32>>) -> bool {
    &&& m.len() >= 1
    &&& m[0].len() >= 1
    &&& forall|r: int| 0 <= r < m.len() ==> #[trigger] m[r].len() == m[0].len()
}

/// A rectangular grid of at least three rows and three columns.
pub open spec fn grid_ok(m: Seq<Seq<u32>>) -> bool {
    &&& grid_rect(m)
    &&& m.len() >= 3
    &&& m[0].len() >= 3
}

/// `v` is the tallest tree of column `c` over the rows `from .. to` (a nonempty range).
pub open spec fn is_col_max(m: Seq<Seq<u32>>, c: int, from: int, to: int, v: int) -> bool {
    &&& forall|k: int| from <= k < to ==> #[trigger] m[k][c] <= v
    &&& exists|k: int| from <= k < to && #[trigger] m[k][c] == v
}

/// `v` is the tallest tree of row `r` over the columns `from .. to` (a nonempty range).
pub open spec fn is_row_max(m: Seq<Seq<u32>>, r: int, from: int, to: int, v: int) -> bool {
    &&& forall|k: int| from <= k < to ==> #[trigger] m[r][k] <= v
    &&& exists|k: int| from <= k < to && #[trigger] m[r][k] == v
}

/// The tree at `(i, j)` can be seen from outside the grid: every tree between it and
/// some edge, in a straight line, is lower.
pub open spec fn tree_visible(m: Seq<Seq<u32>>, i: int, j: int) -> bool {
    let t = m[i][j];
    ||| forall|k: int| 0 <= k < i ==> #[trigger] m[k][j] < t
    ||| forall|k: int| i < k < m.len() ==> #[trigger] m[k][j] < t
    ||| forall|k: int| 0 <= k < j ==> #[trigger] m[i][k] < t
    ||| forall|k: int| j < k < m[i].len() ==> #[trigger] m[i][k] < t
}

/// Number of visible trees in row `i` among the columns `0 .. n`.
pub open spec fn visible_in_row(m: Seq<Seq<u32>>, i: int, n: int) -> int
    decreases n,
{
    if n <= 0 {
        0
    } else {
        visible_in_row(m, i, n - 1) + if tree_visible(m, i, n - 1) { 1int } else { 0int }
    }
}

/// Number of visible trees in the rows `0 .. n`.
pub open spec fn visible_count(m: Seq<Seq<u32>>, n: int) -> int
    decreases n,
{
    if n <= 0 {
        0
    } else {
        visible_count(m, n - 1) + visible_in_row(m, n - 1, m[n - 1].len() as int)
    }
}

/// The text as a grid of digits, one row per line.
pub open spec fn digit_grid(b: Seq<u8>) -> Seq<Seq<u32>> {
    lines_of(b).map_values(|l: Seq<u8>| l.map_values(|c: u8| (c - 48) as u32))
}

/// Every line of the text consists of ASCII digits.
pub open spec fn all_digit_lines(b: Seq<u8>) -> bool {
    forall|i: int, k: int|
        0 <= i < lines_of(b).len() && 0 <= k < lines_of(b)[i].len() ==> 48 <= #[trigger] lines_of(
            b,
        )[i][k] <= 57
}

/// The text as a grid of digits.
pub fn map_input_to_matrix(input: &str) -> (r: Vec<Vec<u32>>)
    requires
        all_digit_lines(input.spec_bytes()),
    ensures
        grid_view(&r) =~= digit_grid(input.spec_bytes()),
{
    let lines = split_lines(input);
    let ghost ls = lines_of(input.spec_bytes());
    let mut mat: Vec<Vec<u32>> = Vec::new();
    let mut i: usize = 0;
    while i < lines.len()
        invariant
            lines@.len() == ls.len(),
            ls == lines_of(input.spec_bytes()),
            all_digit_lines(input.spec_bytes()),
            forall|k: int| 0 <= k < lines@.len() ==> #[trigger] lines@[k]@ == ls[k],
            i <= lines@.len(),
            mat@.len() == i,
            forall|k: int|
                0 <= k < i ==> #[trigger] mat@[k]@ == ls[k].map_values(|c: u8| (c - 48) as u32),
        decreases lines@.len() - i,
    {
        let line = &lines[i];
        assert(line@ == ls[i as int]);
        let mut row: Vec<u32> = Vec::new();
        let mut j: usize = 0;
        while j < line.len()
            invariant
                line@ == ls[i as int],
                i < ls.len(),
                all_digit_lines(input.spec_bytes()),
                ls == lines_of(input.spec_bytes()),
                j <= line@.len(),
                row@ == line@.subrange(0, j as int).map_values(|c: u8| (c - 48) as u32),
            decreases line@.len() - j,
        {
            assert(48 <= ls[i as int][j as int] <= 57);
            row.push((line[j] - 48) as u32);
            assert(line@.subrange(0, j + 1) =~= line@.subrange(0, j as int).push(line@[j as int]));
            j = j + 1;
        }
        assert(line@.subrange(0, line@.len() as int) =~= line@);
        mat.push(row);
        i = i + 1;
    }
    mat
}

/// Tallest tree of column `c` over the rows `from .. to`.
fn col_max(map: &Vec<Vec<u32>>, c: usize, from: usize, to: usize) -> (v: u32)
    requires
        from < to <= map@.len(),
        forall|r: int| 0 <= r < map@.len() ==> c < #[trigger] map@[r]@.len(),
    ensures
        is_col_max(grid_view(map), c as int, from as int, to as int, v as int),
{
    let ghost m = grid_view(map);
    let mut v = map[from][c];
    let mut k = from + 1;
    assert(m[from as int][c as int] == v);
    while k < to
        invariant
            m == grid_view(map),
            from < k <= to <= map@.len(),
            forall|r: int| 0 <= r < map@.len() ==> c < #[trigger] map@[r]@.len(),
            is_col_max(m, c as int, from as int, k as int, v as int),
        decreases to - k,
    {
        let t = map[k][c];
        assert(m[k as int][c as int] == t);
        if t > v {
            v = t;
        }
        k = k + 1;
    }
    v
}

/// Tallest tree of row `r` over the columns `from .. to`.
fn row_max(map: &Vec<Vec<u32>>, r: usize, from: usize, to: usize) -> (v: u32)
    requires
        r < map@.len(),
        from < to <= map@[r as int]@.len(),
    ensures
        is_row_max(grid_view(map), r as int, from as int, to as int, v as int),
{
    let ghost m = grid_view(map);
    let mut v = map[r][from];
    let mut k = from + 1;
    assert(m[r as int][from as int] == v);
    while k < to
        invariant
            m == grid_view(map),
            r < map@.len(),
            from < k <= to <= map@[r as int]@.len(),
            is_row_max(m, r as int, from as int, k as int, v as int),
        decreases to - k,
    {
        let t = map[r][k];
        assert(m[r as int][k as int] == t);
        if t > v {
            v = t;
        }
        k = k + 1;
    }
    v
}

/// For each inner tree (the grid without its border; entry `[i][j]` is the tree at
/// `(i + 1, j + 1)`), the tallest tree towards the north, east, south and west edges.
pub fn calc_sightlines(map: &Vec<Vec<u32>>) -> (r: Vec<Vec<[u32; 4]>>)
    requires
        grid_ok(grid_view(map)),
    ensures
        r@.len() == map@.len() - 2,
        forall|i: int|
            #![trigger r@[i]]
            0 <= i < r@.len() ==> r@[i]@.len() == map@[0]@.len() - 2 && forall|j: int|
                0 <= j < r@[i]@.len() ==> {
                    let s = #[trigger] r@[i]@[j]@;
                    let m = grid_view(map);
                    &&& is_col_max(m, j + 1, 0, i + 1, s[0] as int)
                    &&& is_row_max(m, i + 1, j + 2, m[0].len() as int, s[1] as int)
                    &&& is_col_max(m, j + 1, i + 2, m.len() as int, s[2] as int)
                    &&& is_row_max(m, i + 1, 0, j + 1, s[3] as int)
                },
{
    let ghost m = grid_view(map);
    let height = map.len();
    let width = map[0].len();
    assert(forall|r: int| 0 <= r < map@.len() ==> #[trigger] map@[r]@.len() == m[r].len());
    let mut out: Vec<Vec<[u32; 4]>> = Vec::new();
    let mut i: usize = 0;
    while i < height - 2
        invariant
            m == grid_view(map),
            grid_ok(m),
            height == m.len(),
            width == m[0].len(),
            forall|r: int| 0 <= r < map@.len() ==> #[trigger] map@[r]@.len() == m[r].len(),
            i <= height - 2,
            out@.len() == i,
            forall|a: int|
                #![trigger out@[a]]
                0 <= a < i ==> out@[a]@.len() == width - 2 && forall|j: int|
                    0 <= j < out@[a]@.len() ==> {
                        let s = #[trigger] out@[a]@[j]@;
                        &&& is_col_max(m, j + 1, 0, a + 1, s[0] as int)
                        &&& is_row_max(m, a + 1, j + 2, width as int, s[1] as int)
                        &&& is_col_max(m, j + 1, a + 2, height as int, s[2] as int)
                        &&& is_row_max(m, a + 1, 0, j + 1, s[3] as int)
                    },
        decreases height - 2 - i,
    {
        let mut row: Vec<[u32; 4]> = Vec::new();
        let mut j: usize = 0;
        assert(m[i + 1].len() == width);
        while j < width - 2
            invariant
                m == grid_view(map),
                grid_ok(m),
                height == m.len(),
                width == m[0].len(),
                i < height - 2,
                m[i + 1].len() == width,
                forall|r: int| 0 <= r < map@.len() ==> #[trigger] map@[r]@.len() == m[r].len(),
                j <= width - 2,
                row@.len() == j,
                forall|b: int|
                    0 <= b < j ==> {
                        let s = #[trigger] row@[b]@;
                        &&& is_col_max(m, b + 1, 0, i + 1, s[0] as int)
                        &&& is_row_max(m, i + 1, b + 2, width as int, s[1] as int)
                        &&& is_col_max(m, b + 1, i + 2, height as int, s[2] as int)
                        &&& is_row_max(m, i + 1, 0, b + 1, s[3] as int)
                    },
            decreases width - 2 - j,
        {
            assert forall|r: int| 0 <= r < map@.len() implies j + 1 < #[trigger] map@[r]@.len() by {
                assert(m[r].len() == m[0].len());
            }
            let north = col_max(map, j + 1, 0, i + 1);
            let east = row_max(map, i + 1, j + 2, width);
            let south = col_max(map, j + 1, i + 2, height);
            let west = row_max(map, i + 1, 0, j + 1);
            let cell = [north, east, south, west];
            assert(cell@[0] == north && cell@[1] == east && cell@[2] == south && cell@[3] == west);
            row.push(cell);
            j = j + 1;
        }
        out.push(row);
        i = i + 1;
    }
    out
}

/// The number of trees visible from outside the grid.
pub fn find_visible_tree_count(map: &Vec<Vec<u32>>) -> (r: u32)
    requires
        grid_ok(grid_view(map)),
        map@.len() * map@[0]@.len() <= u32::MAX,
    ensures
        r == visible_count(grid_view(map), map@.len() as int),
{
    let ghost m = grid_view(map);
    let height = map.len();
    let width = map[0].len();
    assert(forall|r: int| 0 <= r < map@.len() ==> #[trigger] map@[r]@.len() == m[r].len());
    let sightlines = calc_sightlines(map);
    let mut count: u32 = 0;
    let mut i: usize = 0;
    while i < height
        invariant
            m == grid_view(map),
            grid_ok(m),
            height == m.len(),
            width == m[0].len(),
            height * width <= u32::MAX,
            forall|r: int| 0 <= r < map@.len() ==> #[trigger] map@[r]@.len() == m[r].len(),
            sightlines@.len() == height - 2,
            forall|a: int|
                #![trigger sightlines@[a]]
                0 <= a < sightlines@.len() ==> sightlines@[a]@.len() == width - 2 && forall|j: int|
                    0 <= j < sightlines@[a]@.len() ==> {
                        let s = #[trigger] sightlines@[a]@[j]@;
                        &&& is_col_max(m, j + 1, 0, a + 1, s[0] as int)
                        &&& is_row_max(m, a + 1, j + 2, width as int, s[1] as int)
                        &&& is_col_max(m, j + 1, a + 2, height as int, s[2] as int)
                        &&& is_row_max(m, a + 1, 0, j + 1, s[3] as int)
                    },
            i <= height,
            count == visible_count(m, i as int),
            count <= i * width,
        decreases height - i,
    {
        assert(m[i as int].len() == width);
        let mut j: usize = 0;
        while j < width
            invariant
                m == grid_view(map),
                grid_ok(m),
                height == m.len(),
                width == m[0].len(),
                height * width <= u32::MAX,
                m[i as int].len() == width,
                forall|r: int| 0 <= r < map@.len() ==> #[trigger] map@[r]@.len() == m[r].len(),
                sightlines@.len() == height - 2,
                forall|a: int|
                    #![trigger sightlines@[a]]
                    0 <= a < sightlines@.len() ==> sightlines@[a]@.len() == width - 2 && forall|
                        j: int,
                    |
                        0 <= j < sightlines@[a]@.len() ==> {
                            let s = #[trigger] sightlines@[a]@[j]@;
                            &&& is_col_max(m, j + 1, 0, a + 1, s[0] as int)
                            &&& is_row_max(m, a + 1, j + 2, width as int, s[1] as int)
                            &&& is_col_max(m, j + 1, a + 2, height as int, s[2] as int)
                            &&& is_row_max(m, a + 1, 0, j + 1, s[3] as int)
                        },
                i < height,
                j <= width,
                count == visible_count(m, i as int) + visible_in_row(m, i as int, j as int),
                count <= i * width + j,
            decreases width - j,
        {
            assert(i * width + j + 1 <= height * width) by (nonlinear_arith)
                requires
                    i < height,
                    j < width,
            ;
            let t = map[i][j];
            assert(t == m[i as int][j as int]);
            let visible = if i == 0 || j == 0 || i == height - 1 || j == width - 1 {
                true
            } else {
                let s = sightlines[i - 1][j - 1];
                let low = if s[0] < s[1] { s[0] } else { s[1] };
                let low = if s[2] < low { s[2] } else { low };
                let low = if s[3] < low { s[3] } else { low };
                t > low
            };
            proof {
                if 0 < i < height - 1 && 0 < j < width - 1 {
                    let s = sightlines@[i - 1]@[j - 1]@;
                    assert(is_col_max(m, j as int, 0, i as int, s[0] as int));
                    assert(is_row_max(m, i as int, j + 1, width as int, s[1] as int));
                    assert(is_col_max(m, j as int, i + 1, height as int, s[2] as int));
                    assert(is_row_max(m, i as int, 0, j as int, s[3] as int));
                    if tree_visible(m, i as int, j as int) {
                        if forall|k: int| 0 <= k < i ==> #[trigger] m[k][j as int] < t {
                            let k = choose|k: int| 0 <= k < i && #[trigger] m[k][j as int] == s[0];
                        } else if forall|k: int| i < k < m.len() ==> #[trigger] m[k][j as int] < t {
                            let k = choose|k: int| i + 1 <= k < height && #[trigger] m[k][j as int] == s[2];
                        } else if forall|k: int| 0 <= k < j ==> #[trigger] m[i as int][k] < t {
                            let k = choose|k: int| 0 <= k < j && #[trigger] m[i as int][k] == s[3];
                        } else {
                            let k = choose|k: int| j + 1 <= k < width && #[trigger] m[i as int][k] == s[1];
                        }
                    }
                }
            }
            assert(visible == tree_visible(m, i as int, j as int));
            if visible {
                count = count + 1;
            }
            j = j + 1;
        }
        assert(i * width + width == (i + 1) * width) by (nonlinear_arith);
        i = i + 1;
    }
    count
}

/// How many trees the tree at `(x, y)` sees looking down, checking from row `k` on.
pub open spec fn view_down(m: Seq<Seq<u32>>, x: int, y: int, k: int) -> int
    decreases m.len() - k,
{
    if k >= m.len() {
        m.len() - 1 - x
    } else if m[k][y] >= m[x][y] {
        k - x
    } else {
        view_down(m, x, y, k + 1)
    }
}

/// How many trees the tree at `(x, y)` sees looking up, checking from row `k` back.
pub open spec fn view_up(m: Seq<Seq<u32>>, x: int, y: int, k: int) -> int
    decreases k + 1,
{
    if k < 0 {
        x
    } else if m[k][y] >= m[x][y] {
        x - k
    } else {
        view_up(m, x, y, k - 1)
    }
}

/// How many trees the tree at `(x, y)` sees looking right, checking from column `k` on.
pub open spec fn view_right(m: Seq<Seq<u32>>, x: int, y: int, k: int) -> int
    decreases m[x].len() - k,
{
    if k >= m[x].len() {
        m[x].len() - 1 - y
    } else if m[x][k] >= m[x][y] {
        k - y
    } else {
        view_right(m, x, y, k + 1)
    }
}

/// How many trees the tree at `(x, y)` sees looking left, checking from column `k` back.
pub open spec fn view_left(m: Seq<Seq<u32>>, x: int, y: int, k: int) -> int
    decreases k + 1,
{
    if k < 0 {
        y
    } else if m[x][k] >= m[x][y] {
        y - k
    } else {
        view_left(m, x, y, k - 1)
    }
}

/// The product of the viewing distances of the tree at `(x, y)` in the four directions.
pub open spec fn scenic_score(m: Seq<Seq<u32>>, x: int, y: int) -> int {
    view_down(m, x, y, x + 1) * view_up(m, x, y, x - 1) * view_right(m, x, y, y + 1) * view_left(
        m,
        x,
        y,
        y - 1,
    )
}

/// The scenic score of the tree at `(x, y)`.
pub fn calc_tree_scenic_score(map: &Vec<Vec<u32>>, x: usize, y: usize) -> (r: u32)
    requires
        grid_rect(grid_view(map)),
        x < map@.len(),
        y < map@[0]@.len(),
        scenic_score(grid_view(map), x as int, y as int) <= u32::MAX,
    ensures
        r == scenic_score(grid_view(map), x as int, y as int),
{
    let ghost m = grid_view(map);
    let height = map.len();
    let width = map[0].len();
    assert(forall|r: int| 0 <= r < map@.len() ==> #[trigger] map@[r]@.len() == m[r].len());
    assert(m[x as int].len() == width);
    let h = map[x][y];
    assert(h == m[x as int][y as int]);

    let mut i = x + 1;
    while i < height && map[i][y] < h
        invariant
            m == grid_view(map),
            grid_rect(m),
            height == m.len(),
            width == m[0].len(),
            y < width,
            forall|r: int| 0 <= r < map@.len() ==> #[trigger] map@[r]@.len() == m[r].len(),
            h == m[x as int][y as int],
            x < i <= height,
            view_down(m, x as int, y as int, i as int) == view_down(m, x as int, y as int, x + 1),
        decreases height - i,
    {
        assert(m[i as int][y as int] == map@[i as int]@[y as int]);
        i = i + 1;
    }
    if i < height {
        assert(m[i as int][y as int] == map@[i as int]@[y as int]);
    }
    let down: u64 = if i < height { (i - x) as u64 } else { (height - 1 - x) as u64 };

    let mut i = x;
    while i > 0 && map[i - 1][y] < h
        invariant
            m == grid_view(map),
            grid_rect(m),
            height == m.len(),
            width == m[0].len(),
            y < width,
            forall|r: int| 0 <= r < map@.len() ==> #[trigger] map@[r]@.len() == m[r].len(),
            h == m[x as int][y as int],
            i <= x < height,
            view_up(m, x as int, y as int, i - 1) == view_up(m, x as int, y as int, x - 1),
        decreases i,
    {
        assert(m[i - 1][y as int] == map@[i - 1]@[y as int]);
        i = i - 1;
    }
    if i > 0 {
        assert(m[i - 1][y as int] == map@[i - 1]@[y as int]);
    }
    let up: u64 = if i > 0 { (x - (i - 1)) as u64 } else { x as u64 };

    let mut j = y + 1;
    while j < width && map[x][j] < h
        invariant
            m == grid_view(map),
            m[x as int].len() == width,
            x < map@.len(),
            map@[x as int]@ == m[x as int],
            h == m[x as int][y as int],
            y < j <= width,
            view_right(m, x as int, y as int, j as int) == view_right(m, x as int, y as int, y + 1),
        decreases width - j,
    {
        j = j + 1;
    }
    let right: u64 = if j < width { (j - y) as u64 } else { (width - 1 - y) as u64 };

    let mut j = y;
    while j > 0 && map[x][j - 1] < h
        invariant
            m == grid_view(map),
            m[x as int].len() == width,
            x < map@.len(),
            y < width,
            map@[x as int]@ == m[x as int],
            h == m[x as int][y as int],
            j <= y,
            view_left(m, x as int, y as int, j - 1) == view_left(m, x as int, y as int, y - 1),
        decreases j,
    {
        j = j - 1;
    }
    let left: u64 = if j > 0 { (y - (j - 1)) as u64 } else { y as u64 };
    assert(down == view_down(m, x as int, y as int, x + 1));
    assert(up == view_up(m, x as int, y as int, x - 1));
    assert(right == view_right(m, x as int, y as int, y + 1));
    assert(left == view_left(m, x as int, y as int, y - 1));
    if down == 0 || up == 0 || right == 0 || left == 0 {
        assert(down * up * right * left == 0) by (nonlinear_arith)
            requires
                down == 0 || up == 0 || right == 0 || left == 0,
        ;
        return 0;
    }
    assert(down * up <= down * up * right * left && down * up * right <= down * up * right * left)
        by (nonlinear_arith)
        requires
            down >= 1,
            up >= 1,
            right >= 1,
            left >= 1,
    ;
    (down * up * right * left) as u32
}

/// The highest scenic score of any tree.
pub fn find_max_scenic_score(map: &Vec<Vec<u32>>) -> (r: u32)
    requires
        grid_rect(grid_view(map)),
        forall|x: int, y: int|
            0 <= x < map@.len() && 0 <= y < map@[0]@.len() ==> #[trigger] scenic_score(
                grid_view(map),
                x,
                y,
            ) <= u32::MAX,
    ensures
        forall|x: int, y: int|
            0 <= x < map@.len() && 0 <= y < map@[0]@.len() ==> #[trigger] scenic_score(
                grid_view(map),
                x,
                y,
            ) <= r,
        exists|x: int, y: int|
            0 <= x < map@.len() && 0 <= y < map@[0]@.len() && #[trigger] scenic_score(
                grid_view(map),
                x,
                y,
            ) == r,
{
    let ghost m = grid_view(map);
    let height = map.len();
    let width = map[0].len();
    let mut best = calc_tree_scenic_score(map, 0, 0);
    let ghost mut bx: int = 0;
    let ghost mut by: int = 0;
    let mut x: usize = 0;
    while x < height
        invariant
            m == grid_view(map),
            grid_rect(m),
            height == map@.len(),
            width == map@[0]@.len(),
            forall|x: int, y: int|
                0 <= x < map@.len() && 0 <= y < map@[0]@.len() ==> #[trigger] scenic_score(m, x, y)
                    <= u32::MAX,
            x <= height,
            0 <= bx < height && 0 <= by < width && scenic_score(m, bx, by) == best,
            forall|a: int, b: int| 0 <= a < x && 0 <= b < width ==> #[trigger] scenic_score(m, a, b) <= best,
        decreases height - x,
    {
        let mut y: usize = 0;
        while y < width
            invariant
                m == grid_view(map),
                grid_rect(m),
                height == map@.len(),
                width == map@[0]@.len(),
                forall|x: int, y: int|
                    0 <= x < map@.len() && 0 <= y < map@[0]@.len() ==> #[trigger] scenic_score(m, x, y)
                        <= u32::MAX,
                x < height,
                y <= width,
                0 <= bx < height && 0 <= by < width && scenic_score(m, bx, by) == best,
                forall|a: int, b: int|
                    (0 <= a < x && 0 <= b < width) || (a == x && 0 <= b < y) ==> #[trigger] scenic_score(
                        m,
                        a,
                        b,
                    ) <= best,
            decreases width - y,
        {
            let s = calc_tree_scenic_score(map, x, y);
            if s > best {
                best = s;
                proof {
                    bx = x as int;
                    by = y as int;
                }
            }
            y = y + 1;
        }
        x = x + 1;
    }
    best
}

} // verus!
