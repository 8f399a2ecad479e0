//! Cube games: draws of red, green and blue cubes from a bag.

use vstd::prelude::*;
use vstd::string::StringSliceAdditionalSpecFns;
use crate::text::{decimal, is_ascii_digit, lemma_decimal_prefix_bound, lemma_decimal_step, lines_of, pieces_of, split_lines, split_pieces};

verus! {

/// One handful of cubes.
#[derive(Clone, Copy, Debug, PartialEq, Eq)]
pub struct Draw {
    pub red: u32,
    pub green: u32,
    pub blue: u32,
}

/// A numbered game and its draws.
#[derive(Debug)]
pub struct Game {
    pub index: u32,
    pub draws: Vec<Draw>,
}

pub open spec fn draw_valid(d: Draw, max_blue: int, max_green: int, max_red: int) -> bool {
    d.blue <= max_blue && d.green <= max_green && d.red <= max_red
}

pub open spec fn game_valid(draws: Seq<Draw>, max_blue: int, max_green: int, max_red: int) -> bool {
    forall|i: int| 0 <= i < draws.len() ==> draw_valid(#[trigger] draws[i], max_blue, max_green, max_red)
}

/// The largest count of a color over the draws, 0 for no draws; `color` picks the count.
pub open spec fn max_count(draws: Seq<Draw>, color: spec_fn(Draw) -> u32) -> int
    decreases draws.len(),
{
    if draws.len() == 0 {
        0
    } else {
        let rest = max_count(draws.drop_last(), color);
        if color(draws.last()) > rest {
            color(draws.last()) as int
        } else {
            rest
        }
    }
}

pub open spec fn red_of(d: Draw) -> u32 {
    d.red
}

pub open spec fn green_of(d: Draw) -> u32 {
    d.green
}

pub open spec fn blue_of(d: Draw) -> u32 {
    d.blue
}

/// The power of a game: the product of its largest red, green and blue counts.
pub open spec fn game_power(draws: Seq<Draw>) -> int {
    max_count(draws, |d: Draw| red_of(d)) * max_count(draws, |d: Draw| green_of(d)) * max_count(
        draws,
        |d: Draw| blue_of(d),
    )
}

/// Sum of the indices of the valid games.
pub open spec fn valid_index_sum(games: Seq<Game>, max_blue: int, max_green: int, max_red: int) -> int
    decreases games.len(),
{
    if games.len() == 0 {
        0
    } else {
        valid_index_sum(games.drop_last(), max_blue, max_green, max_red) + if game_valid(
            games.last().draws@,
            max_blue,
            max_green,
            max_red,
        ) {
            games.last().index as int
        } else {
            0
        }
    }
}

impl Draw {
    /// Whether the draw is possible with the given numbers of cubes in the bag.
    pub fn is_valid(&self, max_blue: u32, max_green: u32, max_red: u32) -> (r: bool)
        ensures
            r == draw_valid(*self, max_blue as int, max_green as int, max_red as int),
    {
        self.blue <= max_blue && self.green <= max_green && self.red <= max_red
    }
}

impl Game {
    /// Whether every draw of the game is possible with the given numbers of cubes.
    pub fn is_valid(&self, max_blue: u32, max_green: u32, max_red: u32) -> (r: bool)
        ensures
            r == game_valid(self.draws@, max_blue as int, max_green as int, max_red as int),
    {
        let mut k: usize = 0;
        while k < self.draws.len()
            invariant
                k <= self.draws@.len(),
                forall|i: int|
                    0 <= i < k ==> draw_valid(
                        #[trigger] self.draws@[i],
                        max_blue as int,
                        max_green as int,
                        max_red as int,
                    ),
            decreases self.draws@.len() - k,
        {
            if !self.draws[k].is_valid(max_blue, max_green, max_red) {
                return false;
            }
            k = k + 1;
        }
        true
    }

    /// The fewest cubes of each color that make every draw of the game possible.
    pub fn minimum_cubes(&self) -> (r: Draw)
        ensures
            r.red == max_count(self.draws@, |d: Draw| red_of(d)),
            r.green == max_count(self.draws@, |d: Draw| green_of(d)),
            r.blue == max_count(self.draws@, |d: Draw| blue_of(d)),
    {
        let mut red: u32 = 0;
        let mut green: u32 = 0;
        let mut blue: u32 = 0;
        let mut k: usize = 0;
        while k < self.draws.len()
            invariant
                k <= self.draws@.len(),
                red == max_count(self.draws@.subrange(0, k as int), |d: Draw| red_of(d)),
                green == max_count(self.draws@.subrange(0, k as int), |d: Draw| green_of(d)),
                blue == max_count(self.draws@.subrange(0, k as int), |d: Draw| blue_of(d)),
            decreases self.draws@.len() - k,
        {
            let d = self.draws[k];
            assert(self.draws@.subrange(0, k + 1).drop_last() =~= self.draws@.subrange(0, k as int));
            assert(self.draws@.subrange(0, k + 1).last() == d);
            if d.red > red {
                red = d.red;
            }
            if d.green > green {
                green = d.green;
            }
            if d.blue > blue {
                blue = d.blue;
            }
            k = k + 1;
        }
        assert(self.draws@.subrange(0, self.draws@.len() as int) =~= self.draws@);
        Draw { red, green, blue }
    }

    /// The product of the minimum numbers of red, green and blue cubes.
    pub fn power(&self) -> (r: u32)
        requires
            game_power(self.draws@) <= u32::MAX,
        ensures
            r == game_power(self.draws@),
    {
        let min = self.minimum_cubes();
        let a = min.red as u128;
        let b = min.green as u128;
        let c = min.blue as u128;
        assert(a * b <= 0xffff_ffffu128 * 0xffff_ffffu128) by (nonlinear_arith)
            requires
                a <= 0xffff_ffffu128,
                b <= 0xffff_ffffu128,
        ;
        assert(a * b * c <= 0xffff_ffffu128 * 0xffff_ffffu128 * 0xffff_ffffu128) by (nonlinear_arith)
            requires
                a * b <= 0xffff_ffffu128 * 0xffff_ffffu128,
                c <= 0xffff_ffffu128,
        ;
        (a * b * c) as u32
    }
}

/// Sum of the indices of the games that are possible with the given numbers of cubes.
pub fn calc_solution_1_with_args(games: &Vec<Game>, max_blue: u32, max_green: u32, max_red: u32) -> (r: u32)
    requires
        valid_index_sum(games@, max_blue as int, max_green as int, max_red as int) <= u32::MAX,
    ensures
        r == valid_index_sum(games@, max_blue as int, max_green as int, max_red as int),
{
    let mut sum: u32 = 0;
    let mut k: usize = 0;
    while k < games.len()
        invariant
            k <= games@.len(),
            valid_index_sum(games@, max_blue as int, max_green as int, max_red as int) <= u32::MAX,
            sum == valid_index_sum(games@.subrange(0, k as int), max_blue as int, max_green as int, max_red as int),
        decreases games@.len() - k,
    {
        assert(games@.subrange(0, k + 1).drop_last() =~= games@.subrange(0, k as int));
        proof {
            lemma_valid_index_sum_prefix(games@, k + 1, max_blue as int, max_green as int, max_red as int);
        }
        if games[k].is_valid(max_blue, max_green, max_red) {
            sum = sum + games[k].index;
        }
        k = k + 1;
    }
    assert(games@.subrange(0, games@.len() as int) =~= games@);
    sum
}

proof fn lemma_valid_index_sum_prefix(games: Seq<Game>, k: int, max_blue: int, max_green: int, max_red: int)
    requires
        0 <= k <= games.len(),
    ensures
        0 <= valid_index_sum(games.subrange(0, k), max_blue, max_green, max_red) <= valid_index_sum(
            games,
            max_blue,
            max_green,
            max_red,
        ),
    decreases games.len(),
{
    if games.len() > 0 {
        let d = games.drop_last();
        if k == games.len() {
            assert(games.subrange(0, k) =~= games);
            lemma_valid_index_sum_prefix(d, d.len() as int, max_blue, max_green, max_red);
            assert(d.subrange(0, d.len() as int) =~= d);
        } else {
            assert(d.subrange(0, k) =~= games.subrange(0, k));
            lemma_valid_index_sum_prefix(d, k, max_blue, max_green, max_red);
            lemma_valid_index_sum_prefix(d, d.len() as int, max_blue, max_green, max_red);
            assert(d.subrange(0, d.len() as int) =~= d);
        }
    } else {
        assert(games.subrange(0, k) =~= games);
    }
}

/// One past the end of the run of ASCII digits that starts at `k`.
pub open spec fn digits_end(b: Seq<u8>, k: int) -> int
    decreases b.len() - k,
{
    if 0 <= k < b.len() && is_ascii_digit(b[k]) {
        digits_end(b, k + 1)
    } else {
        k
    }
}

pub open spec fn word_red() -> Seq<u8> {
    seq![32u8, 114u8, 101u8, 100u8]
}

pub open spec fn word_green() -> Seq<u8> {
    seq![32u8, 103u8, 114u8, 101u8, 101u8, 110u8]
}

pub open spec fn word_blue() -> Seq<u8> {
    seq![32u8, 98u8, 108u8, 117u8, 101u8]
}

pub open spec fn starts_with_at(b: Seq<u8>, k: int, w: Seq<u8>) -> bool {
    0 <= k && k + w.len() <= b.len() && b.subrange(k, k + w.len()) == w
}

/// The count a run of digits gives: its value, or 0 when it exceeds `u32::MAX`.
pub open spec fn count_of(d: Seq<u8>) -> u32 {
    if decimal(d) <= u32::MAX { decimal(d) as u32 } else { 0 }
}

/// The draw described from position `k` on, starting from `acc`: every number followed
/// by ` red`, ` green` or ` blue` sets that color's count; a later one wins.
pub open spec fn draw_from(b: Seq<u8>, k: int, acc: Draw) -> Draw
    decreases b.len() - k, 1int,
{
    if k < 0 || k >= b.len() {
        acc
    } else if is_ascii_digit(b[k]) {
        let e = digits_end(b, k);
        if e <= k || e > b.len() {
            acc
        } else {
            let v = count_of(b.subrange(k, e));
            if starts_with_at(b, e, word_red()) {
                draw_from(b, e + 4, Draw { red: v, ..acc })
            } else if starts_with_at(b, e, word_green()) {
                draw_from(b, e + 6, Draw { green: v, ..acc })
            } else if starts_with_at(b, e, word_blue()) {
                draw_from(b, e + 5, Draw { blue: v, ..acc })
            } else {
                draw_from(b, e, acc)
            }
        }
    } else {
        draw_from(b, k + 1, acc)
    }
}

/// The draw a piece of text describes.
pub open spec fn draw_of(b: Seq<u8>) -> Draw {
    draw_from(b, 0, Draw { red: 0, green: 0, blue: 0 })
}

proof fn lemma_digits_end(b: Seq<u8>, k: int)
    requires
        0 <= k <= b.len(),
    ensures
        k <= digits_end(b, k) <= b.len(),
        forall|t: int| k <= t < digits_end(b, k) ==> is_ascii_digit(#[trigger] b[t]),
        digits_end(b, k) < b.len() ==> !is_ascii_digit(b[digits_end(b, k)]),
    decreases b.len() - k,
{
    if k < b.len() && is_ascii_digit(b[k]) {
        lemma_digits_end(b, k + 1);
    }
}

fn word_at(b: &[u8], k: usize, w: &Vec<u8>) -> (r: bool)
    ensures
        r == starts_with_at(b@, k as int, w@),
{
    if k > b.len() || w.len() > b.len() - k {
        return false;
    }
    let n = b.len();
    let mut t: usize = 0;
    while t < w.len()
        invariant
            n == b@.len(),
            k + w@.len() <= b@.len(),
            t <= w@.len(),
            forall|u: int| 0 <= u < t ==> b@[k + u] == w@[u],
        decreases w@.len() - t,
    {
        if b[k + t] != w[t] {
            assert(b@.subrange(k as int, k + w@.len())[t as int] != w@[t as int]);
            return false;
        }
        t = t + 1;
    }
    assert(b@.subrange(k as int, k + w@.len()) =~= w@);
    true
}

/// The value of the digits `b[k..e]`, or 0 when it exceeds `u32::MAX`.
fn count_in(b: &[u8], k: usize, e: usize) -> (r: u32)
    requires
        k <= e <= b@.len(),
        forall|t: int| k <= t < e ==> is_ascii_digit(#[trigger] b@[t]),
    ensures
        r == count_of(b@.subrange(k as int, e as int)),
{
    let ghost d = b@.subrange(k as int, e as int);
    let mut value: u32 = 0;
    let mut p = k;
    while p < e
        invariant
            d == b@.subrange(k as int, e as int),
            k <= p <= e <= b@.len(),
            forall|t: int| k <= t < e ==> is_ascii_digit(#[trigger] b@[t]),
            value == decimal(d.subrange(0, p - k)),
        decreases e - p,
    {
        assert(is_ascii_digit(b@[p as int]));
        assert(d[p - k] == b@[p as int]);
        proof {
            lemma_decimal_step(d, p - k);
        }
        let digit = (b[p] - 48) as u32;
        if value > (u32::MAX - digit) / 10 {
            proof {
                assert(value * 10 + digit > u32::MAX) by (nonlinear_arith)
                    requires
                        value > (u32::MAX - digit) / 10,
                        digit <= 9,
                ;
                assert forall|i: int| 0 <= i < d.len() implies is_ascii_digit(#[trigger] d[i]) by {
                    assert(d[i] == b@[k + i]);
                }
                lemma_decimal_prefix_bound(d, p - k + 1);
            }
            return 0;
        }
        value = value * 10 + digit;
        p = p + 1;
    }
    assert(d.subrange(0, d.len() as int) =~= d);
    value
}

/// The draw a piece of text describes, such as `3 blue, 4 red`.
pub fn parse_draw(b: &[u8]) -> (r: Draw)
    ensures
        r == draw_of(b@),
{
    let red: Vec<u8> = vec![32u8, 114u8, 101u8, 100u8];
    let green: Vec<u8> = vec![32u8, 103u8, 114u8, 101u8, 101u8, 110u8];
    let blue: Vec<u8> = vec![32u8, 98u8, 108u8, 117u8, 101u8];
    assert(red@ == word_red() && green@ == word_green() && blue@ == word_blue());
    let mut acc = Draw { red: 0, green: 0, blue: 0 };
    let mut k: usize = 0;
    while k < b.len()
        invariant
            red@ == word_red() && green@ == word_green() && blue@ == word_blue(),
            k <= b@.len(),
            draw_from(b@, k as int, acc) == draw_of(b@),
        decreases b@.len() - k,
    {
        if b[k] >= 48 && b[k] <= 57 {
            proof {
                lemma_digits_end(b@, k as int);
            }
            let mut e = k;
            while e < b.len() && b[e] >= 48 && b[e] <= 57
                invariant
                    k <= e <= b@.len(),
                    digits_end(b@, e as int) == digits_end(b@, k as int),
                    forall|t: int| k <= t < e ==> is_ascii_digit(#[trigger] b@[t]),
                decreases b@.len() - e,
            {
                e = e + 1;
            }
            let v = count_in(b, k, e);
            if word_at(b, e, &red) {
                acc = Draw { red: v, ..acc };
                k = e + 4;
            } else if word_at(b, e, &green) {
                acc = Draw { green: v, ..acc };
                k = e + 6;
            } else if word_at(b, e, &blue) {
                acc = Draw { blue: v, ..acc };
                k = e + 5;
            } else {
                k = e;
            }
        } else {
            k = k + 1;
        }
    }
    acc
}

/// A game as its number and its draws.
pub open spec fn game_records(games: Seq<Game>) -> Seq<(int, Seq<Draw>)> {
    Seq::new(games.len(), |i: int| (games[i].index as int, games[i].draws@))
}

/// The games of a record: each line with a colon is the next game (numbered from 1);
/// the text between its first and second colon holds its draws, separated by `;`.
pub open spec fn games_of(ls: Seq<Seq<u8>>) -> Seq<(int, Seq<Draw>)>
    decreases ls.len(),
{
    if ls.len() == 0 {
        Seq::empty()
    } else {
        let gs = games_of(ls.drop_last());
        let ps = pieces_of(ls.last(), 58u8);
        if ps.len() >= 2 {
            gs.push(
                (gs.len() as int + 1, pieces_of(ps[1], 59u8).map_values(|d: Seq<u8>| draw_of(d))),
            )
        } else {
            gs
        }
    }
}

pub open spec fn record_index_sum(rs: Seq<(int, Seq<Draw>)>, max_blue: int, max_green: int, max_red: int) -> int
    decreases rs.len(),
{
    if rs.len() == 0 {
        0
    } else {
        record_index_sum(rs.drop_last(), max_blue, max_green, max_red) + if game_valid(
            rs.last().1,
            max_blue,
            max_green,
            max_red,
        ) {
            rs.last().0
        } else {
            0
        }
    }
}

pub open spec fn record_power_sum(rs: Seq<(int, Seq<Draw>)>) -> int
    decreases rs.len(),
{
    if rs.len() == 0 {
        0
    } else {
        record_power_sum(rs.drop_last()) + game_power(rs.last().1)
    }
}

proof fn lemma_games_of_len(ls: Seq<Seq<u8>>)
    ensures
        games_of(ls).len() <= ls.len(),
    decreases ls.len(),
{
    if ls.len() > 0 {
        lemma_games_of_len(ls.drop_last());
    }
}

proof fn lemma_index_sum_records(gs: Seq<Game>, max_blue: int, max_green: int, max_red: int)
    ensures
        valid_index_sum(gs, max_blue, max_green, max_red) == record_index_sum(
            game_records(gs),
            max_blue,
            max_green,
            max_red,
        ),
    decreases gs.len(),
{
    if gs.len() > 0 {
        lemma_index_sum_records(gs.drop_last(), max_blue, max_green, max_red);
        assert(game_records(gs).drop_last() =~= game_records(gs.drop_last()));
    }
}

/// Reads the games of a record.
pub fn parse_input(input: &str) -> (r: Option<Vec<Game>>)
    requires
        lines_of(input.spec_bytes()).len() < u32::MAX,
    ensures
        r is Some,
        r matches Some(g) ==> game_records(g@) == games_of(lines_of(input.spec_bytes())),
{
    let lines = split_lines(input);
    let ghost ls = lines_of(input.spec_bytes());
    let mut games: Vec<Game> = Vec::new();
    let mut i: usize = 0;
    while i < lines.len()
        invariant
            ls == lines_of(input.spec_bytes()),
            ls.len() < u32::MAX,
            lines@.len() == ls.len(),
            forall|k: int| 0 <= k < lines@.len() ==> #[trigger] lines@[k]@ == ls[k],
            i <= ls.len(),
            games@.len() <= i,
            game_records(games@) == games_of(ls.subrange(0, i as int)),
        decreases ls.len() - i,
    {
        assert(lines@[i as int]@ == ls[i as int]);
        assert(ls.subrange(0, i + 1).drop_last() =~= ls.subrange(0, i as int));
        let ps = split_pieces(lines[i].as_slice(), 58u8);
        if ps.len() >= 2 {
            assert(ps@[1]@ == pieces_of(ls[i as int], 58u8)[1]);
            let parts = split_pieces(ps[1].as_slice(), 59u8);
            let mut draws: Vec<Draw> = Vec::new();
            let mut j: usize = 0;
            while j < parts.len()
                invariant
                    parts@.len() == pieces_of(ps@[1]@, 59u8).len(),
                    forall|k: int| 0 <= k < parts@.len() ==> #[trigger] parts@[k]@ == pieces_of(ps@[1]@, 59u8)[k],
                    j <= parts@.len(),
                    draws@ == pieces_of(ps@[1]@, 59u8).subrange(0, j as int).map_values(|d: Seq<u8>| draw_of(d)),
                decreases parts@.len() - j,
            {
                let d = parse_draw(parts[j].as_slice());
                draws.push(d);
                assert(pieces_of(ps@[1]@, 59u8).subrange(0, j + 1).map_values(|d: Seq<u8>| draw_of(d)) =~= pieces_of(
                    ps@[1]@,
                    59u8,
                ).subrange(0, j as int).map_values(|d: Seq<u8>| draw_of(d)).push(draw_of(parts@[j as int]@)));
                j = j + 1;
            }
            assert(pieces_of(ps@[1]@, 59u8).subrange(0, parts@.len() as int) =~= pieces_of(ps@[1]@, 59u8));
            let ghost old_games = games@;
            let index = games.len() as u32 + 1;
            games.push(Game { index, draws });
            assert(game_records(games@) =~= game_records(old_games).push((index as int, draws@)));
        }
        i = i + 1;
    }
    assert(ls.subrange(0, ls.len() as int) =~= ls);
    Some(games)
}

proof fn lemma_power_sum_prefix(rs: Seq<(int, Seq<Draw>)>, k: int)
    requires
        0 <= k <= rs.len(),
    ensures
        0 <= record_power_sum(rs.subrange(0, k)) <= record_power_sum(rs),
    decreases rs.len(),
{
    if rs.len() > 0 {
        let d = rs.drop_last();
        assert(d.subrange(0, d.len() as int) =~= d);
        lemma_power_nonneg(rs.last().1);
        if k == rs.len() {
            assert(rs.subrange(0, k) =~= rs);
            lemma_power_sum_prefix(d, d.len() as int);
        } else {
            assert(d.subrange(0, k) =~= rs.subrange(0, k));
            lemma_power_sum_prefix(d, k);
            lemma_power_sum_prefix(d, d.len() as int);
        }
    } else {
        assert(rs.subrange(0, k) =~= rs);
    }
}

proof fn lemma_max_count_nonneg(draws: Seq<Draw>, color: spec_fn(Draw) -> u32)
    ensures
        max_count(draws, color) >= 0,
    decreases draws.len(),
{
    if draws.len() > 0 {
        lemma_max_count_nonneg(draws.drop_last(), color);
    }
}

proof fn lemma_power_nonneg(draws: Seq<Draw>)
    ensures
        game_power(draws) >= 0,
{
    let a = max_count(draws, |d: Draw| red_of(d));
    let b = max_count(draws, |d: Draw| green_of(d));
    let c = max_count(draws, |d: Draw| blue_of(d));
    lemma_max_count_nonneg(draws, |d: Draw| red_of(d));
    lemma_max_count_nonneg(draws, |d: Draw| green_of(d));
    lemma_max_count_nonneg(draws, |d: Draw| blue_of(d));
    assert(a * b * c >= 0) by (nonlinear_arith)
        requires
            a >= 0,
            b >= 0,
            c >= 0,
    ;
}

/// Sum of the numbers of the games possible with 12 red, 13 green and 14 blue cubes.
pub fn calc_solution_1(input: &str) -> (r: u32)
    requires
        lines_of(input.spec_bytes()).len() < u32::MAX,
        record_index_sum(games_of(lines_of(input.spec_bytes())), 14, 13, 12) <= u32::MAX,
    ensures
        r == record_index_sum(games_of(lines_of(input.spec_bytes())), 14, 13, 12),
{
    let games = match parse_input(input) {
        Some(g) => g,
        None => return 0,
    };
    proof {
        lemma_index_sum_records(games@, 14, 13, 12);
    }
    calc_solution_1_with_args(&games, 14, 13, 12)
}

/// Sum of the powers of the games.
pub fn calc_solution_2(input: &str) -> (r: u32)
    requires
        lines_of(input.spec_bytes()).len() < u32::MAX,
        record_power_sum(games_of(lines_of(input.spec_bytes()))) <= u32::MAX,
    ensures
        r == record_power_sum(games_of(lines_of(input.spec_bytes()))),
{
    let games = match parse_input(input) {
        Some(g) => g,
        None => return 0,
    };
    let ghost rs = game_records(games@);
    let mut sum: u32 = 0;
    let mut i: usize = 0;
    while i < games.len()
        invariant
            rs == game_records(games@),
            record_power_sum(rs) <= u32::MAX,
            i <= rs.len(),
            sum == record_power_sum(rs.subrange(0, i as int)),
        decreases rs.len() - i,
    {
        proof {
            lemma_power_sum_prefix(rs, i + 1);
            assert(rs.subrange(0, i + 1).drop_last() =~= rs.subrange(0, i as int));
            assert(rs[i as int].1 == games@[i as int].draws@);
            lemma_power_nonneg(rs[i as int].1);
        }
        let p = games[i].power();
        sum = sum + p;
        i = i + 1;
    }
    assert(rs.subrange(0, rs.len() as int) =~= rs);
    sum
}

} // verus!
