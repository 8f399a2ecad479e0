//! Toy boat races: holding the button for `h` ms gives speed `h` for the remaining
//! `time - h` ms; a race is won by going further than the record `dist`.

use vstd::prelude::*;
use vstd::string::StringSliceAdditionalSpecFns;
use crate::text::{after_first, decimal, digits_of, joined_number, lines_of, numbers_in, parse_numbers, split_after, split_lines};

verus! {

#[derive(Clone, Copy, Debug, PartialEq, Eq)]
pub struct Race {
    pub time: u64,
    pub dist: u64,
}

/// Distance travelled when holding the button for `h`.
pub open spec fn travelled(race: Race, h: int) -> int {
    h * (race.time - h)
}

pub open spec fn wins(race: Race, h: int) -> bool {
    travelled(race, h) > race.dist
}

/// The winning holding times.
pub open spec fn winning_times(race: Race) -> Set<int> {
    Set::new(|h: int| 0 <= h <= race.time && wins(race, h))
}

/// On the lower half the distance grows with the holding time; on the upper half it
/// shrinks.
proof fn lemma_travelled_monotone(race: Race, a: int, b: int)
    ensures
        0 <= a <= b && a + b <= race.time ==> travelled(race, a) <= travelled(race, b),
        a <= b <= race.time && a + b >= race.time ==> travelled(race, a) >= travelled(race, b),
{
    let t = race.time as int;
    assert(b * (t - b) - a * (t - a) == (b - a) * (t - a - b)) by (nonlinear_arith);
    if 0 <= a <= b && a + b <= t {
        assert((b - a) * (t - a - b) >= 0) by (nonlinear_arith)
            requires
                b - a >= 0,
                t - a - b >= 0,
        ;
    }
    if a <= b && a + b >= t {
        assert((b - a) * (t - a - b) <= 0) by (nonlinear_arith)
            requires
                b - a >= 0,
                t - a - b <= 0,
        ;
    }
}

impl Race {
    /// Whether holding the button for `holding_time` beats the record.
    pub fn does_time_win(&self, holding_time: u64) -> (r: bool)
        requires
            holding_time <= self.time,
        ensures
            r == wins(*self, holding_time as int),
    {
        let a = holding_time as u128;
        let b = (self.time - holding_time) as u128;
        assert(a * b <= 0xffff_ffff_ffff_ffffu128 * 0xffff_ffff_ffff_ffffu128) by (nonlinear_arith)
            requires
                a <= 0xffff_ffff_ffff_ffffu128,
                b <= 0xffff_ffff_ffff_ffffu128,
        ;
        let travelled = a * b;
        assert(travelled == holding_time * (self.time - holding_time)) by (nonlinear_arith)
            requires
                travelled == a * b,
                a == holding_time,
                b == self.time - holding_time,
                holding_time <= self.time,
        ;
        travelled > self.dist as u128
    }

    /// Binary search for the edge of the winning holding times. With `left`, the
    /// smallest winning time in `[0, time / 2]` (or `time / 2 + 1` when there is none);
    /// otherwise the largest winning time in `[time / 2, time]` (or `time / 2 - 1`).
    pub fn search_for_bound(&self, left: bool) -> (r: u64)
        requires
            left || self.time >= 2,
        ensures
            left ==> r <= self.time / 2 + 1 && (forall|h: int| 0 <= h < r ==> !wins(*self, h)) && (
            forall|h: int| r <= h <= self.time / 2 ==> wins(*self, h)),
            !left ==> self.time / 2 - 1 <= r <= self.time && (forall|h: int|
                r < h <= self.time ==> !wins(*self, h)) && (forall|h: int|
                self.time / 2 <= h <= r ==> wins(*self, h)),
    {
        let half = self.time / 2;
        let mut l: u64 = if left { 0 } else { half };
        let mut r: u64 = if left { half } else { self.time };
        assert(travelled(*self, 0) == 0);
        assert(travelled(*self, self.time as int) == 0) by (nonlinear_arith);
        while l <= r
            invariant
                half == self.time / 2,
                left || self.time >= 2,
                left ==> l <= r + 1 <= half + 1 && (forall|h: int| 0 <= h < l ==> !wins(*self, h))
                    && (forall|h: int| r < h <= half ==> wins(*self, h)),
                !left ==> half <= l <= r + 1 <= self.time + 1 && (forall|h: int|
                    r < h <= self.time ==> !wins(*self, h)) && (forall|h: int|
                    half <= h < l ==> wins(*self, h)),
            decreases r - l + 1,
        {
            let s = l + (r - l) / 2;
            assert(travelled(*self, 0) == 0);
            assert(travelled(*self, self.time as int) == 0);
            if self.does_time_win(s) {
                if left {
                    assert forall|h: int| s <= h <= half implies wins(*self, h) by {
                        lemma_travelled_monotone(*self, s as int, h);
                    }
                    assert(s != 0);
                    r = s - 1;
                } else {
                    assert forall|h: int| half <= h <= s implies wins(*self, h) by {
                        lemma_travelled_monotone(*self, h, s as int);
                    }
                    assert(s != self.time);
                    l = s + 1;
                }
            } else if left {
                assert forall|h: int| 0 <= h <= s implies !wins(*self, h) by {
                    lemma_travelled_monotone(*self, h, s as int);
                }
                l = s + 1;
            } else {
                assert forall|h: int| s <= h <= self.time implies !wins(*self, h) by {
                    lemma_travelled_monotone(*self, s as int, h);
                }
                r = s - 1;
            }
        }
        if left {
            l
        } else {
            r
        }
    }

    /// How many holding times win the race.
    pub fn count_ways_to_win(&self) -> (r: u64)
        ensures
            winning_times(*self).finite(),
            r == winning_times(*self).len(),
    {
        if self.time < 2 {
            assert forall|h: int| 0 <= h <= self.time implies !wins(*self, h) by {
                assert(travelled(*self, h) == 0) by (nonlinear_arith)
                    requires
                        0 <= h <= self.time,
                        self.time < 2,
                ;
            }
            assert(winning_times(*self) =~= Set::empty());
            return 0;
        }
        let left_bound = self.search_for_bound(true);
        let right_bound = self.search_for_bound(false);
        let half = self.time / 2;
        assert(travelled(*self, 0) == 0);
        if right_bound < left_bound {
            assert forall|h: int| 0 <= h <= self.time implies !wins(*self, h) by {
                if wins(*self, h) {
                    if h <= half {
                        lemma_travelled_monotone(*self, h, half as int);
                    } else {
                        lemma_travelled_monotone(*self, half as int, h);
                    }
                    assert(wins(*self, half as int));
                }
            }
            assert(winning_times(*self) =~= Set::empty());
            return 0;
        }
        assert(winning_times(*self) =~= vstd::set_lib::set_int_range(
            left_bound as int,
            right_bound + 1,
        ));
        proof {
            vstd::set_lib::lemma_int_range(left_bound as int, right_bound + 1);
            if left_bound == 0 {
                assert(wins(*self, 0));
            }
        }
        right_bound - left_bound + 1
    }
}

/// The numbers after the colon of a line, when it has one and they all fit in a `u64`.
pub open spec fn line_numbers(line: Seq<u8>) -> Option<Seq<int>> {
    match after_first(line, 58u8) {
        Some(rest) => if forall|i: int| 0 <= i < numbers_in(rest).len() ==> #[trigger] numbers_in(rest)[i] <= u64::MAX {
            Some(numbers_in(rest))
        } else {
            None
        },
        None => None,
    }
}

/// The races of a sheet: the first line lists times, the second the records, each after
/// a colon; they pair up in order, as far as both lists go.
pub open spec fn race_sheet(b: Seq<u8>) -> Option<Seq<Race>> {
    let ls = lines_of(b);
    if ls.len() >= 2 && line_numbers(ls[0]) is Some && line_numbers(ls[1]) is Some {
        let t = line_numbers(ls[0]).unwrap();
        let d = line_numbers(ls[1]).unwrap();
        let n = if t.len() < d.len() { t.len() } else { d.len() };
        Some(Seq::new(n, |i: int| Race { time: t[i] as u64, dist: d[i] as u64 }))
    } else {
        None
    }
}

/// The number a line writes after its colon, its digits read as one number.
pub open spec fn line_joined(line: Seq<u8>) -> Option<u64> {
    match after_first(line, 58u8) {
        Some(rest) => if digits_of(rest).len() > 0 && decimal(digits_of(rest)) <= u64::MAX {
            Some(decimal(digits_of(rest)) as u64)
        } else {
            None
        },
        None => None,
    }
}

/// One race from a sheet whose numbers are read with the spaces between digits ignored.
pub open spec fn joined_race(b: Seq<u8>) -> Option<Race> {
    let ls = lines_of(b);
    if ls.len() >= 2 && line_joined(ls[0]) is Some && line_joined(ls[1]) is Some {
        Some(Race { time: line_joined(ls[0]).unwrap(), dist: line_joined(ls[1]).unwrap() })
    } else {
        None
    }
}

/// The product of the numbers of ways to win the races.
pub open spec fn ways_product(races: Seq<Race>) -> int
    decreases races.len(),
{
    if races.len() == 0 {
        1
    } else {
        ways_product(races.drop_last()) * winning_times(races.last()).len()
    }
}

fn numbers_after_colon(line: &Vec<u8>) -> (r: Option<Vec<u64>>)
    ensures
        r is Some == line_numbers(line@) is Some,
        r matches Some(v) ==> v@.len() == line_numbers(line@).unwrap().len() && forall|i: int|
            0 <= i < v@.len() ==> #[trigger] v@[i] == line_numbers(line@).unwrap()[i],
{
    match split_after(line.as_slice(), 58u8) {
        Some(rest) => parse_numbers(rest.as_slice()),
        None => None,
    }
}

/// Reads the races of a sheet.
#[verifier::rlimit(40)]
pub fn parse(input: &str) -> (r: Option<Vec<Race>>)
    ensures
        r is Some == race_sheet(input.spec_bytes()) is Some,
        r matches Some(v) ==> v@ == race_sheet(input.spec_bytes()).unwrap(),
{
    let lines = split_lines(input);
    if lines.len() < 2 {
        return None;
    }
    let ghost ls = lines_of(input.spec_bytes());
    assert(lines@[0]@ == ls[0] && lines@[1]@ == ls[1]);
    let ghost sheet = race_sheet(input.spec_bytes());
    let times = match numbers_after_colon(&lines[0]) {
        Some(t) => t,
        None => return None,
    };
    let dists = match numbers_after_colon(&lines[1]) {
        Some(d) => d,
        None => return None,
    };
    let n = if times.len() < dists.len() { times.len() } else { dists.len() };
    let mut races: Vec<Race> = Vec::new();
    let mut i: usize = 0;
    while i < n
        invariant
            n <= times@.len(),
            n <= dists@.len(),
            i <= n,
            races@.len() == i,
            forall|k: int| 0 <= k < i ==> #[trigger] races@[k] == (Race { time: times@[k], dist: dists@[k] }),
        decreases n - i,
    {
        races.push(Race { time: times[i], dist: dists[i] });
        i = i + 1;
    }
    proof {
        let t = line_numbers(ls[0]).unwrap();
        let d = line_numbers(ls[1]).unwrap();
        assert(sheet == Some(Seq::new(n as nat, |k: int| Race { time: t[k] as u64, dist: d[k] as u64 })));
        assert(races@ =~= sheet.unwrap());
    }
    Some(races)
}

/// Reads a sheet as one race, the digits of each line joined.
pub fn parse2(input: &str) -> (r: Option<Race>)
    ensures
        r == joined_race(input.spec_bytes()),
{
    let lines = split_lines(input);
    if lines.len() < 2 {
        return None;
    }
    let ghost ls = lines_of(input.spec_bytes());
    assert(lines@[0]@ == ls[0] && lines@[1]@ == ls[1]);
    let time = match split_after(lines[0].as_slice(), 58u8) {
        Some(rest) => joined_number(rest.as_slice()),
        None => None,
    };
    let dist = match split_after(lines[1].as_slice(), 58u8) {
        Some(rest) => joined_number(rest.as_slice()),
        None => None,
    };
    match (time, dist) {
        (Some(time), Some(dist)) => Some(Race { time, dist }),
        _ => None,
    }
}

proof fn lemma_ways_product_prefix(races: Seq<Race>, k: int)
    requires
        0 <= k <= races.len(),
        forall|i: int| 0 <= i < races.len() ==> winning_times(#[trigger] races[i]).len() >= 1,
    ensures
        1 <= ways_product(races.subrange(0, k)) <= ways_product(races),
    decreases races.len(),
{
    if races.len() > 0 {
        let d = races.drop_last();
        assert(d.subrange(0, d.len() as int) =~= d);
        assert(winning_times(races[races.len() - 1]).len() >= 1);
        if k == races.len() {
            assert(races.subrange(0, k) =~= races);
            lemma_ways_product_prefix(d, d.len() as int);
        } else {
            assert(d.subrange(0, k) =~= races.subrange(0, k));
            lemma_ways_product_prefix(d, k);
            lemma_ways_product_prefix(d, d.len() as int);
        }
        let p = ways_product(d);
        let w = winning_times(races.last()).len() as int;
        assert(p <= p * w) by (nonlinear_arith)
            requires
                p >= 1,
                w >= 1,
        ;
        assert(p * w >= 1) by (nonlinear_arith)
            requires
                p >= 1,
                w >= 1,
        ;
    } else {
        assert(races.subrange(0, k) =~= races);
    }
}

proof fn lemma_ways_product_zero(races: Seq<Race>, j: int)
    requires
        0 <= j < races.len(),
        winning_times(races[j]).len() == 0,
    ensures
        ways_product(races) == 0,
    decreases races.len(),
{
    let p = ways_product(races.drop_last());
    let w = winning_times(races.last()).len() as int;
    if j < races.len() - 1 {
        assert(races.drop_last()[j] == races[j]);
        lemma_ways_product_zero(races.drop_last(), j);
        assert(p * w == 0) by (nonlinear_arith)
            requires
                p == 0,
        ;
    } else {
        assert(p * w == 0) by (nonlinear_arith)
            requires
                w == 0,
        ;
    }
}

/// The product of the numbers of ways to win the races of a sheet.
#[verifier::rlimit(40)]
pub fn calc_solution_1(input: &str) -> (r: u64)
    requires
        race_sheet(input.spec_bytes()) is Some,
        ways_product(race_sheet(input.spec_bytes()).unwrap()) <= u64::MAX,
    ensures
        r == ways_product(race_sheet(input.spec_bytes()).unwrap()),
{
    let races = match parse(input) {
        Some(races) => races,
        None => return 1,
    };
    let ghost rs = races@;
    assert(rs == race_sheet(input.spec_bytes()).unwrap());
    let mut ways: Vec<u64> = Vec::new();
    let mut i: usize = 0;
    while i < races.len()
        invariant
            rs == races@,
            i <= rs.len(),
            ways@.len() == i,
            forall|k: int| 0 <= k < i ==> #[trigger] ways@[k] == winning_times(rs[k]).len(),
        decreases rs.len() - i,
    {
        let w = races[i].count_ways_to_win();
        ways.push(w);
        i = i + 1;
    }
    let mut i: usize = 0;
    while i < ways.len()
        invariant
            rs == race_sheet(input.spec_bytes()).unwrap(),
            i <= ways@.len(),
            ways@.len() == rs.len(),
            forall|k: int| 0 <= k < rs.len() ==> #[trigger] ways@[k] == winning_times(rs[k]).len(),
            forall|k: int| 0 <= k < i ==> #[trigger] ways@[k] != 0,
        decreases ways@.len() - i,
    {
        if ways[i] == 0 {
            proof {
                assert(winning_times(rs[i as int]).len() == 0);
                lemma_ways_product_zero(rs, i as int);
            }
            return 0;
        }
        i = i + 1;
    }
    let mut product: u64 = 1;
    let mut i: usize = 0;
    proof {
        assert forall|k: int| 0 <= k < rs.len() implies winning_times(#[trigger] rs[k]).len() >= 1 by {
            assert(ways@[k] != 0);
        }
    }
    while i < ways.len()
        invariant
            i <= ways@.len(),
            ways@.len() == rs.len(),
            forall|k: int| 0 <= k < rs.len() ==> #[trigger] ways@[k] == winning_times(rs[k]).len(),
            forall|k: int| 0 <= k < rs.len() ==> winning_times(#[trigger] rs[k]).len() >= 1,
            ways_product(rs) <= u64::MAX,
            product == ways_product(rs.subrange(0, i as int)),
        decreases ways@.len() - i,
    {
        proof {
            lemma_ways_product_prefix(rs, i + 1);
            assert(rs.subrange(0, i + 1).drop_last() =~= rs.subrange(0, i as int));
        }
        product = product * ways[i];
        i = i + 1;
    }
    assert(rs.subrange(0, rs.len() as int) =~= rs);
    product
}

/// The number of ways to win the one race of a sheet read with its digits joined.
pub fn calc_solution_2(input: &str) -> (r: u64)
    requires
        joined_race(input.spec_bytes()) is Some,
    ensures
        r == winning_times(joined_race(input.spec_bytes()).unwrap()).len(),
{
    match parse2(input) {
        Some(race) => race.count_ways_to_win(),
        None => 0,
    }
}

} // verus!
