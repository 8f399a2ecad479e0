//! Monkeys passing items by worry level: arithmetic of one inspection and one test.

use vstd::prelude::*;
use vstd::arithmetic::div_mod::lemma_fundamental_div_mod;

verus! {

#[derive(Clone, Copy, Debug, PartialEq, Eq)]
pub enum Op {
    Add,
    Mult,
}

#[derive(Clone, Copy, Debug, PartialEq, Eq)]
pub enum Operand {
    Num(u64),
    Old,
}

/// The operation `operand1 op operand2` that a monkey applies to a worry level.
#[derive(Clone, Copy, Debug, PartialEq, Eq)]
pub struct MonkeyOp {
    pub operand1: Operand,
    pub op: Op,
    pub operand2: Operand,
}

/// Divisibility test: the item goes to `truthy` when `div` divides the worry level,
/// else to `falsy`.
#[derive(Clone, Copy, Debug, PartialEq, Eq)]
pub struct Test {
    pub div: u64,
    pub truthy: usize,
    pub falsy: usize,
}

pub open spec fn operand_value(o: Operand, old_val: int) -> int {
    match o {
        Operand::Num(n) => n as int,
        Operand::Old => old_val,
    }
}

/// The new worry level after the operation.
pub open spec fn op_result(m: MonkeyOp, old_val: int) -> int {
    let a = operand_value(m.operand1, old_val);
    let b = operand_value(m.operand2, old_val);
    match m.op {
        Op::Add => a + b,
        Op::Mult => a * b,
    }
}

/// `d` divides `n`.
pub open spec fn divides(d: int, n: int) -> bool {
    exists|k: int| n == #[trigger] (k * d)
}

/// `g` is the greatest common divisor of `a` and `b`: a common divisor that every
/// common divisor divides (0 for `a == b == 0`).
pub open spec fn is_gcd(a: int, b: int, g: int) -> bool {
    &&& g >= 0
    &&& divides(g, a)
    &&& divides(g, b)
    &&& forall|d: int| divides(d, a) && divides(d, b) ==> divides(d, g)
}

impl MonkeyOp {
    /// The worry level after this operation.
    pub fn apply_op(&self, old_val: u64) -> (r: u64)
        requires
            op_result(*self, old_val as int) <= u64::MAX,
        ensures
            r == op_result(*self, old_val as int),
    {
        let op1 = match self.operand1 {
            Operand::Old => old_val,
            Operand::Num(num) => num,
        };
        let op2 = match self.operand2 {
            Operand::Old => old_val,
            Operand::Num(num) => num,
        };
        match self.op {
            Op::Add => op1 + op2,
            Op::Mult => op1 * op2,
        }
    }
}

impl Test {
    /// The monkey that receives an item with worry level `val`.
    pub fn test(self, val: u64) -> (r: usize)
        requires
            self.div != 0,
        ensures
            r == if val % self.div == 0 { self.truthy } else { self.falsy },
    {
        if val % self.div == 0 {
            self.truthy
        } else {
            self.falsy
        }
    }
}

/// Euclid's step keeps the common divisors: those of `(a, b)` are those of `(b, a % b)`.
proof fn lemma_euclid_step(a: int, b: int, d: int)
    requires
        a >= 0,
        b > 0,
    ensures
        (divides(d, a) && divides(d, b)) == (divides(d, b) && divides(d, a % b)),
{
    lemma_fundamental_div_mod(a, b);
    let q = a / b;
    let m = a % b;
    assert(a == b * q + m);
    if divides(d, a) && divides(d, b) {
        let x = choose|x: int| a == #[trigger] (x * d);
        let y = choose|y: int| b == #[trigger] (y * d);
        assert(m == (x - y * q) * d) by (nonlinear_arith)
            requires
                a == b * q + m,
                a == x * d,
                b == y * d,
        ;
    }
    if divides(d, b) && divides(d, m) {
        let y = choose|y: int| b == #[trigger] (y * d);
        let z = choose|z: int| m == #[trigger] (z * d);
        assert(a == (y * q + z) * d) by (nonlinear_arith)
            requires
                a == b * q + m,
                b == y * d,
                m == z * d,
        ;
    }
}

/// Greatest common divisor, by Euclid's algorithm.
pub fn gcd(a: u64, b: u64) -> (r: u64)
    ensures
        is_gcd(a as int, b as int, r as int),
    decreases b,
{
    if b == 0 {
        assert(a as int == 1 * a as int);
        assert(0 == 0 * a as int);
        assert(divides(a as int, 0));
        assert forall|d: int| divides(d, a as int) && divides(d, b as int) implies divides(
            d,
            a as int,
        ) by {}
        a
    } else {
        let r = gcd(b, a % b);
        proof {
            assert forall|d: int| #![trigger divides(d, a as int)]
                divides(d, a as int) && divides(d, b as int) implies divides(d, r as int) by {
                lemma_euclid_step(a as int, b as int, d);
            }
            lemma_euclid_step(a as int, b as int, r as int);
        }
        r
    }
}

/// Least common multiple: `a * b / gcd(a, b)`.
pub fn lcm(a: u64, b: u64) -> (r: u64)
    requires
        a != 0 || b != 0,
        a * b <= u64::MAX,
    ensures
        exists|g: int| g > 0 && is_gcd(a as int, b as int, g) && r == (a * b) / g,
{
    let g = gcd(a, b);
    if g == 0 {
        proof {
            let k = choose|k: int| a as int == #[trigger] (k * 0);
            let l = choose|l: int| b as int == #[trigger] (l * 0);
        }
    }
    a * b / g
}

/// A monkey, the items it holds and how many items it has inspected.
#[derive(Debug)]
pub struct Monkey {
    pub index: usize,
    pub items: Vec<u64>,
    pub operation: MonkeyOp,
    pub test: Test,
    pub inspect_count: u64,
}

/// Number of monkeys whose inspection count is above `v`, and at least `v`.
pub open spec fn count_above(ms: Seq<Monkey>, v: int) -> int
    decreases ms.len(),
{
    if ms.len() == 0 {
        0
    } else {
        count_above(ms.drop_last(), v) + if ms.last().inspect_count > v { 1int } else { 0int }
    }
}

pub open spec fn count_at_least(ms: Seq<Monkey>, v: int) -> int
    decreases ms.len(),
{
    if ms.len() == 0 {
        0
    } else {
        count_at_least(ms.drop_last(), v) + if ms.last().inspect_count >= v { 1int } else { 0int }
    }
}

/// `a >= b` are the two largest inspection counts (with repeats): no count exceeds
/// `a`, and `b` is the largest value that at least two counts reach.
pub open spec fn top_two(ms: Seq<Monkey>, a: int, b: int) -> bool {
    &&& count_above(ms, a) == 0
    &&& count_at_least(ms, a) >= 1
    &&& count_above(ms, b) <= 1
    &&& count_at_least(ms, b) >= 2
}

proof fn lemma_counts_step(ms: Seq<Monkey>, k: int, v: int)
    requires
        0 <= k < ms.len(),
    ensures
        count_above(ms.subrange(0, k + 1), v) == count_above(ms.subrange(0, k), v) + if ms[k].inspect_count > v { 1int } else { 0int },
        count_at_least(ms.subrange(0, k + 1), v) == count_at_least(ms.subrange(0, k), v) + if ms[k].inspect_count >= v { 1int } else { 0int },
{
    assert(ms.subrange(0, k + 1).drop_last() =~= ms.subrange(0, k));
}

/// The monkey business: the product of the two largest inspection counts (of the only
/// one for a single monkey, 1 for none).
pub fn calc_score(monkeys: &Vec<Monkey>) -> (r: u64)
    requires
        forall|i: int, j: int|
            0 <= i < monkeys@.len() && 0 <= j < monkeys@.len() && i != j ==> #[trigger] monkeys@[i].inspect_count
                * #[trigger] monkeys@[j].inspect_count <= u64::MAX,
    ensures
        monkeys@.len() == 0 ==> r == 1,
        monkeys@.len() == 1 ==> r == monkeys@[0].inspect_count,
        monkeys@.len() >= 2 ==> exists|a: int, b: int| top_two(monkeys@, a, b) && r == a * b,
{
    if monkeys.len() == 0 {
        return 1;
    }
    if monkeys.len() == 1 {
        return monkeys[0].inspect_count;
    }
    let ghost ms = monkeys@;
    let mut first: u64 = if monkeys[0].inspect_count >= monkeys[1].inspect_count { monkeys[0].inspect_count } else { monkeys[1].inspect_count };
    let mut second: u64 = if monkeys[0].inspect_count >= monkeys[1].inspect_count { monkeys[1].inspect_count } else { monkeys[0].inspect_count };
    let ghost mut fi: int = if ms[0].inspect_count >= ms[1].inspect_count { 0 } else { 1 };
    let ghost mut si: int = 1 - fi;
    proof {
        lemma_counts_step(ms, 0, first as int);
        lemma_counts_step(ms, 1, first as int);
        lemma_counts_step(ms, 0, second as int);
        lemma_counts_step(ms, 1, second as int);
        assert(ms.subrange(0, 0) =~= Seq::<Monkey>::empty());
    }
    let mut k: usize = 2;
    while k < monkeys.len()
        invariant
            ms == monkeys@,
            2 <= k <= ms.len(),
            0 <= fi < k && 0 <= si < k && fi != si,
            ms[fi].inspect_count == first && ms[si].inspect_count == second,
            second <= first,
            top_two(ms.subrange(0, k as int), first as int, second as int),
        decreases ms.len() - k,
    {
        let c = monkeys[k].inspect_count;
        let ghost (of, os) = (first as int, second as int);
        proof {
            lemma_counts_step(ms, k as int, of);
            lemma_counts_step(ms, k as int, os);
            lemma_counts_step(ms, k as int, c as int);
        }
        if c > first {
            second = first;
            first = c;
            proof {
                si = fi;
                fi = k as int;
                lemma_count_monotone(ms.subrange(0, k as int), of, c as int);
                lemma_count_nonneg(ms.subrange(0, k as int), c as int);
            }
        } else if c > second {
            second = c;
            proof {
                si = k as int;
                lemma_count_monotone(ms.subrange(0, k as int), os, c as int);
                lemma_count_at_least_monotone(ms.subrange(0, k as int), c as int, of);
            }
        }
        k = k + 1;
    }
    assert(ms.subrange(0, ms.len() as int) =~= ms);
    assert(ms[fi].inspect_count * ms[si].inspect_count <= u64::MAX);
    first * second
}

proof fn lemma_count_nonneg(ms: Seq<Monkey>, v: int)
    ensures
        count_above(ms, v) >= 0,
        count_at_least(ms, v) >= 0,
    decreases ms.len(),
{
    if ms.len() > 0 {
        lemma_count_nonneg(ms.drop_last(), v);
    }
}

proof fn lemma_count_monotone(ms: Seq<Monkey>, v: int, w: int)
    requires
        v <= w,
    ensures
        count_above(ms, w) <= count_above(ms, v),
    decreases ms.len(),
{
    if ms.len() > 0 {
        lemma_count_monotone(ms.drop_last(), v, w);
    }
}

proof fn lemma_count_at_least_monotone(ms: Seq<Monkey>, v: int, w: int)
    requires
        v <= w,
    ensures
        count_at_least(ms, w) <= count_at_least(ms, v),
    decreases ms.len(),
{
    if ms.len() > 0 {
        lemma_count_at_least_monotone(ms.drop_last(), v, w);
    }
}

} // verus!
