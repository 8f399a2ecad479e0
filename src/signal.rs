//! A one-register CPU: register traces, signal strengths and the pixels drawn.

use vstd::prelude::*;

verus! {

#[derive(Clone, Copy, Debug, PartialEq, Eq)]
pub enum Op {
    /// Takes one cycle.
    Noop,
    /// Takes two cycles, then adds its argument to the register.
    Addx(i32),
}

/// The register after running `ops`; it starts at 1.
pub open spec fn register_after(ops: Seq<Op>) -> int
    decreases ops.len(),
{
    if ops.len() == 0 {
        1
    } else {
        register_after(ops.drop_last()) + match ops.last() {
            Op::Noop => 0,
            Op::Addx(n) => n as int,
        }
    }
}

/// The register during each cycle of running `ops`.
pub open spec fn register_trace(ops: Seq<Op>) -> Seq<int>
    decreases ops.len(),
{
    if ops.len() == 0 {
        Seq::empty()
    } else {
        let x = register_after(ops.drop_last());
        register_trace(ops.drop_last()) + match ops.last() {
            Op::Noop => seq![x],
            Op::Addx(_) => seq![x, x],
        }
    }
}

/// The register stays an `i32` all along.
pub open spec fn register_fits(ops: Seq<Op>) -> bool {
    forall|k: int| 0 <= k <= ops.len() ==> i32::MIN <= #[trigger] register_after(ops.subrange(0, k))
        <= i32::MAX
}

pub open spec fn as_ints(v: Seq<i32>) -> Seq<int> {
    Seq::new(v.len(), |k: int| v[k] as int)
}

/// The register value during every cycle.
pub fn calc_register_values_at_cycle(ops: &Vec<Op>) -> (r: Vec<i32>)
    requires
        register_fits(ops@),
    ensures
        as_ints(r@) == register_trace(ops@),
{
    let mut signals: Vec<i32> = Vec::new();
    let mut x: i32 = 1;
    let mut k: usize = 0;
    while k < ops.len()
        invariant
            k <= ops@.len(),
            register_fits(ops@),
            x == register_after(ops@.subrange(0, k as int)),
            as_ints(signals@) == register_trace(ops@.subrange(0, k as int)),
        decreases ops@.len() - k,
    {
        let ghost before = signals@;
        assert(ops@.subrange(0, k + 1).drop_last() =~= ops@.subrange(0, k as int));
        assert(i32::MIN <= register_after(ops@.subrange(0, k + 1)) <= i32::MAX);
        match ops[k] {
            Op::Noop => {
                signals.push(x);
                assert(as_ints(signals@) =~= as_ints(before) + seq![x as int]);
            },
            Op::Addx(num) => {
                signals.push(x);
                signals.push(x);
                assert(as_ints(signals@) =~= as_ints(before) + seq![x as int, x as int]);
                x = x + num;
            },
        }
        k = k + 1;
    }
    assert(ops@.subrange(0, ops@.len() as int) =~= ops@);
    signals
}

/// The cycles (counted from 0) whose signal strength is sampled: 19, 59, 99, ...
pub open spec fn sampled(cycle: int) -> bool {
    (cycle + 21) % 40 == 0
}

/// Signal strengths, the register times the cycle number counted from 1, over the
/// sampled cycles among the first `n`.
pub open spec fn strengths(regs: Seq<i32>, n: int) -> Seq<int>
    decreases n,
{
    if n <= 0 {
        Seq::empty()
    } else if sampled(n - 1) {
        strengths(regs, n - 1).push(regs[n - 1] * n)
    } else {
        strengths(regs, n - 1)
    }
}

/// The signal strengths at the sampled cycles, in order.
pub fn calc_signal_strengths(register_values: &Vec<i32>) -> (r: Vec<i32>)
    requires
        forall|c: int|
            0 <= c < register_values@.len() && sampled(c) ==> i32::MIN <= #[trigger] register_values@[c]
                * (c + 1) <= i32::MAX,
    ensures
        as_ints(r@) == strengths(register_values@, register_values@.len() as int),
{
    let mut out: Vec<i32> = Vec::new();
    let mut cycle: usize = 0;
    while cycle < register_values.len()
        invariant
            cycle <= register_values@.len(),
            forall|c: int|
                0 <= c < register_values@.len() && sampled(c) ==> i32::MIN <= #[trigger] register_values@[c]
                    * (c + 1) <= i32::MAX,
            as_ints(out@) == strengths(register_values@, cycle as int),
        decreases register_values@.len() - cycle,
    {
        let ghost before = out@;
        assert((cycle % 40 + 21) % 40 == (cycle + 21) % 40);
        if (cycle % 40 + 21) % 40 == 0 {
            let v = register_values[cycle] as i128 * (cycle as i128 + 1);
            assert(v == register_values@[cycle as int] * (cycle + 1));
            out.push(v as i32);
            assert(as_ints(out@) =~= as_ints(before).push(v as int));
        }
        cycle = cycle + 1;
    }
    out
}

/// The pixel drawn during `cycle`: lit when the register `reg` lies in
/// `[(cycle + 1) % 40 - 2, (cycle + 1) % 40]`.
pub open spec fn pixel(cycle: int, reg: int) -> char {
    let pos = (cycle + 1) % 40;
    if reg <= pos <= reg + 2 {
        '#'
    } else {
        '.'
    }
}

/// The pixel drawn during each cycle.
pub fn get_display_pixels(register_values: &Vec<i32>) -> (r: Vec<char>)
    ensures
        r@.len() == register_values@.len(),
        forall|c: int| 0 <= c < r@.len() ==> #[trigger] r@[c] == pixel(c, register_values@[c] as int),
{
    let mut out: Vec<char> = Vec::new();
    let mut cycle: usize = 0;
    while cycle < register_values.len()
        invariant
            cycle <= register_values@.len(),
            out@.len() == cycle,
            forall|c: int| 0 <= c < cycle ==> #[trigger] out@[c] == pixel(c, register_values@[c] as int),
        decreases register_values@.len() - cycle,
    {
        let pos = ((cycle % 40 + 1) % 40) as i64;
        assert(pos == (cycle + 1) % 40) by {
            assert((cycle % 40 + 1) % 40 == (cycle + 1) % 40);
        }
        let reg = register_values[cycle] as i64;
        if reg <= pos && pos <= reg + 2 {
            out.push('#');
        } else {
            out.push('.');
        }
        cycle = cycle + 1;
    }
    out
}

/// The signal strengths at the sampled cycles while running `ops`.
pub fn get_signal_strengths(ops: &Vec<Op>) -> (r: Vec<i32>)
    requires
        register_fits(ops@),
        forall|c: int|
            0 <= c < register_trace(ops@).len() && sampled(c) ==> i32::MIN <= #[trigger] register_trace(ops@)[c]
                * (c + 1) <= i32::MAX,
    ensures
        exists|regs: Seq<i32>| as_ints(regs) == register_trace(ops@) && as_ints(r@) == strengths(regs, regs.len() as int),
{
    let regs = calc_register_values_at_cycle(ops);
    assert forall|c: int| 0 <= c < regs@.len() && sampled(c) implies i32::MIN <= #[trigger] regs@[c] * (c + 1) <= i32::MAX by {
        assert(as_ints(regs@)[c] == regs@[c]);
    }
    calc_signal_strengths(&regs)
}

} // verus!
