//! The three largest calorie sums carried by elves.

use vstd::prelude::*;

verus! {

pub open spec fn ascending3(s: Seq<u32>) -> bool {
    s.len() == 3 && s[0] <= s[1] <= s[2]
}

/// The three largest of `s[0], s[1], s[2], v`, ascending, for an ascending `s`.
pub open spec fn top_three(s: Seq<u32>, v: u32) -> Seq<u32> {
    if v <= s[0] {
        s
    } else if v <= s[1] {
        seq![v, s[1], s[2]]
    } else if v <= s[2] {
        seq![s[1], v, s[2]]
    } else {
        seq![s[1], s[2], v]
    }
}

/// Adds `new_sum` to the three largest sums so far, kept ascending, dropping the
/// smallest of the four.
pub fn calc_new_max_sums(max_sums: &mut Vec<u32>, new_sum: u32)
    requires
        old(max_sums)@.len() == 3,
    ensures
        final(max_sums)@.len() == 3,
        ascending3(old(max_sums)@) ==> final(max_sums)@ == top_three(old(max_sums)@, new_sum),
{
    let first = if max_sums[0] > new_sum { max_sums[0] } else { new_sum };
    max_sums.set(0, first);
    if max_sums[1] < max_sums[0] {
        let a = max_sums[0];
        let b = max_sums[1];
        max_sums.set(0, b);
        max_sums.set(1, a);
    }
    if max_sums[2] < max_sums[1] {
        let a = max_sums[1];
        let b = max_sums[2];
        max_sums.set(1, b);
        max_sums.set(2, a);
    }
    proof {
        if ascending3(old(max_sums)@) {
            assert(max_sums@ =~= top_three(old(max_sums)@, new_sum));
        }
    }
}

} // verus!
