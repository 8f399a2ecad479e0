//! The first four consecutive pairwise distinct bytes of a data stream.

use vstd::prelude::*;
use crate::unique_window::{all_distinct, distinct_window, repeats_later};

verus! {

#[derive(Clone, Copy, Debug, PartialEq, Eq)]
pub enum EqualityResult {
    /// The first index whose byte appears again later in the quartet.
    IndexOfFirstDuplicate(usize),
    NoDuplicates,
}

/// Checks four bytes for repeats. Any other length is refused.
pub fn check_quartet_for_duplicates(s: &[u8]) -> (r: Result<EqualityResult, ()>)
    ensures
        r is Err <==> s@.len() != 4,
        r == Ok::<EqualityResult, ()>(EqualityResult::NoDuplicates) <==> s@.len() == 4
            && all_distinct(s@),
        r matches Ok(EqualityResult::IndexOfFirstDuplicate(i)) ==> i < 4 && repeats_later(
            s@,
            i as int,
        ) && (forall|k: int| 0 <= k < i ==> !repeats_later(s@, k)),
{
    if s.len() != 4 {
        Err(())
    } else if s[0] == s[1] || s[0] == s[2] || s[0] == s[3] {
        Ok(EqualityResult::IndexOfFirstDuplicate(0))
    } else if s[1] == s[2] || s[1] == s[3] {
        assert(!repeats_later(s@, 0));
        Ok(EqualityResult::IndexOfFirstDuplicate(1))
    } else if s[2] == s[3] {
        assert(!repeats_later(s@, 0));
        assert(!repeats_later(s@, 1));
        Ok(EqualityResult::IndexOfFirstDuplicate(2))
    } else {
        Ok(EqualityResult::NoDuplicates)
    }
}

/// The end (exclusive) of the first four consecutive pairwise distinct bytes.
pub fn find_first_nonduplicate_quartet_end_index(data: &[u8]) -> (r: Result<usize, &'static str>)
    ensures
        r matches Ok(e) ==> 4 <= e <= data@.len() && distinct_window(data@, e - 4, 4) && forall|
            st: int,
        | 0 <= st < e - 4 ==> !#[trigger] distinct_window(data@, st, 4),
        r is Err ==> forall|st: int|
            0 <= st && st + 4 <= data@.len() ==> !#[trigger] distinct_window(data@, st, 4),
{
    let mut i: usize = 0;
    while i < data.len() && 4 <= data.len() - i
        invariant
            forall|st: int|
                0 <= st < i && st + 4 <= data@.len() ==> !#[trigger] distinct_window(data@, st, 4),
        decreases data@.len() - i,
    {
        let window = &data[i..i + 4];
        assert(window@ == data@.subrange(i as int, i + 4));
        match check_quartet_for_duplicates(window) {
            Ok(EqualityResult::NoDuplicates) => {
                return Ok(i + 4);
            },
            Ok(EqualityResult::IndexOfFirstDuplicate(ind)) => {
                let ghost q = choose|q: int| ind < q < window@.len() && window@[q] == window@[ind as int];
                assert forall|st: int| i <= st <= i + ind && st + 4 <= data@.len() implies
                    !#[trigger] distinct_window(data@, st, 4) by {
                    let w = data@.subrange(st, st + 4);
                    assert(w[i + ind - st] == data@[i + ind]);
                    assert(w[i + q - st] == data@[i + q]);
                }
                i = i + ind + 1;
            },
            Err(_) => {
                i = i + 1;
            },
        }
    }
    Err("Reached end of string with no duplicates found")
}

} // verus!
