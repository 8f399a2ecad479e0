//! The first window of pairwise distinct bytes in a data stream.

use vstd::prelude::*;

verus! {

#[derive(Clone, Copy, Debug, PartialEq, Eq)]
pub enum DuplicateIndex {
    /// The first index whose byte appears again later.
    Index(usize),
    NoDuplicates,
}

/// Some later position of `s` holds the same byte as position `i`.
pub open spec fn repeats_later(s: Seq<u8>, i: int) -> bool {
    exists|j: int| i < j < s.len() && s[j] == s[i]
}

/// The bytes of `s` are pairwise distinct.
pub open spec fn all_distinct(s: Seq<u8>) -> bool {
    forall|a: int, b: int| 0 <= a < b < s.len() ==> s[a] != s[b]
}

/// The window of `len` bytes that starts at `start` holds pairwise distinct bytes.
pub open spec fn distinct_window(data: Seq<u8>, start: int, len: int) -> bool {
    all_distinct(data.subrange(start, start + len))
}

/// The first index of `s` whose byte occurs again later, if there is one.
pub fn find_first_duplicate(s: &[u8]) -> (r: DuplicateIndex)
    ensures
        r is NoDuplicates <==> all_distinct(s@),
        r matches DuplicateIndex::Index(i) ==> i < s@.len() && repeats_later(s@, i as int) && (
        forall|k: int| 0 <= k < i ==> !repeats_later(s@, k)),
{
    let mut i: usize = 0;
    while i < s.len()
        invariant
            i <= s@.len(),
            forall|k: int| 0 <= k < i ==> !repeats_later(s@, k),
        decreases s@.len() - i,
    {
        let mut j: usize = i + 1;
        while j < s.len()
            invariant
                i < s@.len(),
                i + 1 <= j <= s@.len(),
                forall|t: int| i < t < j ==> s@[t] != s@[i as int],
                forall|k: int| 0 <= k < i ==> !repeats_later(s@, k),
            decreases s@.len() - j,
        {
            if s[i] == s[j] {
                assert(repeats_later(s@, i as int));
                return DuplicateIndex::Index(i);
            }
            j = j + 1;
        }
        i = i + 1;
    }
    assert forall|a: int, b: int| 0 <= a < b < s@.len() implies s@[a] != s@[b] by {
        assert(!repeats_later(s@, a));
    }
    DuplicateIndex::NoDuplicates
}

/// The end (exclusive) of the first window of `len` pairwise distinct bytes.
pub fn find_end_of_first_unique_substr(data: &[u8], len: usize) -> (r: Result<usize, &'static str>)
    requires
        len >= 1,
    ensures
        r matches Ok(e) ==> len <= e <= data@.len() && distinct_window(data@, e - len, len as int)
            && forall|st: int| 0 <= st < e - len ==> !#[trigger] distinct_window(data@, st, len as int),
        r is Err ==> forall|st: int|
            0 <= st && st + len <= data@.len() ==> !#[trigger] distinct_window(data@, st, len as int),
{
    let mut i: usize = 0;
    while i < data.len() && len <= data.len() - i
        invariant
            len >= 1,
            forall|st: int|
                0 <= st < i && st + len <= data@.len() ==> !#[trigger] distinct_window(
                    data@,
                    st,
                    len as int,
                ),
        decreases data@.len() - i,
    {
        let window = &data[i..i + len];
        assert(window@ == data@.subrange(i as int, i + len));
        match find_first_duplicate(window) {
            DuplicateIndex::NoDuplicates => {
                return Ok(i + len);
            },
            DuplicateIndex::Index(ind) => {
                let ghost q = choose|q: int| ind < q < window@.len() && window@[q] == window@[ind as int];
                assert forall|st: int| i <= st <= i + ind && st + len <= data@.len() implies !#[trigger] distinct_window(
                    data@,
                    st,
                    len as int,
                ) by {
                    let w = data@.subrange(st, st + len);
                    assert(w[i + ind - st] == data@[i + ind]);
                    assert(w[i + q - st] == data@[i + q]);
                }
                i = i + ind + 1;
            },
        }
    }
    Err("Reached end of data with no window of non duplicates found")
}

} // verus!
