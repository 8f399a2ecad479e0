//! Rucksack priorities: the item type found in both compartments of a rucksack.

use vstd::prelude::*;
use vstd::string::StrSliceExecFns;
use itertools::Itertools;

verus! {

pub open spec fn is_ascii_letter(c: char) -> bool {
    ('a' <= c && c <= 'z') || ('A' <= c && c <= 'Z')
}

/// `a` to `z` are worth 1 to 26, `A` to `Z` 27 to 52.
pub open spec fn priority(c: char) -> int {
    if 'a' <= c && c <= 'z' {
        c as int - 'a' as int + 1
    } else {
        c as int - 'A' as int + 27
    }
}

pub open spec fn ascending(s: Seq<char>) -> bool {
    forall|i: int, j: int| 0 <= i <= j < s.len() ==> s[i] <= s[j]
}

/// `c` occurs in both sides.
pub open spec fn in_both(left: Seq<char>, right: Seq<char>, c: char) -> bool {
    left.contains(c) && right.contains(c)
}

/// Relies on itertools' `Itertools::sorted`, which collects the items into a vector and
/// sorts it: the same characters, ascending.
#[verifier::external_body]
fn sorted_chars(s: &str) -> (r: Vec<char>)
    ensures
        r@.to_multiset() == s@.to_multiset(),
        ascending(r@),
{
    s.chars().sorted().collect()
}

/// The priority of an item type.
pub fn type_to_score(t: char) -> (r: u32)
    requires
        is_ascii_letter(t),
    ensures
        r == priority(t),
{
    if t >= 'a' && t <= 'z' {
        (t as u32) - ('a' as u32) + 1
    } else {
        (t as u32) - ('A' as u32) + 27
    }
}

proof fn lemma_same_contains(a: Seq<char>, b: Seq<char>, c: char)
    requires
        a.to_multiset() == b.to_multiset(),
    ensures
        a.contains(c) == b.contains(c),
{
    broadcast use vstd::seq_lib::group_to_multiset_ensures;

    assert(a.contains(c) == (a.to_multiset().count(c) > 0));
    assert(b.contains(c) == (b.to_multiset().count(c) > 0));
}

/// The smallest item type that occurs in both compartments.
pub fn find_common_elements(left_side: &str, right_side: &str) -> (r: char)
    requires
        exists|c: char| in_both(left_side@, right_side@, c),
    ensures
        in_both(left_side@, right_side@, r),
        forall|c: char| c < r ==> !in_both(left_side@, right_side@, c),
{
    let left = sorted_chars(left_side);
    let right = sorted_chars(right_side);
    proof {
        assert forall|c: char| in_both(left_side@, right_side@, c) == in_both(left@, right@, c) by {
            lemma_same_contains(left@, left_side@, c);
            lemma_same_contains(right@, right_side@, c);
        }
    }
    let ghost l = left@;
    let ghost rr = right@;
    let mut j: usize = 0;
    let mut i: usize = 0;
    while i < left.len()
        invariant
            l == left@,
            rr == right@,
            ascending(l),
            ascending(rr),
            exists|c: char| in_both(l, rr, c),
            forall|c: char| #[trigger] in_both(left_side@, right_side@, c) == in_both(l, rr, c),
            i <= l.len(),
            j <= rr.len(),
            forall|k: int| 0 <= k < i ==> !rr.contains(#[trigger] l[k]),
            forall|k: int| 0 <= k < j ==> i < l.len() ==> #[trigger] rr[k] < l[i as int],
            j < rr.len() || i == l.len() || forall|k: int| 0 <= k < rr.len() ==> #[trigger] rr[k] < l[i as int],
        decreases l.len() - i,
    {
        let c = left[i];
        while j < right.len() && right[j] < c
            invariant
                l == left@,
                rr == right@,
                ascending(l),
                ascending(rr),
                forall|c: char| #[trigger] in_both(left_side@, right_side@, c) == in_both(l, rr, c),
                forall|k: int| 0 <= k < i ==> !rr.contains(#[trigger] l[k]),
                i < l.len(),
                c == l[i as int],
                j <= rr.len(),
                forall|k: int| 0 <= k < j ==> #[trigger] rr[k] < c,
            decreases rr.len() - j,
        {
            j = j + 1;
        }
        if j < right.len() && right[j] == c {
            proof {
                assert(rr.contains(c));
                assert(l.contains(c)) by {
                    assert(l[i as int] == c);
                }
                assert(in_both(left_side@, right_side@, c));
                assert forall|d: char| d < c implies !in_both(left_side@, right_side@, d) by {
                    assert(in_both(left_side@, right_side@, d) == in_both(l, rr, d));
                    if in_both(l, rr, d) {
                        let k = choose|k: int| 0 <= k < l.len() && l[k] == d;
                        if k >= i {
                            assert(l[i as int] <= l[k]);
                        } else {
                            assert(!rr.contains(l[k]));
                        }
                    }
                }
            }
            return c;
        }
        proof {
            assert(!rr.contains(c)) by {
                if rr.contains(c) {
                    let k = choose|k: int| 0 <= k < rr.len() && rr[k] == c;
                    if k >= j {
                        assert(rr[j as int] <= rr[k]);
                    }
                }
            }
            if i + 1 < l.len() {
                assert(l[i as int] <= l[i + 1]);
            }
        }
        i = i + 1;
    }
    proof {
        let c = choose|c: char| in_both(l, rr, c);
        let k = choose|k: int| 0 <= k < l.len() && l[k] == c;
        assert(!rr.contains(l[k]));
    }
    left[0]
}

/// The first half of the items (by count), and the second.
pub open spec fn halves(s: Seq<char>) -> (Seq<char>, Seq<char>) {
    (s.subrange(0, s.len() as int / 2), s.subrange(s.len() as int / 2, s.len() as int))
}

/// The priority of the smallest item type found in both halves of a rucksack.
pub fn sum_of_common_priorities_of_rucksack(rucksack: String) -> (r: u32)
    requires
        forall|i: int| 0 <= i < rucksack@.len() ==> is_ascii_letter(#[trigger] rucksack@[i]),
        exists|c: char| in_both(halves(rucksack@).0, halves(rucksack@).1, c),
    ensures
        exists|c: char|
            in_both(halves(rucksack@).0, halves(rucksack@).1, c) && (forall|d: char|
                d < c ==> !in_both(halves(rucksack@).0, halves(rucksack@).1, d)) && r == priority(c),
{
    let s = rucksack.as_str();
    let n = s.unicode_len();
    let comp1 = s.substring_char(0, n / 2);
    let comp2 = s.substring_char(n / 2, n);
    let c = find_common_elements(comp1, comp2);
    proof {
        let k = choose|k: int| 0 <= k < comp1@.len() && comp1@[k] == c;
        assert(comp1@[k] == rucksack@[k]);
    }
    type_to_score(c)
}

/// `c` occurs in all three rucksacks.
pub open spec fn in_all(a: Seq<char>, b: Seq<char>, c3: Seq<char>, c: char) -> bool {
    a.contains(c) && b.contains(c) && c3.contains(c)
}

fn contains_char(v: &Vec<char>, c: char) -> (r: bool)
    ensures
        r == v@.contains(c),
{
    let mut k: usize = 0;
    while k < v.len()
        invariant
            k <= v@.len(),
            forall|i: int| 0 <= i < k ==> v@[i] != c,
        decreases v@.len() - k,
    {
        if v[k] == c {
            assert(v@[k as int] == c);
            return true;
        }
        k = k + 1;
    }
    false
}

/// The priority of the smallest item type carried by all three elves of a group.
pub fn find_group_score(l1: &str, l2: &str, l3: &str) -> (r: u32)
    requires
        forall|i: int| 0 <= i < l1@.len() ==> is_ascii_letter(#[trigger] l1@[i]),
        exists|c: char| in_all(l1@, l2@, l3@, c),
    ensures
        exists|c: char|
            in_all(l1@, l2@, l3@, c) && (forall|d: char| d < c ==> !in_all(l1@, l2@, l3@, d)) && r
                == priority(c),
{
    let top = sorted_chars(l1);
    let mid = sorted_chars(l2);
    let bot = sorted_chars(l3);
    proof {
        assert forall|c: char| #[trigger] in_all(l1@, l2@, l3@, c) == in_all(top@, mid@, bot@, c) by {
            lemma_same_contains(top@, l1@, c);
            lemma_same_contains(mid@, l2@, c);
            lemma_same_contains(bot@, l3@, c);
        }
    }
    let mut i: usize = 0;
    while i < top.len()
        invariant
            ascending(top@),
            forall|c: char| #[trigger] in_all(l1@, l2@, l3@, c) == in_all(top@, mid@, bot@, c),
            exists|c: char| in_all(l1@, l2@, l3@, c),
            forall|i: int| 0 <= i < l1@.len() ==> is_ascii_letter(#[trigger] l1@[i]),
            i <= top@.len(),
            forall|k: int| 0 <= k < i ==> !(mid@.contains(#[trigger] top@[k]) && bot@.contains(top@[k])),
        decreases top@.len() - i,
    {
        let c = top[i];
        if contains_char(&mid, c) && contains_char(&bot, c) {
            proof {
                assert(top@.contains(c)) by {
                    assert(top@[i as int] == c);
                }
                assert(in_all(l1@, l2@, l3@, c));
                assert forall|d: char| d < c implies !in_all(l1@, l2@, l3@, d) by {
                    assert(in_all(l1@, l2@, l3@, d) == in_all(top@, mid@, bot@, d));
                    if in_all(top@, mid@, bot@, d) {
                        let k = choose|k: int| 0 <= k < top@.len() && top@[k] == d;
                        if k >= i {
                            assert(top@[i as int] <= top@[k]);
                        }
                    }
                }
                let k = choose|k: int| 0 <= k < l1@.len() && l1@[k] == c;
            }
            return type_to_score(c);
        }
        i = i + 1;
    }
    proof {
        let c = choose|c: char| in_all(l1@, l2@, l3@, c);
        assert(in_all(top@, mid@, bot@, c));
        let k = choose|k: int| 0 <= k < top@.len() && top@[k] == c;
    }
    0
}

} // verus!
