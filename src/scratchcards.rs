//! Scratchcards: `Card n: winning numbers | numbers you have`.

use vstd::prelude::*;
use vstd::string::StringSliceAdditionalSpecFns;
use crate::text::{after_first, lines_of, numbers_in, parse_numbers, split_after, split_lines};

verus! {

/// The bytes of `b` before its first `c`, or `None` when `b` holds no `c`.
pub open spec fn before_first(b: Seq<u8>, c: u8) -> Option<Seq<u8>> {
    if exists|i: int| 0 <= i < b.len() && b[i] == c {
        let i = choose|i: int|
            0 <= i < b.len() && b[i] == c && forall|j: int| 0 <= j < i ==> b[j] != c;
        Some(b.subrange(0, i))
    } else {
        None
    }
}

pub open spec fn all_fit_u32(s: Seq<int>) -> bool {
    forall|i: int| 0 <= i < s.len() ==> #[trigger] s[i] <= u32::MAX
}

/// The winning numbers and the numbers of a card line: after the colon, split at the
/// first `|`; every number must fit in a `u32`.
pub open spec fn card_of(line: Seq<u8>) -> Option<(Seq<int>, Seq<int>)> {
    match after_first(line, 58u8) {
        Some(rest) => match (before_first(rest, 124u8), after_first(rest, 124u8)) {
            (Some(w), Some(h)) => if all_fit_u32(numbers_in(w)) && all_fit_u32(numbers_in(h)) {
                Some((numbers_in(w), numbers_in(h)))
            } else {
                None
            },
            _ => None,
        },
        None => None,
    }
}

/// How many of the numbers you have are winning numbers (a number counts each time it
/// is listed).
pub open spec fn matches(winning: Seq<int>, have: Seq<int>) -> nat
    decreases have.len(),
{
    if have.len() == 0 {
        0
    } else {
        matches(winning, have.drop_last()) + if winning.contains(have.last()) { 1nat } else { 0nat }
    }
}

pub open spec fn pow2(n: nat) -> nat
    decreases n,
{
    if n == 0 {
        1
    } else {
        2 * pow2((n - 1) as nat)
    }
}

/// A card is worth 1 point for its first match, doubled for each further match.
pub open spec fn card_points(winning: Seq<int>, have: Seq<int>) -> nat {
    let m = matches(winning, have);
    if m == 0 {
        0
    } else {
        pow2((m - 1) as nat)
    }
}

pub open spec fn points_total(cards: Seq<(Seq<int>, Seq<int>)>) -> int
    decreases cards.len(),
{
    if cards.len() == 0 {
        0
    } else {
        points_total(cards.drop_last()) + card_points(cards.last().0, cards.last().1)
    }
}

pub open spec fn as_ints(v: Seq<u32>) -> Seq<int> {
    Seq::new(v.len(), |k: int| v[k] as int)
}

/// The bytes of `b` before its first `c`.
fn split_before(b: &[u8], c: u8) -> (r: Option<Vec<u8>>)
    ensures
        r is Some == before_first(b@, c) is Some,
        r matches Some(v) ==> Some(v@) == before_first(b@, c),
{
    let mut out: Vec<u8> = Vec::new();
    let mut i: usize = 0;
    while i < b.len()
        invariant
            i <= b@.len(),
            forall|j: int| 0 <= j < i ==> b@[j] != c,
            out@ == b@.subrange(0, i as int),
        decreases b@.len() - i,
    {
        if b[i] == c {
            let ghost w = choose|w: int|
                0 <= w < b@.len() && b@[w] == c && forall|j: int| 0 <= j < w ==> b@[j] != c;
            assert(w == i) by {
                if w > i {
                    assert(b@[i as int] == c);
                }
            }
            return Some(out);
        }
        out.push(b[i]);
        assert(b@.subrange(0, i + 1) =~= b@.subrange(0, i as int).push(b@[i as int]));
        i = i + 1;
    }
    None
}

fn numbers_u32(b: &[u8]) -> (r: Option<Vec<u32>>)
    ensures
        r is Some == all_fit_u32(numbers_in(b@)),
        r matches Some(v) ==> as_ints(v@) == numbers_in(b@),
{
    match parse_numbers(b) {
        Some(v) => {
            let mut out: Vec<u32> = Vec::new();
            let mut k: usize = 0;
            while k < v.len()
                invariant
                    k <= v@.len(),
                    v@.len() == numbers_in(b@).len(),
                    forall|i: int| 0 <= i < v@.len() ==> #[trigger] v@[i] == numbers_in(b@)[i],
                    out@.len() == k,
                    forall|i: int| 0 <= i < k ==> #[trigger] out@[i] == v@[i],
                decreases v@.len() - k,
            {
                if v[k] > 0xffff_ffffu64 {
                    assert(numbers_in(b@)[k as int] > u32::MAX);
                    return None;
                }
                out.push(v[k] as u32);
                k = k + 1;
            }
            assert(as_ints(out@) =~= numbers_in(b@));
            Some(out)
        },
        None => {
            let ghost i = choose|i: int| 0 <= i < numbers_in(b@).len() && !(#[trigger] numbers_in(b@)[i] <= u64::MAX);
            None
        },
    }
}

/// The winning numbers and the numbers you have, per card; `None` when a line is no
/// card.
pub fn parse(input: &str) -> (r: Option<Vec<(Vec<u32>, Vec<u32>)>>)
    ensures
        r is Some == forall|i: int|
            0 <= i < lines_of(input.spec_bytes()).len() ==> #[trigger] card_of(
                lines_of(input.spec_bytes())[i],
            ) is Some,
        r matches Some(v) ==> v@.len() == lines_of(input.spec_bytes()).len() && forall|i: int|
            0 <= i < v@.len() ==> card_of(lines_of(input.spec_bytes())[i]) == Some(
                (as_ints((#[trigger] v@[i]).0@), as_ints(v@[i].1@)),
            ),
{
    let lines = split_lines(input);
    let ghost ls = lines_of(input.spec_bytes());
    let mut cards: Vec<(Vec<u32>, Vec<u32>)> = Vec::new();
    let mut i: usize = 0;
    while i < lines.len()
        invariant
            lines@.len() == ls.len(),
            ls == lines_of(input.spec_bytes()),
            forall|k: int| 0 <= k < lines@.len() ==> #[trigger] lines@[k]@ == ls[k],
            i <= ls.len(),
            cards@.len() == i,
            forall|k: int|
                0 <= k < i ==> card_of(ls[k]) == Some(
                    (as_ints((#[trigger] cards@[k]).0@), as_ints(cards@[k].1@)),
                ),
        decreases ls.len() - i,
    {
        assert(lines@[i as int]@ == ls[i as int]);
        let ghost line = ls[i as int];
        let rest = match split_after(lines[i].as_slice(), 58u8) {
            Some(rest) => rest,
            None => {
                assert(card_of(line) is None);
                return None;
            },
        };
        let w = match split_before(rest.as_slice(), 124u8) {
            Some(w) => w,
            None => {
                assert(card_of(line) is None);
                return None;
            },
        };
        let h = match split_after(rest.as_slice(), 124u8) {
            Some(h) => h,
            None => {
                assert(card_of(line) is None);
                return None;
            },
        };
        let wn = match numbers_u32(w.as_slice()) {
            Some(v) => v,
            None => {
                assert(card_of(line) is None);
                return None;
            },
        };
        let hn = match numbers_u32(h.as_slice()) {
            Some(v) => v,
            None => {
                assert(card_of(line) is None);
                return None;
            },
        };
        cards.push((wn, hn));
        i = i + 1;
    }
    assert forall|k: int| 0 <= k < ls.len() implies #[trigger] card_of(ls[k]) is Some by {
        assert(card_of(ls[k]) == Some((as_ints(cards@[k].0@), as_ints(cards@[k].1@))));
    }
    Some(cards)
}

fn contains_u32(v: &Vec<u32>, x: u32) -> (r: bool)
    ensures
        r == as_ints(v@).contains(x as int),
{
    let mut k: usize = 0;
    while k < v.len()
        invariant
            k <= v@.len(),
            forall|i: int| 0 <= i < k ==> v@[i] != x,
        decreases v@.len() - k,
    {
        if v[k] == x {
            assert(as_ints(v@)[k as int] == x as int);
            return true;
        }
        k = k + 1;
    }
    false
}

/// The points of one card.
fn card_value(winning: &Vec<u32>, have: &Vec<u32>) -> (r: u32)
    requires
        matches(as_ints(winning@), as_ints(have@)) <= 32,
    ensures
        r == card_points(as_ints(winning@), as_ints(have@)),
{
    let ghost w = as_ints(winning@);
    let ghost h = as_ints(have@);
    let mut count: u32 = 0;
    let mut k: usize = 0;
    while k < have.len()
        invariant
            w == as_ints(winning@),
            h == as_ints(have@),
            k <= h.len(),
            matches(w, h) <= 32,
            count == matches(w, h.subrange(0, k as int)),
        decreases h.len() - k,
    {
        assert(h.subrange(0, k + 1).drop_last() =~= h.subrange(0, k as int));
        proof {
            lemma_matches_prefix(w, h, k + 1);
        }
        if contains_u32(winning, have[k]) {
            count = count + 1;
        }
        k = k + 1;
    }
    assert(h.subrange(0, h.len() as int) =~= h);
    if count == 0 {
        return 0;
    }
    let mut p: u32 = 1;
    let mut e: u32 = 0;
    proof {
        lemma_pow2_31();
    }
    while e < count - 1
        invariant
            count <= 32,
            e <= count - 1,
            p == pow2(e as nat),
            pow2(31) == 0x8000_0000,
        decreases count - 1 - e,
    {
        proof {
            lemma_pow2_split(e as nat + 1, (31 - e - 1) as nat);
            assert(pow2((31 - e - 1) as nat) >= 1) by {
                lemma_pow2_positive((31 - e - 1) as nat);
            }
            assert(pow2(e as nat + 1) <= pow2(31)) by (nonlinear_arith)
                requires
                    pow2(e as nat + 1) * pow2((31 - e - 1) as nat) == pow2(31),
                    pow2((31 - e - 1) as nat) >= 1,
                    pow2(e as nat + 1) >= 0,
            ;
        }
        p = p * 2;
        e = e + 1;
    }
    p
}

proof fn lemma_pow2_positive(n: nat)
    ensures
        pow2(n) >= 1,
    decreases n,
{
    if n > 0 {
        lemma_pow2_positive((n - 1) as nat);
    }
}

proof fn lemma_pow2_31()
    ensures
        pow2(31) == 0x8000_0000,
{
    reveal_with_fuel(pow2, 32);
}

proof fn lemma_pow2_split(a: nat, b: nat)
    ensures
        pow2(a) * pow2(b) == pow2(a + b),
    decreases a,
{
    if a == 0 {
        assert(pow2(a) == 1);
    } else {
        assert(pow2(a + b) == 2 * pow2((a - 1 + b) as nat));
        lemma_pow2_split((a - 1) as nat, b);
        assert(pow2(a) * pow2(b) == 2 * (pow2((a - 1) as nat) * pow2(b))) by (nonlinear_arith)
            requires
                pow2(a) == 2 * pow2((a - 1) as nat),
        ;
    }
}

proof fn lemma_matches_prefix(w: Seq<int>, h: Seq<int>, k: int)
    requires
        0 <= k <= h.len(),
    ensures
        matches(w, h.subrange(0, k)) <= matches(w, h),
    decreases h.len(),
{
    if h.len() > 0 {
        let d = h.drop_last();
        if k == h.len() {
            assert(h.subrange(0, k) =~= h);
        } else {
            assert(d.subrange(0, k) =~= h.subrange(0, k));
            lemma_matches_prefix(w, d, k);
        }
    } else {
        assert(h.subrange(0, k) =~= h);
    }
}

proof fn lemma_points_prefix(cards: Seq<(Seq<int>, Seq<int>)>, k: int)
    requires
        0 <= k <= cards.len(),
    ensures
        0 <= points_total(cards.subrange(0, k)) <= points_total(cards),
    decreases cards.len(),
{
    if cards.len() > 0 {
        let d = cards.drop_last();
        assert(d.subrange(0, d.len() as int) =~= d);
        if k == cards.len() {
            assert(cards.subrange(0, k) =~= cards);
            lemma_points_prefix(d, d.len() as int);
        } else {
            assert(d.subrange(0, k) =~= cards.subrange(0, k));
            lemma_points_prefix(d, k);
            lemma_points_prefix(d, d.len() as int);
        }
    } else {
        assert(cards.subrange(0, k) =~= cards);
    }
}

/// The cards of a pile, as parsed.
pub open spec fn pile_of(b: Seq<u8>) -> Seq<(Seq<int>, Seq<int>)> {
    Seq::new(lines_of(b).len(), |i: int| card_of(lines_of(b)[i]).unwrap())
}

pub open spec fn cards_view(cards: &Vec<(Vec<u32>, Vec<u32>)>) -> Seq<(Seq<int>, Seq<int>)> {
    Seq::new(cards@.len(), |k: int| (as_ints(cards@[k].0@), as_ints(cards@[k].1@)))
}

fn points_of_cards(cards: &Vec<(Vec<u32>, Vec<u32>)>) -> (r: u32)
    requires
        forall|k: int| 0 <= k < cards@.len() ==> matches(#[trigger] cards_view(cards)[k].0, cards_view(cards)[k].1) <= 32,
        points_total(cards_view(cards)) <= u32::MAX,
    ensures
        r == points_total(cards_view(cards)),
{
    let ghost pile = cards_view(cards);
    let mut sum: u32 = 0;
    let mut i: usize = 0;
    while i < cards.len()
        invariant
            pile == cards_view(cards),
            forall|k: int| 0 <= k < pile.len() ==> matches(#[trigger] pile[k].0, pile[k].1) <= 32,
            points_total(pile) <= u32::MAX,
            i <= pile.len(),
            sum == points_total(pile.subrange(0, i as int)),
        decreases pile.len() - i,
    {
        assert(pile[i as int] == (as_ints(cards@[i as int].0@), as_ints(cards@[i as int].1@)));
        assert(matches(pile[i as int].0, pile[i as int].1) <= 32);
        let v = card_value(&cards[i].0, &cards[i].1);
        proof {
            lemma_points_prefix(pile, i + 1);
            assert(pile.subrange(0, i + 1).drop_last() =~= pile.subrange(0, i as int));
        }
        sum = sum + v;
        i = i + 1;
    }
    assert(pile.subrange(0, pile.len() as int) =~= pile);
    sum
}

/// The total points of a pile of cards.
pub fn calc_solution_1(input: &str) -> (r: u32)
    requires
        forall|i: int|
            0 <= i < lines_of(input.spec_bytes()).len() ==> #[trigger] card_of(
                lines_of(input.spec_bytes())[i],
            ) is Some,
        forall|i: int|
            0 <= i < lines_of(input.spec_bytes()).len() ==> matches(
                #[trigger] pile_of(input.spec_bytes())[i].0,
                pile_of(input.spec_bytes())[i].1,
            ) <= 32,
        points_total(pile_of(input.spec_bytes())) <= u32::MAX,
    ensures
        r == points_total(pile_of(input.spec_bytes())),
{
    let cards = match parse(input) {
        Some(cards) => cards,
        None => return 0,
    };
    let ghost ls = lines_of(input.spec_bytes());
    assert(cards_view(&cards) =~= pile_of(input.spec_bytes())) by {
        assert forall|k: int| 0 <= k < cards@.len() implies #[trigger] cards_view(&cards)[k] == pile_of(input.spec_bytes())[k] by {
            assert(card_of(ls[k]) == Some((as_ints(cards@[k].0@), as_ints(cards@[k].1@))));
        }
    }
    points_of_cards(&cards)
}

} // verus!
