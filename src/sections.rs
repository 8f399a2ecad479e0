//! Camp cleanup: pairs of section ranges `a-b,c-d` where one range contains the other.

use vstd::prelude::*;
use vstd::string::StringSliceAdditionalSpecFns;
use crate::text::{
    all_digits, decimal, is_ascii_digit, lemma_decimal_prefix_bound, lemma_decimal_step, lines_of,
    pieces_of, split_lines, split_pieces,
};

verus! {

#[derive(Clone, Copy, Debug, PartialEq, Eq)]
pub enum SectionError {
    /// A bound is not a decimal `u32`.
    InvalidNumber,
}

/// The `u32` a piece writes: decimal digits, optionally after a `+`.
pub open spec fn u32_of(f: Seq<u8>) -> Option<u32> {
    let d = if f.len() > 0 && f[0] == 43u8 { f.subrange(1, f.len() as int) } else { f };
    if all_digits(d) && decimal(d) <= u32::MAX {
        Some(decimal(d) as u32)
    } else {
        None
    }
}

/// The range `start-end` a piece writes; a missing end reads as 0.
pub open spec fn bounds_of(b: Seq<u8>) -> Option<(u32, u32)> {
    let ps = pieces_of(b, 45u8);
    let end = if ps.len() >= 2 { u32_of(ps[1]) } else { Some(0u32) };
    match (u32_of(ps[0]), end) {
        (Some(s), Some(e)) => Some((s, e)),
        _ => None,
    }
}

/// One range lies inside the other.
pub open spec fn nested(a: (u32, u32), b: (u32, u32)) -> bool {
    (a.0 >= b.0 && a.1 <= b.1) || (a.0 <= b.0 && a.1 >= b.1)
}

/// A line of two ranges, one inside the other.
pub open spec fn line_nested(line: Seq<u8>) -> bool {
    let ps = pieces_of(line, 44u8);
    ps.len() >= 2 && bounds_of(ps[0]) is Some && bounds_of(ps[1]) is Some && nested(
        bounds_of(ps[0]).unwrap(),
        bounds_of(ps[1]).unwrap(),
    )
}

pub open spec fn nested_count(lines: Seq<Seq<u8>>) -> int
    decreases lines.len(),
{
    if lines.len() == 0 {
        0
    } else {
        nested_count(lines.drop_last()) + if line_nested(lines.last()) { 1int } else { 0int }
    }
}

/// The `u32` a piece writes.
fn parse_u32(f: &Vec<u8>) -> (r: Option<u32>)
    ensures
        r == u32_of(f@),
{
    let from: usize = if f.len() > 0 && f[0] == 43u8 { 1 } else { 0 };
    let ghost d = f@.subrange(from as int, f@.len() as int);
    assert(from == 0 ==> d =~= f@);
    assert(u32_of(f@) == (if all_digits(d) && decimal(d) <= u32::MAX {
        Some(decimal(d) as u32)
    } else {
        None
    }));
    if from >= f.len() {
        assert(!all_digits(d));
        return None;
    }
    let mut k = from;
    let mut value: u32 = 0;
    while k < f.len()
        invariant
            d == f@.subrange(from as int, f@.len() as int),
            from < f@.len(),
            from <= k <= f@.len(),
            forall|i: int| 0 <= i < k - from ==> is_ascii_digit(#[trigger] d[i]),
            value == decimal(d.subrange(0, k - from)),
            u32_of(f@) == (if all_digits(d) && decimal(d) <= u32::MAX {
                Some(decimal(d) as u32)
            } else {
                None
            }),
        decreases f@.len() - k,
    {
        let c = f[k];
        assert(c == d[k - from]);
        if !(c >= 48 && c <= 57) {
            assert(!is_ascii_digit(d[k - from]));
            return None;
        }
        proof {
            lemma_decimal_step(d, k - from);
        }
        let digit = (c - 48) as u32;
        if value > (u32::MAX - digit) / 10 {
            proof {
                assert(value * 10 + digit > u32::MAX) by (nonlinear_arith)
                    requires
                        value > (u32::MAX - digit) / 10,
                        digit <= 9,
                ;
                if all_digits(d) {
                    lemma_decimal_prefix_bound(d, k - from + 1);
                }
            }
            return None;
        }
        value = value * 10 + digit;
        k = k + 1;
    }
    assert(d.subrange(0, d.len() as int) =~= d);
    Some(value)
}

/// The range `start-end` of one elf's sections.
pub fn str_to_sections_bounds(section: &str) -> (r: Result<(u32, u32), SectionError>)
    ensures
        r is Ok == bounds_of(section.spec_bytes()) is Some,
        r matches Ok(p) ==> bounds_of(section.spec_bytes()) == Some(p),
{
    bounds_of_bytes(section.as_bytes())
}

fn bounds_of_bytes(b: &[u8]) -> (r: Result<(u32, u32), SectionError>)
    ensures
        r is Ok == bounds_of(b@) is Some,
        r matches Ok(p) ==> bounds_of(b@) == Some(p),
{
    let ps = split_pieces(b, 45u8);
    assert(ps@[0]@ == pieces_of(b@, 45u8)[0]);
    let start = parse_u32(&ps[0]);
    let end = if ps.len() >= 2 {
        assert(ps@[1]@ == pieces_of(b@, 45u8)[1]);
        parse_u32(&ps[1])
    } else {
        Some(0u32)
    };
    match (start, end) {
        (Some(s), Some(e)) => Ok((s, e)),
        _ => Err(SectionError::InvalidNumber),
    }
}

/// How many lines hold two ranges of which one contains the other.
pub fn count_contained_pairs(input: &str) -> (r: u64)
    ensures
        r == nested_count(lines_of(input.spec_bytes())),
{
    let lines = split_lines(input);
    let ghost ls = lines_of(input.spec_bytes());
    let mut count: u64 = 0;
    let mut i: usize = 0;
    while i < lines.len()
        invariant
            lines@.len() == ls.len(),
            forall|k: int| 0 <= k < lines@.len() ==> #[trigger] lines@[k]@ == ls[k],
            i <= ls.len(),
            count == nested_count(ls.subrange(0, i as int)),
            count <= i,
        decreases ls.len() - i,
    {
        assert(lines@[i as int]@ == ls[i as int]);
        assert(ls.subrange(0, i + 1).drop_last() =~= ls.subrange(0, i as int));
        let ps = split_pieces(lines[i].as_slice(), 44u8);
        if ps.len() >= 2 {
            assert(ps@[0]@ == pieces_of(ls[i as int], 44u8)[0]);
            assert(ps@[1]@ == pieces_of(ls[i as int], 44u8)[1]);
            let a = bounds_of_bytes(ps[0].as_slice());
            let b = bounds_of_bytes(ps[1].as_slice());
            if let (Ok(a), Ok(b)) = (a, b) {
                if (a.0 >= b.0 && a.1 <= b.1) || (a.0 <= b.0 && a.1 >= b.1) {
                    count = count + 1;
                }
            }
        }
        i = i + 1;
    }
    assert(ls.subrange(0, ls.len() as int) =~= ls);
    count
}

} // verus!
