//! Calibration values: digits recovered from lines of text.

use vstd::prelude::*;
use vstd::string::StringSliceAdditionalSpecFns;
use crate::text::{lines_of, split_lines};

verus! {

/// A byte's digit value, or 255 when the byte is no ASCII digit.
pub open spec fn digit_or_marker(c: u8) -> u8 {
    if 48 <= c <= 57 {
        (c - 48) as u8
    } else {
        255
    }
}

/// Index of the first value below 10 at or after `k`, or `v.len()` when there is none.
pub open spec fn next_digit(v: Seq<u8>, k: int) -> int
    decreases v.len() - k,
{
    if k >= v.len() {
        v.len() as int
    } else if v[k] < 10 {
        k
    } else {
        next_digit(v, k + 1)
    }
}

proof fn lemma_next_digit(v: Seq<u8>, k: int)
    requires
        0 <= k <= v.len(),
    ensures
        k <= next_digit(v, k) <= v.len(),
        next_digit(v, k) < v.len() ==> v[next_digit(v, k)] < 10,
        forall|t: int| k <= t < next_digit(v, k) ==> v[t] >= 10,
    decreases v.len() - k,
{
    if k < v.len() && v[k] >= 10 {
        lemma_next_digit(v, k + 1);
    }
}

/// Replaces each ASCII digit of a 64-byte block by its value and every other byte by 255.
pub fn convert_char_digits_to_uint(simd_value: [u8; 64]) -> (r: [u8; 64])
    ensures
        forall|i: int| 0 <= i < 64 ==> #[trigger] r@[i] == digit_or_marker(simd_value@[i]),
{
    let mut out = simd_value;
    let mut i: usize = 0;
    while i < 64
        invariant
            i <= 64,
            out@.len() == 64,
            simd_value@.len() == 64,
            forall|k: int| 0 <= k < i ==> #[trigger] out@[k] == digit_or_marker(simd_value@[k]),
            forall|k: int| i <= k < 64 ==> #[trigger] out@[k] == simd_value@[k],
        decreases 64 - i,
    {
        let c = simd_value[i];
        let v: u8 = if c >= 48 && c <= 57 { c - 48 } else { 255 };
        out[i] = v;
        i = i + 1;
    }
    out
}

/// Index of the last value below 10 before position `k`, or -1 when there is none.
pub open spec fn prev_digit(v: Seq<u8>, k: int) -> int
    decreases k,
{
    if k <= 0 {
        -1
    } else if k <= v.len() && v[k - 1] < 10 {
        k - 1
    } else {
        prev_digit(v, k - 1)
    }
}

proof fn lemma_prev_digit(v: Seq<u8>, k: int, i: int)
    requires
        0 <= i < k <= v.len(),
        v[i] < 10,
    ensures
        i <= prev_digit(v, k) < k,
        v[prev_digit(v, k)] < 10,
    decreases k,
{
    if v[k - 1] >= 10 {
        lemma_prev_digit(v, k - 1, i);
    }
}

/// `10 * a + b`, where `a` is the first and `b` the last value below 10 of a converted
/// block (the same one when there is only one).
pub open spec fn block_number(v: Seq<u8>) -> int {
    10 * v[next_digit(v, 0)] + v[prev_digit(v, v.len() as int)]
}

/// Reads the two-digit number of a converted block: its first digit, then its last.
pub fn vec_to_num(simd_val: [u8; 64]) -> (r: u32)
    requires
        exists|i: int| 0 <= i < 64 && #[trigger] simd_val@[i] < 10,
    ensures
        r == block_number(simd_val@),
{
    let ghost v = simd_val@;
    let ghost w = choose|i: int| 0 <= i < 64 && #[trigger] simd_val@[i] < 10;
    proof {
        lemma_next_digit(v, 0);
        lemma_prev_digit(v, 64, w);
    }
    let mut k: usize = 0;
    while simd_val[k] >= 10
        invariant
            v == simd_val@,
            v.len() == 64,
            k <= next_digit(v, 0) < 64,
            next_digit(v, k as int) == next_digit(v, 0),
        decreases 64 - k,
    {
        proof {
            lemma_next_digit(v, k + 1);
        }
        k = k + 1;
    }
    let first = simd_val[k];
    assert(k == next_digit(v, 0));
    let mut j: usize = 64;
    while simd_val[j - 1] >= 10
        invariant
            v == simd_val@,
            v.len() == 64,
            0 <= prev_digit(v, 64) < j <= 64,
            v[prev_digit(v, 64)] < 10,
            prev_digit(v, j as int) == prev_digit(v, 64),
        decreases j,
    {
        j = j - 1;
    }
    let last = simd_val[j - 1];
    10u32 * first as u32 + last as u32
}

/// The spellings of a digit: its English word (`zero` to `nine`) for `k < 10`, and for
/// `10 <= k < 20` the ASCII digit `k - 10`.
pub open spec fn pattern(k: int) -> Seq<u8> {
    if k == 0 {
        seq![122u8, 101u8, 114u8, 111u8]
    } else if k == 1 {
        seq![111u8, 110u8, 101u8]
    } else if k == 2 {
        seq![116u8, 119u8, 111u8]
    } else if k == 3 {
        seq![116u8, 104u8, 114u8, 101u8, 101u8]
    } else if k == 4 {
        seq![102u8, 111u8, 117u8, 114u8]
    } else if k == 5 {
        seq![102u8, 105u8, 118u8, 101u8]
    } else if k == 6 {
        seq![115u8, 105u8, 120u8]
    } else if k == 7 {
        seq![115u8, 101u8, 118u8, 101u8, 110u8]
    } else if k == 8 {
        seq![101u8, 105u8, 103u8, 104u8, 116u8]
    } else if k == 9 {
        seq![110u8, 105u8, 110u8, 101u8]
    } else {
        seq![(k - 10 + 48) as u8]
    }
}

pub open spec fn matches_at(b: Seq<u8>, i: int, p: Seq<u8>) -> bool {
    i + p.len() <= b.len() && b.subrange(i, i + p.len()) == p
}

/// The digit spelled at position `i` by the first pattern from `k` on that matches there.
pub open spec fn digit_spelled_at(b: Seq<u8>, i: int, k: int) -> Option<int>
    decreases 20 - k,
{
    if k >= 20 {
        None
    } else if matches_at(b, i, pattern(k)) {
        Some(k % 10)
    } else {
        digit_spelled_at(b, i, k + 1)
    }
}

/// The digits spelled at the positions `0 .. n`, in order.
pub open spec fn spelled_digits(b: Seq<u8>, n: int) -> Seq<int>
    decreases n,
{
    if n <= 0 {
        Seq::empty()
    } else {
        spelled_digits(b, n - 1) + match digit_spelled_at(b, n - 1, 0) {
            Some(d) => seq![d],
            None => Seq::empty(),
        }
    }
}

/// The calibration value of a line: ten times its first spelled digit plus its last.
pub open spec fn line_value(b: Seq<u8>) -> int {
    let ds = spelled_digits(b, b.len() as int);
    ds[0] * 10 + ds.last()
}

fn pattern_bytes(k: usize) -> (r: Vec<u8>)
    requires
        k < 20,
    ensures
        r@ == pattern(k as int),
{
    match k {
        0 => vec![122u8, 101u8, 114u8, 111u8],
        1 => vec![111u8, 110u8, 101u8],
        2 => vec![116u8, 119u8, 111u8],
        3 => vec![116u8, 104u8, 114u8, 101u8, 101u8],
        4 => vec![102u8, 111u8, 117u8, 114u8],
        5 => vec![102u8, 105u8, 118u8, 101u8],
        6 => vec![115u8, 105u8, 120u8],
        7 => vec![115u8, 101u8, 118u8, 101u8, 110u8],
        8 => vec![101u8, 105u8, 103u8, 104u8, 116u8],
        9 => vec![110u8, 105u8, 110u8, 101u8],
        _ => vec![(k - 10 + 48) as u8],
    }
}

/// Whether `p` occurs in `b` at position `i`.
fn bytes_match_at(b: &[u8], i: usize, p: &Vec<u8>) -> (r: bool)
    ensures
        r == matches_at(b@, i as int, p@),
{
    if i > b.len() || p.len() > b.len() - i {
        return false;
    }
    let n = b.len();
    let mut t: usize = 0;
    while t < p.len()
        invariant
            n == b@.len(),
            i + p@.len() <= b@.len(),
            t <= p@.len(),
            forall|u: int| 0 <= u < t ==> b@[i + u] == p@[u],
        decreases p@.len() - t,
    {
        if b[i + t] != p[t] {
            assert(b@.subrange(i as int, i + p@.len())[t as int] != p@[t as int]);
            return false;
        }
        t = t + 1;
    }
    assert(b@.subrange(i as int, i + p@.len()) =~= p@);
    true
}

/// The calibration value of a line whose digits may also be spelled out as words.
pub fn digest_line(line: &str) -> (r: u64)
    requires
        spelled_digits(line.spec_bytes(), line.spec_bytes().len() as int).len() > 0,
    ensures
        r == line_value(line.spec_bytes()),
{
    digest_bytes(line.as_bytes())
}

/// `digest_line` on the bytes of a line.
fn digest_bytes(b: &[u8]) -> (r: u64)
    requires
        spelled_digits(b@, b@.len() as int).len() > 0,
    ensures
        r == line_value(b@),
        r <= 99,
{
    let ghost bs = b@;
    let mut digits: Vec<u64> = Vec::new();
    let mut index: usize = 0;
    while index < b.len()
        invariant
            bs == b@,
            index <= bs.len(),
            digits@.len() == spelled_digits(bs, index as int).len(),
            forall|t: int| 0 <= t < digits@.len() ==> #[trigger] digits@[t] == spelled_digits(bs, index as int)[t],
            forall|t: int| 0 <= t < digits@.len() ==> digits@[t] < 10,
        decreases bs.len() - index,
    {
        let mut k: usize = 0;
        let mut found: Option<u64> = None;
        while k < 20
            invariant
                bs == b@,
                k <= 20,
                found is None ==> digit_spelled_at(bs, index as int, k as int) == digit_spelled_at(bs, index as int, 0),
                found matches Some(d) ==> digit_spelled_at(bs, index as int, 0) == Some(d as int) && d < 10,
            decreases 20 - k,
        {
            if found.is_none() {
                let p = pattern_bytes(k);
                if bytes_match_at(b, index, &p) {
                    found = Some((k % 10) as u64);
                }
            }
            k = k + 1;
        }
        let ghost before = digits@;
        if let Some(d) = found {
            digits.push(d);
        }
        assert forall|t: int| 0 <= t < digits@.len() implies #[trigger] digits@[t] == spelled_digits(bs, index + 1)[t] by {
            if t < before.len() {
                assert(digits@[t] == before[t]);
            }
        }
        index = index + 1;
    }
    let first = digits[0];
    let last = digits[digits.len() - 1];
    assert(bs.len() as int == index);
    first * 10 + last
}

/// The line followed by zero bytes up to 64 bytes.
pub open spec fn padded(line: Seq<u8>) -> Seq<u8> {
    line + Seq::new((64 - line.len()) as nat, |_k: int| 0u8)
}

/// Copies a line of at most 64 bytes into a 64-byte block, filling the rest with zeros.
pub fn pad_out_and_convert_line(line: &[u8]) -> (r: [u8; 64])
    requires
        line@.len() <= 64,
    ensures
        r@ == padded(line@),
{
    let mut ret: [u8; 64] = [0u8; 64];
    let mut i: usize = 0;
    while i < line.len()
        invariant
            line@.len() <= 64,
            ret@.len() == 64,
            i <= line@.len(),
            forall|k: int| 0 <= k < i ==> #[trigger] ret@[k] == line@[k],
            forall|k: int| i <= k < 64 ==> #[trigger] ret@[k] == 0u8,
        decreases line@.len() - i,
    {
        ret[i] = line[i];
        i = i + 1;
    }
    assert(ret@ =~= padded(line@));
    ret
}

/// The value `vec_to_num` reads from a line's converted block.
pub open spec fn block_line_value(line: Seq<u8>) -> int {
    block_number(padded(line).map_values(|c: u8| digit_or_marker(c)))
}

/// A line fits in a block and holds an ASCII digit.
pub open spec fn block_line_ok(line: Seq<u8>) -> bool {
    line.len() <= 64 && exists|i: int| 0 <= i < line.len() && 48 <= #[trigger] line[i] <= 57
}

pub open spec fn block_values_sum(lines: Seq<Seq<u8>>) -> int
    decreases lines.len(),
{
    if lines.len() == 0 {
        0
    } else {
        block_values_sum(lines.drop_last()) + block_line_value(lines.last())
    }
}

pub open spec fn spelled_values_sum(lines: Seq<Seq<u8>>) -> int
    decreases lines.len(),
{
    if lines.len() == 0 {
        0
    } else {
        spelled_values_sum(lines.drop_last()) + line_value(lines.last())
    }
}

/// Sum over the lines of the two-digit number that `vec_to_num` reads from each line's
/// block.
pub fn calc_solution_1(input: &str) -> (r: u32)
    requires
        forall|i: int|
            0 <= i < lines_of(input.spec_bytes()).len() ==> block_line_ok(
                #[trigger] lines_of(input.spec_bytes())[i],
            ),
        lines_of(input.spec_bytes()).len() <= u32::MAX / 99,
    ensures
        r == block_values_sum(lines_of(input.spec_bytes())),
{
    let lines = split_lines(input);
    let ghost ls = lines_of(input.spec_bytes());
    let mut sum: u32 = 0;
    let mut i: usize = 0;
    while i < lines.len()
        invariant
            lines@.len() == ls.len(),
            ls.len() <= u32::MAX / 99,
            forall|k: int| 0 <= k < lines@.len() ==> #[trigger] lines@[k]@ == ls[k],
            forall|k: int| 0 <= k < ls.len() ==> block_line_ok(#[trigger] ls[k]),
            i <= ls.len(),
            sum == block_values_sum(ls.subrange(0, i as int)),
            sum <= 99 * i,
        decreases ls.len() - i,
    {
        let line = &lines[i];
        assert(line@ == ls[i as int]);
        assert(block_line_ok(ls[i as int]));
        let block = pad_out_and_convert_line(line.as_slice());
        let converted = convert_char_digits_to_uint(block);
        proof {
            let w = choose|w: int| 0 <= w < line@.len() && 48 <= #[trigger] line@[w] <= 57;
            assert(converted@[w] == digit_or_marker(block@[w]));
            assert(block@[w] == line@[w]);
        }
        let v = vec_to_num(converted);
        proof {
            assert(converted@ =~= padded(line@).map_values(|c: u8| digit_or_marker(c)));
            assert(ls.subrange(0, i + 1).drop_last() =~= ls.subrange(0, i as int));
            lemma_block_number_bound(converted@);
        }
        sum = sum + v;
        i = i + 1;
    }
    assert(ls.subrange(0, ls.len() as int) =~= ls);
    sum
}

proof fn lemma_block_number_bound(v: Seq<u8>)
    requires
        v.len() == 64,
        forall|i: int| 0 <= i < 64 ==> v[i] < 10 || v[i] == 255,
        exists|i: int| 0 <= i < 64 && #[trigger] v[i] < 10,
    ensures
        0 <= block_number(v) <= 99,
{
    lemma_next_digit(v, 0);
    let i = choose|i: int| 0 <= i < 64 && #[trigger] v[i] < 10;
    lemma_prev_digit(v, 64, i);
}

/// Sum over the lines of their calibration values, digits spelled as words counting too.
pub fn calc_solution_2(input: &str) -> (r: u64)
    requires
        forall|i: int|
            0 <= i < lines_of(input.spec_bytes()).len() ==> spelled_digits(
                #[trigger] lines_of(input.spec_bytes())[i],
                lines_of(input.spec_bytes())[i].len() as int,
            ).len() > 0,
        lines_of(input.spec_bytes()).len() <= u64::MAX / 99,
    ensures
        r == spelled_values_sum(lines_of(input.spec_bytes())),
{
    let lines = split_lines(input);
    let ghost ls = lines_of(input.spec_bytes());
    let mut sum: u64 = 0;
    let mut i: usize = 0;
    while i < lines.len()
        invariant
            lines@.len() == ls.len(),
            forall|k: int| 0 <= k < lines@.len() ==> #[trigger] lines@[k]@ == ls[k],
            forall|k: int|
                0 <= k < ls.len() ==> spelled_digits(#[trigger] ls[k], ls[k].len() as int).len() > 0,
            ls.len() <= u64::MAX / 99,
            i <= ls.len(),
            sum == spelled_values_sum(ls.subrange(0, i as int)),
            sum <= 99 * i,
        decreases ls.len() - i,
    {
        let line = &lines[i];
        assert(line@ == ls[i as int]);
        let v = digest_bytes(line.as_slice());
        proof {
            assert(ls.subrange(0, i + 1).drop_last() =~= ls.subrange(0, i as int));
        }
        sum = sum + v;
        i = i + 1;
    }
    assert(ls.subrange(0, ls.len() as int) =~= ls);
    sum
}

} // verus!
