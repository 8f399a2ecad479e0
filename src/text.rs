//! Splitting puzzle text into lines.

use vstd::prelude::*;
use vstd::string::StringSliceAdditionalSpecFns;

verus! {

/// Index of the first newline of `b` at or after `k`, or `b.len()` when there is none.
pub open spec fn newline_from(b: Seq<u8>, k: int) -> int
    decreases b.len() - k,
{
    if k >= b.len() {
        b.len() as int
    } else if b[k] == 10u8 {
        k
    } else {
        newline_from(b, k + 1)
    }
}

/// A line without its final carriage return, if it has one.
pub open spec fn strip_cr(l: Seq<u8>) -> Seq<u8> {
    if l.len() > 0 && l.last() == 13u8 {
        l.drop_last()
    } else {
        l
    }
}

/// Drops a final carriage return.
fn strip_cr_vec(v: Vec<u8>) -> (r: Vec<u8>)
    ensures
        r@ == strip_cr(v@),
{
    let mut v = v;
    if v.len() > 0 && v[v.len() - 1] == 13u8 {
        v.pop();
    }
    v
}

/// The lines of `b`: the pieces between newlines, each without a final carriage return,
/// where a final newline ends the last line instead of starting an empty one.
pub open spec fn lines_of(b: Seq<u8>) -> Seq<Seq<u8>>
    decreases b.len(),
{
    if b.len() == 0 {
        Seq::empty()
    } else {
        let k = newline_from(b, 0);
        if k < 0 || k >= b.len() {
            seq![strip_cr(b)]
        } else {
            seq![strip_cr(b.subrange(0, k))] + lines_of(b.subrange(k + 1, b.len() as int))
        }
    }
}

proof fn lemma_newline_from(b: Seq<u8>, k: int)
    requires
        0 <= k <= b.len(),
    ensures
        k <= newline_from(b, k) <= b.len(),
        newline_from(b, k) < b.len() ==> b[newline_from(b, k)] == 10u8,
        forall|t: int| k <= t < newline_from(b, k) ==> b[t] != 10u8,
    decreases b.len() - k,
{
    if k < b.len() && b[k] != 10u8 {
        lemma_newline_from(b, k + 1);
    }
}

/// `newline_from` depends only on the bytes from `k` on.
proof fn lemma_newline_shift(b: Seq<u8>, s: int, k: int)
    requires
        0 <= s <= k <= b.len(),
    ensures
        newline_from(b.subrange(s, b.len() as int), k - s) == newline_from(b, k) - s,
    decreases b.len() - k,
{
    let t = b.subrange(s, b.len() as int);
    if k < b.len() {
        assert(t[k - s] == b[k]);
        if b[k] != 10u8 {
            lemma_newline_shift(b, s, k + 1);
        }
    }
}

/// The lines of `input`, as bytes.
pub fn split_lines(input: &str) -> (r: Vec<Vec<u8>>)
    ensures
        r@.len() == lines_of(input.spec_bytes()).len(),
        forall|i: int| 0 <= i < r@.len() ==> #[trigger] r@[i]@ == lines_of(input.spec_bytes())[i],
{
    let bytes = input.as_bytes();
    let ghost b = bytes@;
    let mut rows: Vec<Vec<u8>> = Vec::new();
    let mut cur: Vec<u8> = Vec::new();
    let mut p: usize = 0;
    let ghost mut start: int = 0;
    assert(b.subrange(0, b.len() as int) =~= b);
    while p < bytes.len()
        invariant
            b == bytes@,
            b == input.spec_bytes(),
            0 <= start <= p <= b.len(),
            cur@ == b.subrange(start, p as int),
            forall|t: int| start <= t < p ==> b[t] != 10u8,
            p < b.len() || start < p ==> lines_of(b.subrange(start, b.len() as int)).len() >= 1,
            ({
                let rest = lines_of(b.subrange(start, b.len() as int));
                &&& rows@.len() + rest.len() == lines_of(b).len()
                &&& forall|i: int| 0 <= i < rows@.len() ==> #[trigger] rows@[i]@ == lines_of(b)[i]
                &&& forall|i: int|
                    0 <= i < rest.len() ==> #[trigger] rest[i] == lines_of(b)[rows@.len() + i]
            }),
        decreases b.len() - p,
    {
        let c = bytes[p];
        if c == 10u8 {
            proof {
                let tail = b.subrange(start, b.len() as int);
                lemma_newline_shift(b, start, start);
                lemma_newline_from(b, start);
                assert(newline_from(b, start) == p);
                assert(newline_from(tail, 0) == p - start);
                assert(tail.subrange(0, p - start) =~= cur@);
                assert(tail.subrange(p - start + 1, tail.len() as int) =~= b.subrange(
                    p + 1,
                    b.len() as int,
                ));
                assert(lines_of(tail) == seq![strip_cr(cur@)] + lines_of(b.subrange(p + 1, b.len() as int)));
            }
            let ghost old_rows = rows@;
            let ghost old_rest = lines_of(b.subrange(start, b.len() as int));
            rows.push(strip_cr_vec(cur));
            cur = Vec::new();
            proof {
                start = p + 1;
                let rest = lines_of(b.subrange(start, b.len() as int));
                assert(rows@.len() + rest.len() == lines_of(b).len());
                assert forall|i: int| 0 <= i < rows@.len() implies #[trigger] rows@[i]@ == lines_of(
                    b,
                )[i] by {
                    if i < old_rows.len() {
                        assert(rows@[i] == old_rows[i]);
                    } else {
                        assert(old_rest[0] == lines_of(b)[old_rows.len() as int]);
                    }
                }
                assert forall|i: int| 0 <= i < rest.len() implies #[trigger] rest[i] == lines_of(
                    b,
                )[rows@.len() + i] by {
                    assert(old_rest[i + 1] == lines_of(b)[old_rows.len() + (i + 1)]);
                }
            }
        } else {
            cur.push(c);
        }
        p = p + 1;
        proof {
            if p < b.len() || start < p {
                let tail = b.subrange(start, b.len() as int);
                assert(tail.len() > 0);
            }
        }
    }
    if cur.len() > 0 {
        proof {
            let tail = b.subrange(start, b.len() as int);
            lemma_newline_shift(b, start, start);
            lemma_newline_from(b, start);
            assert(tail =~= cur@);
            assert(lines_of(tail) == seq![strip_cr(tail)]);
            assert(lines_of(tail)[0] == lines_of(b)[rows@.len() as int]);
        }
        rows.push(strip_cr_vec(cur));
    } else {
        assert(b.subrange(start, b.len() as int) =~= Seq::<u8>::empty());
        assert(lines_of(b.subrange(start, b.len() as int)).len() == 0);
    }
    rows
}

pub open spec fn is_ascii_digit(c: u8) -> bool {
    48 <= c <= 57
}

/// The numbers finished so far, and the one being read, after scanning `b`.
pub open spec fn scan_numbers(b: Seq<u8>) -> (Seq<int>, Option<int>)
    decreases b.len(),
{
    if b.len() == 0 {
        (Seq::empty(), None)
    } else {
        let (done, cur) = scan_numbers(b.drop_last());
        let c = b.last();
        if is_ascii_digit(c) {
            (done, Some(cur.unwrap_or(0) * 10 + (c - 48)))
        } else {
            match cur {
                Some(v) => (done.push(v), None),
                None => (done, None),
            }
        }
    }
}

/// The values of the maximal runs of ASCII digits in `b`, in order.
pub open spec fn numbers_in(b: Seq<u8>) -> Seq<int> {
    let (done, cur) = scan_numbers(b);
    match cur {
        Some(v) => done.push(v),
        None => done,
    }
}

proof fn lemma_scan_nonneg(b: Seq<u8>)
    ensures
        forall|i: int| 0 <= i < scan_numbers(b).0.len() ==> 0 <= #[trigger] scan_numbers(b).0[i],
        scan_numbers(b).1 matches Some(v) ==> 0 <= v,
    decreases b.len(),
{
    if b.len() > 0 {
        lemma_scan_nonneg(b.drop_last());
    }
}

/// The numbers written in `b`, or `None` when one of them exceeds `u64::MAX`.
pub fn parse_numbers(b: &[u8]) -> (r: Option<Vec<u64>>)
    ensures
        r is Some <==> forall|i: int|
            0 <= i < numbers_in(b@).len() ==> #[trigger] numbers_in(b@)[i] <= u64::MAX,
        r matches Some(v) ==> v@.len() == numbers_in(b@).len() && forall|i: int|
            0 <= i < v@.len() ==> #[trigger] v@[i] == numbers_in(b@)[i],
{
    let mut out: Vec<u64> = Vec::new();
    let mut cur: Option<u64> = None;
    let mut k: usize = 0;
    while k < b.len()
        invariant
            k <= b@.len(),
            ({
                let (done, pending) = scan_numbers(b@.subrange(0, k as int));
                &&& out@.len() == done.len()
                &&& forall|i: int| 0 <= i < out@.len() ==> #[trigger] out@[i] == done[i]
                &&& (cur matches Some(c) ==> pending == Some(c as int))
                &&& (cur is None ==> pending is None)
            }),
        decreases b@.len() - k,
    {
        let c = b[k];
        proof {
            assert(b@.subrange(0, k + 1).drop_last() =~= b@.subrange(0, k as int));
            assert(b@.subrange(0, k + 1).last() == c);
            lemma_scan_nonneg(b@.subrange(0, k as int));
        }
        if c >= 48 && c <= 57 {
            let base: u64 = match cur {
                Some(v) => v,
                None => 0,
            };
            let d = (c - 48) as u64;
            if base > (u64::MAX - d) / 10 {
                proof {
                    let p = scan_numbers(b@.subrange(0, k as int)).1.unwrap_or(0);
                    assert(p == base);
                    assert(base * 10 + d > u64::MAX) by (nonlinear_arith)
                        requires
                            base > (u64::MAX - d) / 10,
                            d <= 9,
                    ;
                    lemma_overflow_persists(b@, k as int + 1);
                }
                return None;
            }
            cur = Some(base * 10 + d);
        } else {
            if let Some(v) = cur {
                out.push(v);
            }
            cur = None;
        }
        k = k + 1;
    }
    assert(b@.subrange(0, b@.len() as int) =~= b@);
    if let Some(v) = cur {
        out.push(v);
    }
    assert forall|i: int| 0 <= i < numbers_in(b@).len() implies #[trigger] numbers_in(b@)[i]
        <= u64::MAX by {
        assert(numbers_in(b@)[i] == out@[i]);
    }
    Some(out)
}

/// Once the number being read exceeds `u64::MAX`, `numbers_in` holds a value above it.
proof fn lemma_overflow_persists(b: Seq<u8>, k: int)
    requires
        0 < k <= b.len(),
        is_ascii_digit(b[k - 1]),
        scan_numbers(b.subrange(0, k - 1)).1.unwrap_or(0) * 10 + (b[k - 1] - 48) > u64::MAX,
    ensures
        exists|i: int| 0 <= i < numbers_in(b).len() && #[trigger] numbers_in(b)[i] > u64::MAX,
    decreases b.len() - k,
{
    lemma_scan_nonneg(b.subrange(0, k - 1));
    let pre = b.subrange(0, k);
    assert(pre.drop_last() =~= b.subrange(0, k - 1));
    lemma_pending_grows(b, k);
}

/// A pending number only grows until it is finished, and it is finished into the list.
proof fn lemma_pending_grows(b: Seq<u8>, k: int)
    requires
        0 < k <= b.len(),
        scan_numbers(b.subrange(0, k)).1 is Some,
        scan_numbers(b.subrange(0, k)).1.unwrap() > u64::MAX,
    ensures
        exists|i: int| 0 <= i < numbers_in(b).len() && #[trigger] numbers_in(b)[i] > u64::MAX,
    decreases b.len() - k,
{
    let pre = b.subrange(0, k);
    if k == b.len() {
        assert(pre =~= b);
        assert(numbers_in(b)[numbers_in(b).len() - 1] > u64::MAX);
    } else {
        let next = b.subrange(0, k + 1);
        assert(next.drop_last() =~= pre);
        lemma_scan_nonneg(pre);
        if is_ascii_digit(b[k]) {
            assert(scan_numbers(next).1.unwrap() >= scan_numbers(pre).1.unwrap() * 10) by (nonlinear_arith)
                requires
                    scan_numbers(next).1.unwrap() == scan_numbers(pre).1.unwrap() * 10 + (b[k] - 48),
                    b[k] >= 48,
            ;
            lemma_pending_grows(b, k + 1);
        } else {
            lemma_done_kept(b, k + 1, scan_numbers(next).0.len() - 1);
        }
    }
}

/// A finished number stays in the list.
proof fn lemma_done_kept(b: Seq<u8>, k: int, i: int)
    requires
        0 < k <= b.len(),
        0 <= i < scan_numbers(b.subrange(0, k)).0.len(),
    ensures
        numbers_in(b).len() > i,
        numbers_in(b)[i] == scan_numbers(b.subrange(0, k)).0[i],
    decreases b.len() - k,
{
    let pre = b.subrange(0, k);
    if k == b.len() {
        assert(pre =~= b);
    } else {
        let next = b.subrange(0, k + 1);
        assert(next.drop_last() =~= pre);
        lemma_done_kept(b, k + 1, i);
    }
}

/// The bytes after the first `c` of `b`, or `None` when `b` holds no `c`.
pub open spec fn after_first(b: Seq<u8>, c: u8) -> Option<Seq<u8>> {
    if exists|i: int| 0 <= i < b.len() && b[i] == c {
        let i = choose|i: int|
            0 <= i < b.len() && b[i] == c && forall|j: int| 0 <= j < i ==> b[j] != c;
        Some(b.subrange(i + 1, b.len() as int))
    } else {
        None
    }
}

/// The bytes after the first `c` of `b`.
pub fn split_after(b: &[u8], c: u8) -> (r: Option<Vec<u8>>)
    ensures
        r is Some == after_first(b@, c) is Some,
        r matches Some(v) ==> Some(v@) == after_first(b@, c),
{
    let mut i: usize = 0;
    while i < b.len()
        invariant
            i <= b@.len(),
            forall|j: int| 0 <= j < i ==> b@[j] != c,
        decreases b@.len() - i,
    {
        if b[i] == c {
            let ghost w = choose|w: int|
                0 <= w < b@.len() && b@[w] == c && forall|j: int| 0 <= j < w ==> b@[j] != c;
            assert(w == i) by {
                if w > i {
                    assert(b@[i as int] == c);
                }
            }
            let mut out: Vec<u8> = Vec::new();
            let mut k = i + 1;
            while k < b.len()
                invariant
                    i < k <= b@.len(),
                    out@ == b@.subrange(i + 1, k as int),
                decreases b@.len() - k,
            {
                out.push(b[k]);
                assert(b@.subrange(i + 1, k + 1) =~= b@.subrange(i + 1, k as int).push(b@[k as int]));
                k = k + 1;
            }
            return Some(out);
        }
        i = i + 1;
    }
    None
}

/// The ASCII digits of `b`, everything else left out.
pub open spec fn digits_of(b: Seq<u8>) -> Seq<u8>
    decreases b.len(),
{
    if b.len() == 0 {
        Seq::empty()
    } else if is_ascii_digit(b.last()) {
        digits_of(b.drop_last()).push(b.last())
    } else {
        digits_of(b.drop_last())
    }
}

/// The decimal value of a run of ASCII digits.
pub open spec fn decimal(d: Seq<u8>) -> int
    decreases d.len(),
{
    if d.len() == 0 {
        0
    } else {
        decimal(d.drop_last()) * 10 + (d.last() - 48)
    }
}

proof fn lemma_decimal_nonneg(d: Seq<u8>)
    requires
        forall|i: int| 0 <= i < d.len() ==> is_ascii_digit(#[trigger] d[i]),
    ensures
        decimal(d) >= 0,
    decreases d.len(),
{
    if d.len() > 0 {
        lemma_decimal_nonneg(d.drop_last());
        assert(is_ascii_digit(d[d.len() - 1]));
    }
}

proof fn lemma_digits_only(b: Seq<u8>)
    ensures
        forall|i: int| 0 <= i < digits_of(b).len() ==> is_ascii_digit(#[trigger] digits_of(b)[i]),
        digits_of(b).len() <= b.len(),
    decreases b.len(),
{
    if b.len() > 0 {
        lemma_digits_only(b.drop_last());
        let sub = digits_of(b.drop_last());
        if is_ascii_digit(b.last()) {
            assert forall|i: int| 0 <= i < digits_of(b).len() implies is_ascii_digit(#[trigger] digits_of(b)[i]) by {
                if i < sub.len() {
                    assert(digits_of(b)[i] == sub[i]);
                }
            }
        }
    }
}

/// Reading more bytes never makes the joined digits smaller.
proof fn lemma_joined_monotone(b: Seq<u8>, k: int)
    requires
        0 <= k <= b.len(),
    ensures
        decimal(digits_of(b.subrange(0, k))) <= decimal(digits_of(b)),
    decreases b.len() - k,
{
    if k < b.len() {
        lemma_joined_monotone(b, k + 1);
        let pre = b.subrange(0, k);
        let next = b.subrange(0, k + 1);
        assert(next.drop_last() =~= pre);
        lemma_digits_only(pre);
        lemma_decimal_nonneg(digits_of(pre));
        if is_ascii_digit(b[k]) {
            assert(digits_of(next) == digits_of(pre).push(b[k]));
            assert(digits_of(pre).push(b[k]).drop_last() =~= digits_of(pre));
        }
    } else {
        assert(b.subrange(0, k) =~= b);
    }
}

/// The digits of `b` read as one number, ignoring every other byte; `None` when there
/// are no digits or the number exceeds `u64::MAX`.
pub fn joined_number(b: &[u8]) -> (r: Option<u64>)
    ensures
        r is Some <==> digits_of(b@).len() > 0 && decimal(digits_of(b@)) <= u64::MAX,
        r matches Some(v) ==> v == decimal(digits_of(b@)),
{
    let mut value: u64 = 0;
    let mut seen = false;
    let mut k: usize = 0;
    while k < b.len()
        invariant
            k <= b@.len(),
            value == decimal(digits_of(b@.subrange(0, k as int))),
            seen == (digits_of(b@.subrange(0, k as int)).len() > 0),
        decreases b@.len() - k,
    {
        let c = b[k];
        let ghost pre = b@.subrange(0, k as int);
        proof {
            assert(b@.subrange(0, k + 1).drop_last() =~= pre);
            assert(b@.subrange(0, k + 1).last() == c);
        }
        if c >= 48 && c <= 57 {
            let d = (c - 48) as u64;
            proof {
                assert(digits_of(pre).push(c).drop_last() =~= digits_of(pre));
            }
            if value > (u64::MAX - d) / 10 {
                proof {
                    assert(value * 10 + d > u64::MAX) by (nonlinear_arith)
                        requires
                            value > (u64::MAX - d) / 10,
                            d <= 9,
                    ;
                    lemma_joined_monotone(b@, k + 1);
                }
                return None;
            }
            value = value * 10 + d;
            seen = true;
        }
        k = k + 1;
    }
    assert(b@.subrange(0, b@.len() as int) =~= b@);
    if seen {
        Some(value)
    } else {
        None
    }
}

/// Index of the first `c` of `b` at or after `k`, or `b.len()` when there is none.
pub open spec fn index_from(b: Seq<u8>, c: u8, k: int) -> int
    decreases b.len() - k,
{
    if k >= b.len() {
        b.len() as int
    } else if b[k] == c {
        k
    } else {
        index_from(b, c, k + 1)
    }
}

/// The pieces of `b` between the bytes `c`; `n` of them give `n + 1` pieces.
pub open spec fn pieces_of(b: Seq<u8>, c: u8) -> Seq<Seq<u8>>
    decreases b.len(),
{
    let k = index_from(b, c, 0);
    if k < 0 || k >= b.len() {
        seq![b]
    } else {
        seq![b.subrange(0, k)] + pieces_of(b.subrange(k + 1, b.len() as int), c)
    }
}

proof fn lemma_index_from(b: Seq<u8>, c: u8, k: int)
    requires
        0 <= k <= b.len(),
    ensures
        k <= index_from(b, c, k) <= b.len(),
        index_from(b, c, k) < b.len() ==> b[index_from(b, c, k)] == c,
        forall|t: int| k <= t < index_from(b, c, k) ==> b[t] != c,
    decreases b.len() - k,
{
    if k < b.len() && b[k] != c {
        lemma_index_from(b, c, k + 1);
    }
}

proof fn lemma_index_shift(b: Seq<u8>, c: u8, s: int, k: int)
    requires
        0 <= s <= k <= b.len(),
    ensures
        index_from(b.subrange(s, b.len() as int), c, k - s) == index_from(b, c, k) - s,
    decreases b.len() - k,
{
    let t = b.subrange(s, b.len() as int);
    if k < b.len() {
        assert(t[k - s] == b[k]);
        if b[k] != c {
            lemma_index_shift(b, c, s, k + 1);
        }
    }
}

/// The pieces of `b` between the bytes `c`.
pub fn split_pieces(b: &[u8], c: u8) -> (r: Vec<Vec<u8>>)
    ensures
        r@.len() == pieces_of(b@, c).len(),
        forall|i: int| 0 <= i < r@.len() ==> #[trigger] r@[i]@ == pieces_of(b@, c)[i],
{
    let ghost bs = b@;
    let mut out: Vec<Vec<u8>> = Vec::new();
    let mut cur: Vec<u8> = Vec::new();
    let mut p: usize = 0;
    let ghost mut start: int = 0;
    assert(bs.subrange(0, bs.len() as int) =~= bs);
    while p < b.len()
        invariant
            bs == b@,
            0 <= start <= p <= bs.len(),
            cur@ == bs.subrange(start, p as int),
            forall|t: int| start <= t < p ==> bs[t] != c,
            ({
                let rest = pieces_of(bs.subrange(start, bs.len() as int), c);
                &&& out@.len() + rest.len() == pieces_of(bs, c).len()
                &&& forall|i: int| 0 <= i < out@.len() ==> #[trigger] out@[i]@ == pieces_of(bs, c)[i]
                &&& forall|i: int|
                    0 <= i < rest.len() ==> #[trigger] rest[i] == pieces_of(bs, c)[out@.len() + i]
            }),
        decreases bs.len() - p,
    {
        let x = b[p];
        if x == c {
            let ghost old_out = out@;
            let ghost tail = bs.subrange(start, bs.len() as int);
            let ghost old_rest = pieces_of(tail, c);
            proof {
                lemma_index_shift(bs, c, start, start);
                lemma_index_from(bs, c, start);
                assert(index_from(bs, c, start) == p);
                assert(tail.subrange(0, p - start) =~= cur@);
                assert(tail.subrange(p - start + 1, tail.len() as int) =~= bs.subrange(
                    p + 1,
                    bs.len() as int,
                ));
                assert(old_rest == seq![cur@] + pieces_of(bs.subrange(p + 1, bs.len() as int), c));
            }
            out.push(cur);
            cur = Vec::new();
            proof {
                start = p + 1;
                let rest = pieces_of(bs.subrange(start, bs.len() as int), c);
                assert forall|i: int| 0 <= i < out@.len() implies #[trigger] out@[i]@ == pieces_of(
                    bs,
                    c,
                )[i] by {
                    if i < old_out.len() {
                        assert(out@[i] == old_out[i]);
                    } else {
                        assert(old_rest[0] == pieces_of(bs, c)[old_out.len() as int]);
                    }
                }
                assert forall|i: int| 0 <= i < rest.len() implies #[trigger] rest[i] == pieces_of(
                    bs,
                    c,
                )[out@.len() + i] by {
                    assert(old_rest[i + 1] == pieces_of(bs, c)[old_out.len() + (i + 1)]);
                }
            }
        } else {
            cur.push(x);
        }
        p = p + 1;
    }
    proof {
        let tail = bs.subrange(start, bs.len() as int);
        lemma_index_shift(bs, c, start, start);
        lemma_index_from(bs, c, start);
        assert(tail =~= cur@);
        assert(pieces_of(tail, c) == seq![tail]);
        assert(pieces_of(tail, c)[0] == pieces_of(bs, c)[out@.len() as int]);
    }
    out.push(cur);
    out
}

/// A nonempty run of ASCII digits.
pub open spec fn all_digits(d: Seq<u8>) -> bool {
    d.len() > 0 && forall|i: int| 0 <= i < d.len() ==> is_ascii_digit(#[trigger] d[i])
}

pub proof fn lemma_decimal_step(d: Seq<u8>, k: int)
    requires
        0 <= k < d.len(),
    ensures
        decimal(d.subrange(0, k + 1)) == decimal(d.subrange(0, k)) * 10 + (d[k] - 48),
{
    assert(d.subrange(0, k + 1).drop_last() =~= d.subrange(0, k));
}

/// The value of a prefix of a digit run lies between 0 and the value of the run.
pub proof fn lemma_decimal_prefix_bound(d: Seq<u8>, k: int)
    requires
        0 <= k <= d.len(),
        forall|i: int| 0 <= i < d.len() ==> is_ascii_digit(#[trigger] d[i]),
    ensures
        0 <= decimal(d.subrange(0, k)) <= decimal(d),
    decreases d.len(),
{
    if d.len() > 0 {
        let e = d.drop_last();
        assert(e.subrange(0, e.len() as int) =~= e);
        if k == d.len() {
            assert(d.subrange(0, k) =~= d);
            lemma_decimal_prefix_bound(e, e.len() as int);
        } else {
            assert(e.subrange(0, k) =~= d.subrange(0, k));
            lemma_decimal_prefix_bound(e, k);
            lemma_decimal_prefix_bound(e, e.len() as int);
        }
        assert(is_ascii_digit(d[d.len() - 1]));
    } else {
        assert(d.subrange(0, k) =~= d);
    }
}

/// The numbers written in a text are not negative.
pub proof fn lemma_numbers_in_nonneg(b: Seq<u8>)
    ensures
        forall|k: int| 0 <= k < numbers_in(b).len() ==> 0 <= #[trigger] numbers_in(b)[k],
{
    lemma_scan_nonneg(b);
}

/// The unsigned integer a word writes, when it is at most `max`: decimal digits,
/// optionally after a `+`.
pub open spec fn unsigned_of(f: Seq<u8>, max: int) -> Option<int> {
    let d = if f.len() > 0 && f[0] == 43u8 { f.subrange(1, f.len() as int) } else { f };
    if all_digits(d) && decimal(d) <= max {
        Some(decimal(d))
    } else {
        None
    }
}

/// The unsigned integer a word writes, when it fits in a `u64`.
pub fn parse_u64(f: &[u8]) -> (r: Option<u64>)
    ensures
        r is Some == unsigned_of(f@, u64::MAX as int) is Some,
        r matches Some(v) ==> unsigned_of(f@, u64::MAX as int) == Some(v as int),
{
    let from: usize = if f.len() > 0 && f[0] == 43u8 { 1 } else { 0 };
    let ghost d = f@.subrange(from as int, f@.len() as int);
    assert(from == 0 ==> d =~= f@);
    if from >= f.len() {
        assert(!all_digits(d));
        return None;
    }
    let mut k = from;
    let mut value: u64 = 0;
    while k < f.len()
        invariant
            d == f@.subrange(from as int, f@.len() as int),
            from < f@.len(),
            from <= k <= f@.len(),
            forall|i: int| 0 <= i < k - from ==> is_ascii_digit(#[trigger] d[i]),
            value == decimal(d.subrange(0, k - from)),
            unsigned_of(f@, u64::MAX as int) == (if all_digits(d) && decimal(d) <= u64::MAX {
                Some(decimal(d))
            } else {
                None
            }),
        decreases f@.len() - k,
    {
        let c = f[k];
        assert(c == d[k - from]);
        if !(c >= 48 && c <= 57) {
            assert(!is_ascii_digit(d[k - from]));
            return None;
        }
        proof {
            lemma_decimal_step(d, k - from);
        }
        let digit = (c - 48) as u64;
        if value > (u64::MAX - digit) / 10 {
            proof {
                assert(value * 10 + digit > u64::MAX) by (nonlinear_arith)
                    requires
                        value > (u64::MAX - digit) / 10,
                        digit <= 9,
                ;
                if all_digits(d) {
                    lemma_decimal_prefix_bound(d, k - from + 1);
                }
            }
            return None;
        }
        value = value * 10 + digit;
        k = k + 1;
    }
    assert(d.subrange(0, d.len() as int) =~= d);
    Some(value)
}

} // verus!
