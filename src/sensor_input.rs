//! Sensor records in text form:
//! `Sensor at x=X, y=Y: closest beacon is at x=X2, y=Y2`.
//!
//! A line is cut at every `=`, `,` and `:`; the pieces 1, 3, 5 and 7 (counted from 0)
//! are the four coordinates, written as decimal integers with an optional sign.

use vstd::prelude::*;
use vstd::string::StringSliceAdditionalSpecFns;
use crate::coverage::{coord_ok, sensors_ok, Position, Sensor, COORD_MAX};
use crate::text::{
    all_digits, decimal, is_ascii_digit, lemma_decimal_prefix_bound, lemma_decimal_step, lines_of,
    split_lines,
};

verus! {

pub open spec fn is_separator(c: u8) -> bool {
    c == 61u8 || c == 44u8 || c == 58u8
}

/// Index of the first separator of `b` at or after `k`, or `b.len()` when there is none.
pub open spec fn separator_from(b: Seq<u8>, k: int) -> int
    decreases b.len() - k,
{
    if k >= b.len() {
        b.len() as int
    } else if is_separator(b[k]) {
        k
    } else {
        separator_from(b, k + 1)
    }
}

/// The pieces of `b` between separators; `n` separators give `n + 1` pieces.
pub open spec fn fields_of(b: Seq<u8>) -> Seq<Seq<u8>>
    decreases b.len(),
{
    let k = separator_from(b, 0);
    if k < 0 || k >= b.len() {
        seq![b]
    } else {
        seq![b.subrange(0, k)] + fields_of(b.subrange(k + 1, b.len() as int))
    }
}

/// The integer a piece writes: digits with an optional leading `+` or `-`.
pub open spec fn integer_of(f: Seq<u8>) -> Option<int> {
    if f.len() > 0 && f[0] == 45u8 && all_digits(f.subrange(1, f.len() as int)) {
        Some(-decimal(f.subrange(1, f.len() as int)))
    } else if f.len() > 0 && f[0] == 43u8 && all_digits(f.subrange(1, f.len() as int)) {
        Some(decimal(f.subrange(1, f.len() as int)))
    } else if all_digits(f) {
        Some(decimal(f))
    } else {
        None
    }
}

/// The coordinate a piece writes, when it is an integer within `COORD_MAX`.
pub open spec fn coord_of(f: Seq<u8>) -> Option<i64> {
    match integer_of(f) {
        Some(v) => if -COORD_MAX <= v <= COORD_MAX {
            Some(v as i64)
        } else {
            None
        },
        None => None,
    }
}

/// The sensor a line describes, if its pieces 1, 3, 5 and 7 are coordinates.
pub open spec fn sensor_of_line(line: Seq<u8>) -> Option<Sensor> {
    let f = fields_of(line);
    if f.len() >= 8 && coord_of(f[1]) is Some && coord_of(f[3]) is Some && coord_of(f[5]) is Some
        && coord_of(f[7]) is Some {
        Some(
            Sensor {
                self_pos: Position { x: coord_of(f[1]).unwrap(), y: coord_of(f[3]).unwrap() },
                beacon: Position { x: coord_of(f[5]).unwrap(), y: coord_of(f[7]).unwrap() },
            },
        )
    } else {
        None
    }
}

proof fn lemma_separator_from(b: Seq<u8>, k: int)
    requires
        0 <= k <= b.len(),
    ensures
        k <= separator_from(b, k) <= b.len(),
        separator_from(b, k) < b.len() ==> is_separator(b[separator_from(b, k)]),
        forall|t: int| k <= t < separator_from(b, k) ==> !is_separator(b[t]),
    decreases b.len() - k,
{
    if k < b.len() && !is_separator(b[k]) {
        lemma_separator_from(b, k + 1);
    }
}

proof fn lemma_separator_shift(b: Seq<u8>, s: int, k: int)
    requires
        0 <= s <= k <= b.len(),
    ensures
        separator_from(b.subrange(s, b.len() as int), k - s) == separator_from(b, k) - s,
    decreases b.len() - k,
{
    let t = b.subrange(s, b.len() as int);
    if k < b.len() {
        assert(t[k - s] == b[k]);
        if !is_separator(b[k]) {
            lemma_separator_shift(b, s, k + 1);
        }
    }
}

/// The pieces of a line between separators.
fn split_fields(line: &Vec<u8>) -> (r: Vec<Vec<u8>>)
    ensures
        r@.len() == fields_of(line@).len(),
        forall|i: int| 0 <= i < r@.len() ==> #[trigger] r@[i]@ == fields_of(line@)[i],
{
    let ghost b = line@;
    let mut out: Vec<Vec<u8>> = Vec::new();
    let mut cur: Vec<u8> = Vec::new();
    let mut p: usize = 0;
    let ghost mut start: int = 0;
    assert(b.subrange(0, b.len() as int) =~= b);
    while p < line.len()
        invariant
            b == line@,
            0 <= start <= p <= b.len(),
            cur@ == b.subrange(start, p as int),
            forall|t: int| start <= t < p ==> !is_separator(b[t]),
            ({
                let rest = fields_of(b.subrange(start, b.len() as int));
                &&& out@.len() + rest.len() == fields_of(b).len()
                &&& forall|i: int| 0 <= i < out@.len() ==> #[trigger] out@[i]@ == fields_of(b)[i]
                &&& forall|i: int|
                    0 <= i < rest.len() ==> #[trigger] rest[i] == fields_of(b)[out@.len() + i]
            }),
        decreases b.len() - p,
    {
        let c = line[p];
        if c == 61u8 || c == 44u8 || c == 58u8 {
            let ghost old_out = out@;
            let ghost tail = b.subrange(start, b.len() as int);
            let ghost old_rest = fields_of(tail);
            proof {
                lemma_separator_shift(b, start, start);
                lemma_separator_from(b, start);
                assert(separator_from(b, start) == p);
                assert(separator_from(tail, 0) == p - start);
                assert(tail.subrange(0, p - start) =~= cur@);
                assert(tail.subrange(p - start + 1, tail.len() as int) =~= b.subrange(
                    p + 1,
                    b.len() as int,
                ));
                assert(old_rest == seq![cur@] + fields_of(b.subrange(p + 1, b.len() as int)));
            }
            out.push(cur);
            cur = Vec::new();
            proof {
                start = p + 1;
                let rest = fields_of(b.subrange(start, b.len() as int));
                assert forall|i: int| 0 <= i < out@.len() implies #[trigger] out@[i]@ == fields_of(
                    b,
                )[i] by {
                    if i < old_out.len() {
                        assert(out@[i] == old_out[i]);
                    } else {
                        assert(old_rest[0] == fields_of(b)[old_out.len() as int]);
                    }
                }
                assert forall|i: int| 0 <= i < rest.len() implies #[trigger] rest[i] == fields_of(
                    b,
                )[out@.len() + i] by {
                    assert(old_rest[i + 1] == fields_of(b)[old_out.len() + (i + 1)]);
                }
            }
        } else {
            cur.push(c);
        }
        p = p + 1;
    }
    proof {
        let tail = b.subrange(start, b.len() as int);
        lemma_separator_shift(b, start, start);
        lemma_separator_from(b, start);
        assert(tail =~= cur@);
        assert(fields_of(tail) == seq![tail]);
        assert(fields_of(tail)[0] == fields_of(b)[out@.len() as int]);
    }
    out.push(cur);
    out
}

/// The value of the digits `f[from..]`, or `None` when one of them is no digit, there
/// are none, or the value exceeds `COORD_MAX`.
fn digits_value(f: &Vec<u8>, from: usize) -> (r: Option<i64>)
    requires
        from <= f@.len(),
    ensures
        ({
            let d = f@.subrange(from as int, f@.len() as int);
            &&& r is Some <==> all_digits(d) && decimal(d) <= COORD_MAX
            &&& r matches Some(v) ==> v == decimal(d) && 0 <= v
        }),
{
    let ghost d = f@.subrange(from as int, f@.len() as int);
    if from >= f.len() {
        return None;
    }
    let mut k = from;
    let mut value: i64 = 0;
    while k < f.len()
        invariant
            d == f@.subrange(from as int, f@.len() as int),
            from <= k <= f@.len(),
            forall|i: int| 0 <= i < k - from ==> is_ascii_digit(#[trigger] d[i]),
            value == decimal(d.subrange(0, k - from)),
            0 <= value <= COORD_MAX,
        decreases f@.len() - k,
    {
        let c = f[k];
        assert(c == d[k - from]);
        if !(c >= 48 && c <= 57) {
            return None;
        }
        proof {
            lemma_decimal_step(d, k - from);
        }
        let next = value * 10 + (c - 48) as i64;
        if next > COORD_MAX {
            proof {
                assert(forall|i: int| 0 <= i < k - from + 1 ==> is_ascii_digit(#[trigger] d[i]));
                if all_digits(d) {
                    lemma_decimal_prefix_bound(d, k - from + 1);
                }
            }
            return None;
        }
        value = next;
        k = k + 1;
    }
    assert(d.subrange(0, d.len() as int) =~= d);
    Some(value)
}

/// The coordinate a piece writes.
fn parse_coord(f: &Vec<u8>) -> (r: Option<i64>)
    ensures
        r == coord_of(f@),
{
    proof {
        if f@.len() > 0 && all_digits(f@.subrange(1, f@.len() as int)) {
            lemma_decimal_prefix_bound(f@.subrange(1, f@.len() as int), 0);
        }
        if all_digits(f@) {
            lemma_decimal_prefix_bound(f@, 0);
        }
    }
    if f.len() > 0 && (f[0] == 45u8 || f[0] == 43u8) {
        let v = digits_value(f, 1);
        proof {
            assert(!all_digits(f@));
        }
        match v {
            Some(v) => if f[0] == 45u8 {
                Some(-v)
            } else {
                Some(v)
            },
            None => {
                proof {
                    let d = f@.subrange(1, f@.len() as int);
                    if all_digits(d) {
                        assert(decimal(d) > COORD_MAX);
                    }
                }
                None
            },
        }
    } else {
        let v = digits_value(f, 0);
        assert(f@.subrange(0, f@.len() as int) =~= f@);
        v
    }
}

/// Reads one sensor per line; `None` when some line is no well-formed record or holds
/// a coordinate beyond `COORD_MAX`.
pub fn parse_sensors(input: &str) -> (r: Option<Vec<Sensor>>)
    ensures
        r is Some <==> forall|i: int|
            0 <= i < lines_of(input.spec_bytes()).len() ==> #[trigger] sensor_of_line(
                lines_of(input.spec_bytes())[i],
            ) is Some,
        r matches Some(v) ==> v@.len() == lines_of(input.spec_bytes()).len() && sensors_ok(v@)
            && forall|i: int|
            0 <= i < v@.len() ==> sensor_of_line(lines_of(input.spec_bytes())[i]) == Some(
                #[trigger] v@[i],
            ),
{
    let lines = split_lines(input);
    let ghost ls = lines_of(input.spec_bytes());
    let mut out: Vec<Sensor> = Vec::new();
    let mut i: usize = 0;
    while i < lines.len()
        invariant
            lines@.len() == ls.len(),
            ls == lines_of(input.spec_bytes()),
            forall|k: int| 0 <= k < lines@.len() ==> #[trigger] lines@[k]@ == ls[k],
            i <= lines@.len(),
            out@.len() == i,
            sensors_ok(out@),
            forall|k: int| 0 <= k < i ==> sensor_of_line(ls[k]) == Some(#[trigger] out@[k]),
        decreases lines@.len() - i,
    {
        assert(lines@[i as int]@ == ls[i as int]);
        let fields = split_fields(&lines[i]);
        if fields.len() < 8 {
            assert(sensor_of_line(ls[i as int]) is None);
            return None;
        }
        let sx = parse_coord(&fields[1]);
        let sy = parse_coord(&fields[3]);
        let bx = parse_coord(&fields[5]);
        let by = parse_coord(&fields[7]);
        match (sx, sy, bx, by) {
            (Some(sx), Some(sy), Some(bx), Some(by)) => {
                let s = Sensor { self_pos: Position { x: sx, y: sy }, beacon: Position { x: bx, y: by } };
                out.push(s);
                assert(sensor_of_line(ls[i as int]) == Some(s));
            },
            _ => {
                assert(sensor_of_line(ls[i as int]) is None);
                return None;
            },
        }
        i = i + 1;
    }
    assert forall|k: int| 0 <= k < ls.len() implies #[trigger] sensor_of_line(ls[k]) is Some by {
        assert(sensor_of_line(ls[k]) == Some(out@[k]));
    }
    Some(out)
}

} // verus!
