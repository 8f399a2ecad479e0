//! Sensor coverage on an integer grid.
//!
//! Each sensor covers the closed Manhattan ball (a diamond) around its position whose
//! radius is the distance to its nearest detected object. On a fixed row a diamond
//! becomes a closed interval, so every question about a row is answered by merging
//! intervals instead of enumerating points.

use vstd::prelude::*;

verus! {

/// Largest magnitude accepted for a coordinate. Every intermediate value of the
/// solver (radii, interval ends, sums of interval lengths) then fits in an `i64`.
pub const COORD_MAX: i64 = 1_125_899_906_842_624;

#[derive(Clone, Copy, Debug, PartialEq, Eq, Hash)]
pub struct Position {
    pub x: i64,
    pub y: i64,
}

/// A sensor and the nearest object it detected.
#[derive(Clone, Copy, Debug, PartialEq, Eq, Hash)]
pub struct Sensor {
    pub self_pos: Position,
    pub beacon: Position,
}

/// The closed integer range `[lo, hi]`.
#[derive(Clone, Copy, Debug, PartialEq, Eq, Hash)]
pub struct Interval {
    pub lo: i64,
    pub hi: i64,
}

pub open spec fn abs(v: int) -> int {
    if v < 0 { -v } else { v }
}

pub open spec fn coord_ok(v: i64) -> bool {
    -COORD_MAX <= v <= COORD_MAX
}

pub open spec fn position_ok(p: Position) -> bool {
    coord_ok(p.x) && coord_ok(p.y)
}

pub open spec fn sensor_ok(s: Sensor) -> bool {
    position_ok(s.self_pos) && position_ok(s.beacon)
}

pub open spec fn sensors_ok(sensors: Seq<Sensor>) -> bool {
    forall|i: int| 0 <= i < sensors.len() ==> sensor_ok(#[trigger] sensors[i])
}

pub open spec fn manhattan(a: Position, b: Position) -> int {
    abs(a.x - b.x) + abs(a.y - b.y)
}

/// The coverage radius: Manhattan distance from the sensor to its nearest object.
pub open spec fn radius(s: Sensor) -> int {
    manhattan(s.self_pos, s.beacon)
}

/// Whether the sensor's diamond holds the point `(x, y)`.
pub open spec fn sensor_covers(s: Sensor, x: int, y: int) -> bool {
    abs(x - s.self_pos.x) + abs(y - s.self_pos.y) <= radius(s)
}

pub open spec fn in_interval(iv: Interval, x: int) -> bool {
    iv.lo <= x <= iv.hi
}

/// `lo <= hi`, and `hi + 1` is still an `i64`.
pub open spec fn interval_ok(iv: Interval) -> bool {
    iv.lo <= iv.hi < i64::MAX
}

pub open spec fn intervals_ok(s: Seq<Interval>) -> bool {
    forall|i: int| 0 <= i < s.len() ==> interval_ok(#[trigger] s[i])
}

/// The sensor's coverage on `row`, as a cross-section of its diamond.
pub open spec fn row_section(s: Sensor, row: int) -> Option<Interval> {
    let vd = abs(s.self_pos.y - row);
    if vd > radius(s) {
        None
    } else {
        Some(
            Interval {
                lo: (s.self_pos.x - (radius(s) - vd)) as i64,
                hi: (s.self_pos.x + (radius(s) - vd)) as i64,
            },
        )
    }
}

impl Sensor {
    /// The coverage radius of the sensor.
    pub fn dist(self) -> (r: i64)
        requires
            sensor_ok(self),
        ensures
            r == radius(self),
            0 <= r <= 4 * COORD_MAX,
    {
        let dx = if self.self_pos.x >= self.beacon.x {
            self.self_pos.x - self.beacon.x
        } else {
            self.beacon.x - self.self_pos.x
        };
        let dy = if self.self_pos.y >= self.beacon.y {
            self.self_pos.y - self.beacon.y
        } else {
            self.beacon.y - self.self_pos.y
        };
        dx + dy
    }
}

/// The interval of `row` that the sensor covers, or `None` when the row lies outside
/// its diamond.
pub fn interval_at_row(sensor: &Sensor, row: i64) -> (r: Option<Interval>)
    requires
        sensor_ok(*sensor),
        coord_ok(row),
    ensures
        r == row_section(*sensor, row as int),
        r matches Some(iv) ==> interval_ok(iv) && -5 * COORD_MAX <= iv.lo && iv.hi <= 5
            * COORD_MAX,
        forall|x: int|
            sensor_covers(*sensor, x, row as int) <==> (r matches Some(iv) && in_interval(iv, x)),
{
    let radius = sensor.dist();
    let vd = if sensor.self_pos.y >= row {
        sensor.self_pos.y - row
    } else {
        row - sensor.self_pos.y
    };
    if vd > radius {
        None
    } else {
        let half_width = radius - vd;
        Some(Interval { lo: sensor.self_pos.x - half_width, hi: sensor.self_pos.x + half_width })
    }
}

/// On the sensor's own row its interval reaches `radius` to both sides; one row past
/// the diamond's tip it covers nothing.
pub proof fn lemma_extraction_center_and_beyond(s: Sensor)
    requires
        sensor_ok(s),
    ensures
        row_section(s, s.self_pos.y as int) == Some(
            Interval {
                lo: (s.self_pos.x - radius(s)) as i64,
                hi: (s.self_pos.x + radius(s)) as i64,
            },
        ),
        row_section(s, s.self_pos.y + radius(s) + 1) is None,
{
}

/// The part of `iv` inside the domain `[0, limit]`, or `None` when nothing is left.
pub fn clip_to_domain(iv: Interval, limit: i64) -> (r: Option<Interval>)
    requires
        0 <= limit < i64::MAX,
    ensures
        r matches Some(c) ==> interval_ok(c) && 0 <= c.lo && c.hi <= limit,
        forall|x: int|
            (r matches Some(c) && in_interval(c, x)) <==> (in_interval(iv, x) && 0 <= x <= limit),
{
    let lo = if iv.lo < 0 { 0 } else { iv.lo };
    let hi = if iv.hi > limit { limit } else { iv.hi };
    if lo > hi {
        None
    } else {
        Some(Interval { lo, hi })
    }
}

/// Whether some interval of `s` holds `x`.
pub open spec fn covered(s: Seq<Interval>, x: int) -> bool {
    exists|i: int| 0 <= i < s.len() && in_interval(#[trigger] s[i], x)
}

pub open spec fn sorted_by_lo(s: Seq<Interval>) -> bool {
    forall|i: int, j: int| 0 <= i < j < s.len() ==> s[i].lo <= s[j].lo
}

/// A coverage set: well-formed intervals, ascending, with a gap of at least one
/// point between any two of them.
pub open spec fn normalized(s: Seq<Interval>) -> bool {
    &&& intervals_ok(s)
    &&& forall|i: int, j: int| 0 <= i < j < s.len() ==> #[trigger] s[i].hi + 1 < #[trigger] s[j].lo
}

/// `out` is the coverage set of `input`: normalized, covering exactly the same points.
pub open spec fn is_merge_of(out: Seq<Interval>, input: Seq<Interval>) -> bool {
    &&& normalized(out)
    &&& forall|x: int| covered(out, x) == covered(input, x)
}

proof fn lemma_same_elements_same_coverage(a: Seq<Interval>, b: Seq<Interval>)
    requires
        a.to_multiset() =~= b.to_multiset(),
    ensures
        forall|x: int| covered(a, x) == covered(b, x),
{
    a.to_multiset_ensures();
    b.to_multiset_ensures();
    assert forall|x: int| covered(a, x) implies covered(b, x) by {
        let i = choose|i: int| 0 <= i < a.len() && in_interval(a[i], x);
        assert(a.contains(a[i]));
        assert(a.to_multiset().count(a[i]) > 0);
        assert(b.to_multiset().count(a[i]) > 0);
        assert(b.contains(a[i]));
        let j = choose|j: int| 0 <= j < b.len() && b[j] == a[i];
        assert(in_interval(b[j], x));
    }
    assert forall|x: int| covered(b, x) implies covered(a, x) by {
        let j = choose|j: int| 0 <= j < b.len() && in_interval(b[j], x);
        assert(b.contains(b[j]));
        assert(b.to_multiset().count(b[j]) > 0);
        assert(a.to_multiset().count(b[j]) > 0);
        assert(a.contains(b[j]));
        let i = choose|i: int| 0 <= i < a.len() && a[i] == b[j];
        assert(in_interval(a[i], x));
    }
}

/// Index of the first smallest value, or `None` for an empty vector.
pub fn min_index(v: &Vec<i64>) -> (r: Option<usize>)
    ensures
        r is None <==> v@.len() == 0,
        r matches Some(i) ==> i < v@.len() && (forall|j: int| 0 <= j < v@.len() ==> v@[i as int]
            <= v@[j]) && (forall|j: int| 0 <= j < i ==> v@[j] > v@[i as int]),
{
    if v.len() == 0 {
        return None;
    }
    let mut min_ind: usize = 0;
    let mut k: usize = 1;
    while k < v.len()
        invariant
            1 <= k <= v@.len(),
            min_ind < k,
            forall|j: int| 0 <= j < k ==> v@[min_ind as int] <= v@[j],
            forall|j: int| 0 <= j < min_ind ==> v@[j] > v@[min_ind as int],
        decreases v@.len() - k,
    {
        if v[k] < v[min_ind] {
            min_ind = k;
        }
        k = k + 1;
    }
    Some(min_ind)
}

/// Two ascending runs merged into one ascending run of the same intervals.
fn merge_sorted(a: Vec<Interval>, b: Vec<Interval>) -> (out: Vec<Interval>)
    requires
        sorted_by_lo(a@),
        sorted_by_lo(b@),
    ensures
        out@.to_multiset() =~= (a@ + b@).to_multiset(),
        sorted_by_lo(out@),
{
    broadcast use vstd::seq_lib::group_to_multiset_ensures;

    let mut out: Vec<Interval> = Vec::new();
    let mut i: usize = 0;
    let mut j: usize = 0;
    proof {
        vstd::seq_lib::lemma_multiset_commutative(a@, b@);
        assert(a@.subrange(0, a@.len() as int) =~= a@);
        assert(b@.subrange(0, b@.len() as int) =~= b@);
    }
    while i < a.len() || j < b.len()
        invariant
            sorted_by_lo(a@),
            sorted_by_lo(b@),
            i <= a@.len(),
            j <= b@.len(),
            sorted_by_lo(out@),
            out@.to_multiset().add(a@.subrange(i as int, a@.len() as int).to_multiset()).add(
                b@.subrange(j as int, b@.len() as int).to_multiset(),
            ) =~= (a@ + b@).to_multiset(),
            forall|k: int, t: int|
                0 <= k < out@.len() && i <= t < a@.len() ==> #[trigger] out@[k].lo <= #[trigger] a@[t].lo,
            forall|k: int, t: int|
                0 <= k < out@.len() && j <= t < b@.len() ==> #[trigger] out@[k].lo <= #[trigger] b@[t].lo,
        decreases a@.len() + b@.len() - i - j,
    {
        let ghost old_out = out@;
        let take_a = j >= b.len() || (i < a.len() && a[i].lo <= b[j].lo);
        let e = if take_a { a[i] } else { b[j] };
        out.push(e);
        proof {
            assert(out@ =~= old_out.push(e));
            old_out.to_multiset_ensures();
            if take_a {
                let ra = a@.subrange(i as int, a@.len() as int);
                assert(ra =~= seq![e] + a@.subrange(i + 1, a@.len() as int));
                vstd::seq_lib::lemma_multiset_commutative(seq![e], a@.subrange(i + 1, a@.len() as int));
                seq![e].to_multiset_ensures();
                assert(seq![e] =~= Seq::<Interval>::empty().push(e));
                Seq::<Interval>::empty().to_multiset_ensures();
            } else {
                let rb = b@.subrange(j as int, b@.len() as int);
                assert(rb =~= seq![e] + b@.subrange(j + 1, b@.len() as int));
                vstd::seq_lib::lemma_multiset_commutative(seq![e], b@.subrange(j + 1, b@.len() as int));
                seq![e].to_multiset_ensures();
                assert(seq![e] =~= Seq::<Interval>::empty().push(e));
                Seq::<Interval>::empty().to_multiset_ensures();
            }
        }
        if take_a {
            i = i + 1;
        } else {
            j = j + 1;
        }
        proof {
            assert(out@.to_multiset().add(a@.subrange(i as int, a@.len() as int).to_multiset()).add(
                b@.subrange(j as int, b@.len() as int).to_multiset(),
            ) =~= (a@ + b@).to_multiset());
        }
    }
    proof {
        assert(a@.subrange(i as int, a@.len() as int) =~= Seq::<Interval>::empty());
        assert(b@.subrange(j as int, b@.len() as int) =~= Seq::<Interval>::empty());
        Seq::<Interval>::empty().to_multiset_ensures();
        vstd::multiset::lemma_multiset_empty_len(Seq::<Interval>::empty().to_multiset());
    }
    out
}

/// The same intervals, ascending by `lo` (merge sort).
fn sort_by_lo(v: Vec<Interval>) -> (out: Vec<Interval>)
    ensures
        out@.to_multiset() =~= v@.to_multiset(),
        sorted_by_lo(out@),
    decreases v@.len(),
{
    if v.len() <= 1 {
        return v;
    }
    let mut left = v;
    let ghost all = left@;
    let mid = left.len() / 2;
    let right = left.split_off(mid);
    assert(all =~= left@ + right@);
    let left = sort_by_lo(left);
    let right = sort_by_lo(right);
    let out = merge_sorted(left, right);
    proof {
        vstd::seq_lib::lemma_multiset_commutative(left@, right@);
        vstd::seq_lib::lemma_multiset_commutative(all.subrange(0, mid as int), all.subrange(mid as int, all.len() as int));
    }
    out
}

/// Merges intervals into their coverage set: overlapping or adjacent intervals are
/// fused, and the result is ascending with a gap between any two intervals.
pub fn merge(intervals: &Vec<Interval>) -> (out: Vec<Interval>)
    requires
        intervals_ok(intervals@),
    ensures
        is_merge_of(out@, intervals@),
{
    let mut sorted: Vec<Interval> = Vec::new();
    let mut k: usize = 0;
    while k < intervals.len()
        invariant
            k <= intervals@.len(),
            sorted@ == intervals@.subrange(0, k as int),
        decreases intervals@.len() - k,
    {
        sorted.push(intervals[k]);
        k = k + 1;
    }
    assert(sorted@ =~= intervals@);
    let sorted = sort_by_lo(sorted);
    proof {
        lemma_same_elements_same_coverage(sorted@, intervals@);
        broadcast use vstd::seq_lib::group_to_multiset_ensures;

        assert forall|i: int| 0 <= i < sorted@.len() implies interval_ok(#[trigger] sorted@[i]) by {
            assert(sorted@.contains(sorted@[i]));
            assert(sorted@.to_multiset().count(sorted@[i]) > 0);
            assert(intervals@.contains(sorted@[i]));
            let j = choose|j: int| 0 <= j < intervals@.len() && intervals@[j] == sorted@[i];
            assert(interval_ok(intervals@[j]));
        }
    }
    let mut out: Vec<Interval> = Vec::new();
    if sorted.len() == 0 {
        return out;
    }
    let mut cur_lo = sorted[0].lo;
    let mut cur_hi = sorted[0].hi;
    assert forall|x: int| covered(sorted@.subrange(0, 1), x) == (cur_lo <= x <= cur_hi) by {
        assert(sorted@.subrange(0, 1)[0] == sorted@[0]);
    }
    let mut k: usize = 1;
    while k < sorted.len()
        invariant
            1 <= k <= sorted@.len(),
            intervals_ok(sorted@),
            sorted_by_lo(sorted@),
            normalized(out@),
            cur_lo <= cur_hi < i64::MAX,
            forall|i: int| 0 <= i < out@.len() ==> out@[i].hi + 1 < cur_lo,
            forall|i: int| k <= i < sorted@.len() ==> cur_lo <= #[trigger] sorted@[i].lo,
            forall|x: int|
                (covered(out@, x) || (cur_lo <= x <= cur_hi)) == #[trigger] covered(
                    sorted@.subrange(0, k as int),
                    x,
                ),
        decreases sorted@.len() - k,
    {
        let next = sorted[k];
        let ghost prev = sorted@.subrange(0, k as int);
        let ghost ext = sorted@.subrange(0, k + 1);
        assert(ext =~= prev.push(next));
        assert forall|x: int| covered(ext, x) == (covered(prev, x) || in_interval(next, x)) by {
            if covered(ext, x) {
                let i = choose|i: int| 0 <= i < ext.len() && in_interval(ext[i], x);
                if i < k {
                    assert(prev[i] == ext[i]);
                }
            }
            if covered(prev, x) {
                let i = choose|i: int| 0 <= i < prev.len() && in_interval(prev[i], x);
                assert(ext[i] == prev[i]);
            }
            if in_interval(next, x) {
                assert(ext[k as int] == next);
            }
        }
        if next.lo <= cur_hi + 1 {
            let ghost old_hi = cur_hi;
            if next.hi > cur_hi {
                cur_hi = next.hi;
            }
            assert forall|x: int| (covered(out@, x) || (cur_lo <= x <= cur_hi)) == covered(ext, x) by {
                assert(cur_lo <= next.lo);
                assert(covered(ext, x) == (covered(prev, x) || in_interval(next, x)));
                assert((covered(out@, x) || (cur_lo <= x <= old_hi)) == covered(prev, x));
                assert((cur_lo <= x <= cur_hi) == ((cur_lo <= x <= old_hi) || in_interval(next, x)));
            }
        } else {
            let ghost old_out = out@;
            let ghost old_lo = cur_lo;
            let ghost old_hi = cur_hi;
            out.push(Interval { lo: cur_lo, hi: cur_hi });
            assert forall|x: int| covered(out@, x) == (covered(old_out, x) || cur_lo <= x <= cur_hi) by {
                if covered(out@, x) {
                    let i = choose|i: int| 0 <= i < out@.len() && in_interval(out@[i], x);
                    if i < old_out.len() {
                        assert(old_out[i] == out@[i]);
                    }
                }
                if covered(old_out, x) {
                    let i = choose|i: int| 0 <= i < old_out.len() && in_interval(old_out[i], x);
                    assert(out@[i] == old_out[i]);
                }
                if cur_lo <= x <= cur_hi {
                    assert(in_interval(out@[old_out.len() as int], x));
                }
            }
            cur_lo = next.lo;
            cur_hi = next.hi;
            assert forall|x: int| (covered(out@, x) || (cur_lo <= x <= cur_hi)) == covered(ext, x) by {
                assert((cur_lo <= x <= cur_hi) == in_interval(next, x));
                assert(covered(ext, x) == (covered(prev, x) || in_interval(next, x)));
                assert(covered(out@, x) == (covered(old_out, x) || old_lo <= x <= old_hi));
                assert((covered(old_out, x) || (old_lo <= x <= old_hi)) == covered(prev, x));
            }
        }
        k = k + 1;
    }
    let ghost old_out = out@;
    out.push(Interval { lo: cur_lo, hi: cur_hi });
    assert(sorted@.subrange(0, sorted@.len() as int) =~= sorted@);
    assert forall|x: int| covered(out@, x) == (covered(old_out, x) || cur_lo <= x <= cur_hi) by {
        if covered(out@, x) {
            let i = choose|i: int| 0 <= i < out@.len() && in_interval(out@[i], x);
            if i < old_out.len() {
                assert(old_out[i] == out@[i]);
            }
        }
        if covered(old_out, x) {
            let i = choose|i: int| 0 <= i < old_out.len() && in_interval(old_out[i], x);
            assert(out@[i] == old_out[i]);
        }
        if cur_lo <= x <= cur_hi {
            assert(in_interval(out@[old_out.len() as int], x));
        }
    }
    assert(normalized(out@)) by {
        assert forall|i: int| 0 <= i < out@.len() implies interval_ok(#[trigger] out@[i]) by {
            if i < old_out.len() {
                assert(out@[i] == old_out[i]);
            }
        }
        assert forall|i: int, j: int| 0 <= i < j < out@.len() implies #[trigger] out@[i].hi + 1
            < #[trigger] out@[j].lo by {
            assert(out@[i] == old_out[i]);
            if j < old_out.len() {
                assert(out@[j] == old_out[j]);
            }
        }
    }
    assert forall|x: int| covered(out@, x) == covered(intervals@, x) by {
        assert(covered(out@, x) == (covered(old_out, x) || cur_lo <= x <= cur_hi));
        assert((covered(old_out, x) || cur_lo <= x <= cur_hi) == covered(
            sorted@.subrange(0, sorted@.len() as int),
            x,
        ));
        assert(covered(sorted@, x) == covered(intervals@, x));
    }
    out
}

/// Number of integer points of `iv`.
pub open spec fn interval_len(iv: Interval) -> int {
    iv.hi - iv.lo + 1
}

/// Sum of the lengths of the intervals of `s`.
pub open spec fn total_len(s: Seq<Interval>) -> int
    decreases s.len(),
{
    if s.len() == 0 {
        0
    } else {
        total_len(s.drop_last()) + interval_len(s.last())
    }
}

/// The points that `s` covers.
pub open spec fn cover_set(s: Seq<Interval>) -> Set<int> {
    Set::new(|x: int| covered(s, x))
}

pub open spec fn interval_set(iv: Interval) -> Set<int> {
    vstd::set_lib::set_int_range(iv.lo as int, iv.hi + 1)
}

proof fn lemma_cover_set_step(s: Seq<Interval>)
    requires
        s.len() > 0,
    ensures
        cover_set(s) =~= cover_set(s.drop_last()) + interval_set(s.last()),
{
    let d = s.drop_last();
    assert forall|x: int| cover_set(s).contains(x) == (cover_set(d) + interval_set(s.last())).contains(x) by {
        if covered(s, x) {
            let i = choose|i: int| 0 <= i < s.len() && in_interval(s[i], x);
            if i < d.len() {
                assert(d[i] == s[i]);
            }
        }
        if covered(d, x) {
            let i = choose|i: int| 0 <= i < d.len() && in_interval(d[i], x);
            assert(s[i] == d[i]);
        }
        if in_interval(s.last(), x) {
            assert(in_interval(s[s.len() - 1], x));
        }
    }
}

/// The points covered by well-formed intervals are finitely many, and no more than the
/// sum of their lengths.
pub proof fn lemma_cover_set_at_most_total(s: Seq<Interval>)
    requires
        intervals_ok(s),
    ensures
        cover_set(s).finite(),
        cover_set(s).len() <= total_len(s),
    decreases s.len(),
{
    if s.len() == 0 {
        assert(cover_set(s) =~= Set::empty());
    } else {
        let d = s.drop_last();
        assert(intervals_ok(d)) by {
            assert forall|i: int| 0 <= i < d.len() implies interval_ok(#[trigger] d[i]) by {
                assert(d[i] == s[i]);
            }
        }
        lemma_cover_set_at_most_total(d);
        lemma_cover_set_step(s);
        assert(interval_ok(s[s.len() - 1]));
        vstd::set_lib::lemma_int_range(s.last().lo as int, s.last().hi + 1);
        vstd::set_lib::lemma_len_union(cover_set(d), interval_set(s.last()));
    }
}

/// A coverage set covers exactly as many points as the sum of its lengths.
pub proof fn lemma_cover_set_normalized(s: Seq<Interval>)
    requires
        normalized(s),
    ensures
        cover_set(s).finite(),
        cover_set(s).len() == total_len(s),
    decreases s.len(),
{
    if s.len() == 0 {
        assert(cover_set(s) =~= Set::empty());
    } else {
        let d = s.drop_last();
        assert(normalized(d)) by {
            assert forall|i: int| 0 <= i < d.len() implies interval_ok(#[trigger] d[i]) by {
                assert(d[i] == s[i]);
            }
            assert forall|i: int, j: int| 0 <= i < j < d.len() implies #[trigger] d[i].hi + 1
                < #[trigger] d[j].lo by {
                assert(d[i] == s[i] && d[j] == s[j]);
            }
        }
        lemma_cover_set_normalized(d);
        lemma_cover_set_step(s);
        assert(interval_ok(s[s.len() - 1]));
        vstd::set_lib::lemma_int_range(s.last().lo as int, s.last().hi + 1);
        assert(cover_set(d).disjoint(interval_set(s.last()))) by {
            assert forall|x: int| cover_set(d).contains(x) implies !interval_set(s.last()).contains(
                x,
            ) by {
                let i = choose|i: int| 0 <= i < d.len() && in_interval(d[i], x);
                assert(d[i] == s[i]);
                assert(s[i].hi + 1 < s[s.len() - 1].lo);
            }
        }
        vstd::set_lib::lemma_set_disjoint_lens(cover_set(d), interval_set(s.last()));
    }
}

/// Every covered point of a coverage set lies at or below the end of its last interval,
/// and the points between the last two intervals are not covered.
proof fn lemma_normalized_last(s: Seq<Interval>)
    requires
        normalized(s),
        s.len() > 0,
    ensures
        forall|x: int| covered(s, x) ==> x <= s.last().hi,
        forall|x: int|
            covered(s, x) == (covered(s.drop_last(), x) || in_interval(s.last(), x)),
        forall|x: int| covered(s.drop_last(), x) ==> x < s.last().lo - 1,
        covered(s, s.last().hi as int),
        !covered(s, s.last().lo - 1),
{
    let d = s.drop_last();
    let n = s.len() - 1;
    assert(interval_ok(s[n]));
    assert forall|x: int| covered(s, x) implies x <= s.last().hi by {
        let i = choose|i: int| 0 <= i < s.len() && in_interval(s[i], x);
        if i < n {
            assert(s[i].hi + 1 < s[n].lo);
        }
    }
    assert forall|x: int| covered(d, x) implies x < s.last().lo - 1 by {
        let i = choose|i: int| 0 <= i < d.len() && in_interval(d[i], x);
        assert(d[i] == s[i]);
        assert(s[i].hi + 1 < s[n].lo);
    }
    lemma_cover_set_step(s);
    assert forall|x: int|
        covered(s, x) == (covered(d, x) || in_interval(s.last(), x)) by {
        assert(cover_set(s).contains(x) == (cover_set(d) + interval_set(s.last())).contains(x));
    }
    assert(cover_set(s).contains(s.last().hi as int));
    assert(!cover_set(s).contains(s.last().lo - 1));
}

/// Two coverage sets that cover the same points are the same sequence.
pub proof fn lemma_normalized_unique(a: Seq<Interval>, b: Seq<Interval>)
    requires
        normalized(a),
        normalized(b),
        forall|x: int| covered(a, x) == covered(b, x),
    ensures
        a == b,
    decreases a.len(),
{
    if a.len() == 0 || b.len() == 0 {
        if a.len() > 0 {
            assert(in_interval(a[0], a[0].lo as int));
            assert(covered(a, a[0].lo as int));
        }
        if b.len() > 0 {
            assert(in_interval(b[0], b[0].lo as int));
            assert(covered(b, b[0].lo as int));
        }
        assert(a =~= b);
    } else {
        lemma_normalized_last(a);
        lemma_normalized_last(b);
        let la = a.last();
        let lb = b.last();
        assert(la.hi == lb.hi);
        if la.lo < lb.lo {
            assert(covered(a, lb.lo - 1));
        }
        if lb.lo < la.lo {
            assert(covered(b, la.lo - 1));
        }
        assert(la == lb);
        let da = a.drop_last();
        let db = b.drop_last();
        assert(normalized(da)) by {
            assert forall|i: int| 0 <= i < da.len() implies interval_ok(#[trigger] da[i]) by {
                assert(da[i] == a[i]);
            }
            assert forall|i: int, j: int| 0 <= i < j < da.len() implies #[trigger] da[i].hi + 1
                < #[trigger] da[j].lo by {
                assert(da[i] == a[i] && da[j] == a[j]);
            }
        }
        assert(normalized(db)) by {
            assert forall|i: int| 0 <= i < db.len() implies interval_ok(#[trigger] db[i]) by {
                assert(db[i] == b[i]);
            }
            assert forall|i: int, j: int| 0 <= i < j < db.len() implies #[trigger] db[i].hi + 1
                < #[trigger] db[j].lo by {
                assert(db[i] == b[i] && db[j] == b[j]);
            }
        }
        assert forall|x: int| covered(da, x) == covered(db, x) by {
            assert(covered(a, x) == (covered(da, x) || in_interval(la, x)));
            assert(covered(b, x) == (covered(db, x) || in_interval(lb, x)));
        }
        lemma_normalized_unique(da, db);
        assert(a =~= da.push(la));
        assert(b =~= db.push(lb));
    }
}

/// Merging a coverage set again gives the same coverage set.
pub proof fn lemma_merge_idempotent(input: Seq<Interval>, once: Seq<Interval>, twice: Seq<Interval>)
    requires
        is_merge_of(once, input),
        is_merge_of(twice, once),
    ensures
        twice == once,
{
    lemma_normalized_unique(twice, once);
}

/// Merging any rearrangement of the same intervals gives the same coverage set.
pub proof fn lemma_merge_order_independent(
    a: Seq<Interval>,
    b: Seq<Interval>,
    merged_a: Seq<Interval>,
    merged_b: Seq<Interval>,
)
    requires
        a.to_multiset() =~= b.to_multiset(),
        is_merge_of(merged_a, a),
        is_merge_of(merged_b, b),
    ensures
        merged_a == merged_b,
{
    lemma_same_elements_same_coverage(a, b);
    lemma_normalized_unique(merged_a, merged_b);
}

/// Merging neither loses nor invents points: the coverage set is at least as long as
/// any one input interval, and no longer than all of them together.
pub proof fn lemma_merge_conserves_coverage(input: Seq<Interval>, merged: Seq<Interval>)
    requires
        intervals_ok(input),
        is_merge_of(merged, input),
    ensures
        total_len(merged) <= total_len(input),
        forall|j: int| 0 <= j < input.len() ==> interval_len(#[trigger] input[j]) <= total_len(merged),
{
    lemma_cover_set_normalized(merged);
    lemma_cover_set_at_most_total(input);
    assert(cover_set(merged) =~= cover_set(input));
    assert forall|j: int| 0 <= j < input.len() implies interval_len(#[trigger] input[j])
        <= total_len(merged) by {
        assert(interval_ok(input[j]));
        vstd::set_lib::lemma_int_range(input[j].lo as int, input[j].hi + 1);
        assert forall|x: int| interval_set(input[j]).contains(x) implies cover_set(input).contains(x) by {
            assert(in_interval(input[j], x));
        }
        vstd::set_lib::lemma_len_subset(interval_set(input[j]), cover_set(input));
    }
}

/// Whether some sensor covers the point `(x, y)`.
pub open spec fn row_covered(sensors: Seq<Sensor>, x: int, y: int) -> bool {
    exists|i: int| 0 <= i < sensors.len() && sensor_covers(#[trigger] sensors[i], x, y)
}

/// Whether a sensor or a detected object stands at `(x, y)`.
pub open spec fn occupied(sensors: Seq<Sensor>, x: int, y: int) -> bool {
    exists|i: int| 0 <= i < sensors.len() && occupies(#[trigger] sensors[i], x, y)
}

/// Whether the sensor or its detected object stands at `(x, y)`.
pub open spec fn occupies(s: Sensor, x: int, y: int) -> bool {
    (s.self_pos.x == x && s.self_pos.y == y) || (s.beacon.x == x && s.beacon.y == y)
}

/// The points of `row` that some sensor covers and where nothing known stands: no
/// undetected object can hide there.
pub open spec fn uncertain_positions(sensors: Seq<Sensor>, row: int) -> Set<int> {
    Set::new(|x: int| row_covered(sensors, x, row) && !occupied(sensors, x, row))
}

/// The intervals that the sensors cover on `row`, one per sensor that reaches it.
pub fn row_intervals(sensors: &Vec<Sensor>, row: i64) -> (r: Vec<Interval>)
    requires
        sensors_ok(sensors@),
        coord_ok(row),
    ensures
        intervals_ok(r@),
        forall|i: int|
            0 <= i < r@.len() ==> -5 * COORD_MAX <= #[trigger] r@[i].lo && r@[i].hi <= 5
                * COORD_MAX,
        forall|x: int| covered(r@, x) == row_covered(sensors@, x, row as int),
{
    let mut r: Vec<Interval> = Vec::new();
    let mut k: usize = 0;
    while k < sensors.len()
        invariant
            k <= sensors@.len(),
            sensors_ok(sensors@),
            coord_ok(row),
            intervals_ok(r@),
            forall|i: int|
                0 <= i < r@.len() ==> -5 * COORD_MAX <= #[trigger] r@[i].lo && r@[i].hi <= 5
                    * COORD_MAX,
            forall|x: int|
                covered(r@, x) == row_covered(sensors@.subrange(0, k as int), x, row as int),
        decreases sensors@.len() - k,
    {
        let ghost prev = sensors@.subrange(0, k as int);
        let ghost ext = sensors@.subrange(0, k + 1);
        let ghost old_r = r@;
        assert(sensor_ok(sensors@[k as int]));
        let section = interval_at_row(&sensors[k], row);
        if let Some(iv) = section {
            r.push(iv);
        }
        assert forall|x: int| covered(r@, x) == row_covered(ext, x, row as int) by {
            if row_covered(ext, x, row as int) {
                let i = choose|i: int| 0 <= i < ext.len() && sensor_covers(ext[i], x, row as int);
                if i < k {
                    assert(prev[i] == ext[i]);
                    assert(row_covered(prev, x, row as int));
                    assert(covered(old_r, x));
                    let j = choose|j: int| 0 <= j < old_r.len() && in_interval(old_r[j], x);
                    assert(r@[j] == old_r[j]);
                } else {
                    assert(ext[i] == sensors@[k as int]);
                    assert(r@[r@.len() - 1] == section.unwrap());
                }
            }
            if covered(r@, x) {
                let j = choose|j: int| 0 <= j < r@.len() && in_interval(r@[j], x);
                if j < old_r.len() {
                    assert(r@[j] == old_r[j]);
                    assert(covered(old_r, x));
                    let i = choose|i: int| 0 <= i < prev.len() && sensor_covers(prev[i], x, row as int);
                    assert(ext[i] == prev[i]);
                } else {
                    assert(sensor_covers(sensors@[k as int], x, row as int));
                    assert(ext[k as int] == sensors@[k as int]);
                }
            }
        }
        k = k + 1;
    }
    assert(sensors@.subrange(0, sensors@.len() as int) =~= sensors@);
    r
}

/// Whether `x` lies in one of the intervals.
fn contains_point(merged: &Vec<Interval>, x: i64) -> (r: bool)
    ensures
        r == covered(merged@, x as int),
{
    let mut k: usize = 0;
    while k < merged.len()
        invariant
            k <= merged@.len(),
            forall|i: int| 0 <= i < k ==> !in_interval(#[trigger] merged@[i], x as int),
        decreases merged@.len() - k,
    {
        if merged[k].lo <= x && x <= merged[k].hi {
            assert(in_interval(merged@[k as int], x as int));
            return true;
        }
        k = k + 1;
    }
    false
}

/// Whether `x` is one of the values of `v`.
pub open spec fn holds_value(v: Seq<i64>, x: int) -> bool {
    exists|i: int| 0 <= i < v.len() && v[i] == x
}

/// Appends `x` unless it is already there.
fn push_unique(r: &mut Vec<i64>, x: i64)
    requires
        old(r)@.no_duplicates(),
    ensures
        final(r)@.no_duplicates(),
        forall|y: int| holds_value(final(r)@, y) == (holds_value(old(r)@, y) || y == x),
{
    let mut t: usize = 0;
    while t < r.len()
        invariant
            t <= r@.len(),
            r@ == old(r)@,
            r@.no_duplicates(),
            forall|i: int| 0 <= i < t ==> r@[i] != x,
        decreases r@.len() - t,
    {
        if r[t] == x {
            assert(holds_value(r@, x as int));
            return;
        }
        t = t + 1;
    }
    let ghost before = r@;
    r.push(x);
    assert forall|i: int, j: int| 0 <= i < r@.len() && 0 <= j < r@.len() && i != j implies r@[i]
        != r@[j] by {
        if i < before.len() && j < before.len() {
            assert(before[i] != before[j]);
        }
    }
    assert forall|y: int| holds_value(r@, y) == (holds_value(before, y) || y == x) by {
        if holds_value(r@, y) {
            let i = choose|i: int| 0 <= i < r@.len() && r@[i] == y;
            if i < before.len() {
                assert(before[i] == y);
            }
        }
        if holds_value(before, y) {
            let i = choose|i: int| 0 <= i < before.len() && before[i] == y;
            assert(r@[i] == y);
        }
        if y == x {
            assert(r@[before.len() as int] == y);
        }
    }
}

/// The distinct points of `row` inside the coverage set where a sensor or a detected
/// object stands.
fn occupied_in_row(sensors: &Vec<Sensor>, row: i64, merged: &Vec<Interval>) -> (r: Vec<i64>)
    ensures
        r@.no_duplicates(),
        forall|x: int|
            holds_value(r@, x) == (occupied(sensors@, x, row as int) && covered(merged@, x)),
{
    let mut r: Vec<i64> = Vec::new();
    let mut k: usize = 0;
    while k < sensors.len()
        invariant
            k <= sensors@.len(),
            r@.no_duplicates(),
            forall|x: int|
                holds_value(r@, x) == (occupied(sensors@.subrange(0, k as int), x, row as int)
                    && covered(merged@, x)),
        decreases sensors@.len() - k,
    {
        let ghost prev = sensors@.subrange(0, k as int);
        let ghost ext = sensors@.subrange(0, k + 1);
        let ghost old_r = r@;
        let s = sensors[k];
        let a = s.self_pos.y == row && contains_point(merged, s.self_pos.x);
        if a {
            push_unique(&mut r, s.self_pos.x);
        }
        let ghost mid = r@;
        let b = s.beacon.y == row && contains_point(merged, s.beacon.x);
        if b {
            push_unique(&mut r, s.beacon.x);
        }
        assert forall|x: int|
            holds_value(r@, x) == (occupied(ext, x, row as int) && covered(merged@, x)) by {
            assert(ext[k as int] == s);
            if occupied(ext, x, row as int) {
                let i = choose|i: int| 0 <= i < ext.len() && occupies(ext[i], x, row as int);
                if i < k {
                    assert(prev[i] == ext[i]);
                }
            }
            if occupied(prev, x, row as int) {
                let i = choose|i: int| 0 <= i < prev.len() && occupies(prev[i], x, row as int);
                assert(ext[i] == prev[i]);
            }
            assert(occupied(ext, x, row as int) == (occupied(prev, x, row as int) || occupies(
                s,
                x,
                row as int,
            )));
        }
        k = k + 1;
    }
    assert(sensors@.subrange(0, sensors@.len() as int) =~= sensors@);
    r
}

/// How many points of `target_row` are covered by some sensor without being the place
/// of a known sensor or detected object.
pub fn count_uncertain_positions(sensors: &Vec<Sensor>, target_row: i64) -> (r: u64)
    requires
        sensors_ok(sensors@),
        coord_ok(target_row),
    ensures
        uncertain_positions(sensors@, target_row as int).finite(),
        r == uncertain_positions(sensors@, target_row as int).len(),
{
    let intervals = row_intervals(sensors, target_row);
    let merged = merge(&intervals);
    let ghost m = merged@;
    let ghost bound: int = 10 * COORD_MAX + 1;
    proof {
        lemma_cover_set_normalized(m);
        assert(cover_set(m) =~= cover_set(intervals@));
        assert forall|x: int| cover_set(m).contains(x) implies vstd::set_lib::set_int_range(
            -5 * COORD_MAX,
            5 * COORD_MAX + 1,
        ).contains(x) by {
            assert(covered(intervals@, x));
            let i = choose|i: int| 0 <= i < intervals@.len() && in_interval(intervals@[i], x);
            assert(-5 * COORD_MAX <= intervals@[i].lo && intervals@[i].hi <= 5 * COORD_MAX);
        }
        assert forall|i: int| 0 <= i < m.len() implies #[trigger] interval_len(m[i]) <= bound by {
            assert(interval_ok(m[i]));
            assert(in_interval(m[i], m[i].lo as int));
            assert(in_interval(m[i], m[i].hi as int));
            assert(covered(intervals@, m[i].lo as int));
            assert(covered(intervals@, m[i].hi as int));
            let a = choose|a: int| 0 <= a < intervals@.len() && in_interval(intervals@[a], m[i].lo as int);
            let b = choose|b: int| 0 <= b < intervals@.len() && in_interval(intervals@[b], m[i].hi as int);
            assert(-5 * COORD_MAX <= intervals@[a].lo);
            assert(intervals@[b].hi <= 5 * COORD_MAX);
        }
        vstd::set_lib::lemma_int_range(-5 * COORD_MAX, 5 * COORD_MAX + 1);
        vstd::set_lib::lemma_len_subset(
            cover_set(m),
            vstd::set_lib::set_int_range(-5 * COORD_MAX, 5 * COORD_MAX + 1),
        );
    }
    let mut total: i128 = 0;
    let mut k: usize = 0;
    while k < merged.len()
        invariant
            k <= m.len(),
            m == merged@,
            normalized(m),
            total == total_len(m.subrange(0, k as int)),
            0 <= total <= k * bound,
            bound == 10 * COORD_MAX + 1,
            forall|i: int| 0 <= i < m.len() ==> #[trigger] interval_len(m[i]) <= bound,
        decreases m.len() - k,
    {
        assert(m.subrange(0, k + 1).drop_last() =~= m.subrange(0, k as int));
        assert(interval_ok(m[k as int]));
        assert(interval_len(m[k as int]) <= bound);
        assert(total + interval_len(m[k as int]) <= (k + 1) * bound) by (nonlinear_arith)
            requires
                total <= k * bound,
                interval_len(m[k as int]) <= bound,
        ;
        assert((k + 1) * bound <= 18446744073709551616 * 20000000000000000) by (nonlinear_arith)
            requires
                k < 18446744073709551616,
                bound <= 20000000000000000,
        ;
        total = total + (merged[k].hi as i128 - merged[k].lo as i128 + 1);
        k = k + 1;
    }
    let occ = occupied_in_row(sensors, target_row, &merged);
    let ghost cov = cover_set(m);
    let ghost occ_int = Seq::new(occ@.len(), |i: int| occ@[i] as int);
    let ghost occ_set = occ_int.to_set();
    proof {
        assert(m.subrange(0, m.len() as int) =~= m);
        assert(occ_int.no_duplicates()) by {
            assert forall|i: int, j: int|
                0 <= i < occ_int.len() && 0 <= j < occ_int.len() && i != j implies occ_int[i]
                != occ_int[j] by {
                assert(occ@[i] != occ@[j]);
            }
        }
        occ_int.unique_seq_to_set();
        assert(occ_set.subset_of(cov)) by {
            assert forall|x: int| occ_set.contains(x) implies cov.contains(x) by {
                let i = choose|i: int| 0 <= i < occ_int.len() && occ_int[i] == x;
                assert(occ@[i] == x);
            }
        }
        vstd::set_lib::lemma_len_subset(occ_set, cov);
        assert(uncertain_positions(sensors@, target_row as int) =~= cov.difference(occ_set)) by {
            assert forall|x: int| #[trigger] cov.difference(occ_set).contains(x) == uncertain_positions(
                sensors@,
                target_row as int,
            ).contains(x) by {
                if occ_set.contains(x) {
                    let i = choose|i: int| 0 <= i < occ_int.len() && occ_int[i] == x;
                    assert(occ@[i] == x);
                }
                if occupied(sensors@, x, target_row as int) && covered(m, x) {
                    assert(exists|i: int| 0 <= i < occ@.len() && occ@[i] == x);
                    let i = choose|i: int| 0 <= i < occ@.len() && occ@[i] == x;
                    assert(occ_int[i] == x);
                    assert(occ_int.contains(x));
                }
            }
        }
        vstd::set_lib::lemma_set_difference_len(cov, occ_set);
        assert(cov.intersect(occ_set) =~= occ_set);
    }
    (total - occ.len() as i128) as u64
}

/// What one row of the domain `[0, limit]` leaves uncovered.
#[derive(Clone, Copy, Debug, PartialEq, Eq)]
pub enum RowGap {
    /// Every point of the row is covered.
    Full,
    /// Exactly this one point is uncovered.
    Single(i64),
    /// Two or more points are uncovered.
    Several,
}

/// Why no single hidden point was found.
#[derive(Clone, Copy, Debug, PartialEq, Eq)]
pub enum GapError {
    /// Every point of the domain is covered.
    NoGap,
    /// The first row with an uncovered point has more than one.
    AmbiguousGap,
    /// There are no sensors, so nothing can be located.
    NoSensors,
}

/// `x` is a point of the domain `[0, limit]` that `s` does not cover.
pub open spec fn gap_in(s: Seq<Interval>, limit: int, x: int) -> bool {
    0 <= x <= limit && !covered(s, x)
}

/// The intervals that the sensors cover on `row`, clipped to `[0, limit]`.
pub fn clipped_row_intervals(sensors: &Vec<Sensor>, row: i64, limit: i64) -> (r: Vec<Interval>)
    requires
        sensors_ok(sensors@),
        coord_ok(row),
        0 <= limit <= COORD_MAX,
    ensures
        intervals_ok(r@),
        forall|i: int| 0 <= i < r@.len() ==> 0 <= #[trigger] r@[i].lo && r@[i].hi <= limit,
        forall|x: int|
            covered(r@, x) == (0 <= x <= limit && row_covered(sensors@, x, row as int)),
{
    let raw = row_intervals(sensors, row);
    let mut r: Vec<Interval> = Vec::new();
    let mut k: usize = 0;
    while k < raw.len()
        invariant
            k <= raw@.len(),
            0 <= limit <= COORD_MAX,
            intervals_ok(r@),
            forall|i: int| 0 <= i < r@.len() ==> 0 <= #[trigger] r@[i].lo && r@[i].hi <= limit,
            forall|x: int|
                covered(r@, x) == (0 <= x <= limit && covered(raw@.subrange(0, k as int), x)),
        decreases raw@.len() - k,
    {
        let ghost prev = raw@.subrange(0, k as int);
        let ghost ext = raw@.subrange(0, k + 1);
        let ghost old_r = r@;
        let clipped = clip_to_domain(raw[k], limit);
        if let Some(c) = clipped {
            r.push(c);
        }
        assert forall|x: int| covered(r@, x) == (0 <= x <= limit && covered(ext, x)) by {
            assert(ext[k as int] == raw@[k as int]);
            if covered(ext, x) {
                let i = choose|i: int| 0 <= i < ext.len() && in_interval(ext[i], x);
                if i < k {
                    assert(prev[i] == ext[i]);
                }
            }
            if covered(prev, x) {
                let i = choose|i: int| 0 <= i < prev.len() && in_interval(prev[i], x);
                assert(ext[i] == prev[i]);
            }
            if covered(r@, x) {
                let j = choose|j: int| 0 <= j < r@.len() && in_interval(r@[j], x);
                if j < old_r.len() {
                    assert(old_r[j] == r@[j]);
                }
            }
            if covered(old_r, x) {
                let j = choose|j: int| 0 <= j < old_r.len() && in_interval(old_r[j], x);
                assert(old_r[j] == r@[j]);
            }
            if 0 <= x <= limit && in_interval(raw@[k as int], x) {
                assert(in_interval(r@[r@.len() - 1], x));
            }
        }
        k = k + 1;
    }
    assert(raw@.subrange(0, raw@.len() as int) =~= raw@);
    r
}

/// Classifies the uncovered points of `[0, limit]` left by a coverage set that lies
/// inside that domain.
pub fn row_gap(merged: &Vec<Interval>, limit: i64) -> (r: RowGap)
    requires
        normalized(merged@),
        0 <= limit < i64::MAX,
        forall|i: int| 0 <= i < merged@.len() ==> 0 <= #[trigger] merged@[i].lo && merged@[i].hi
            <= limit,
    ensures
        (r is Full) == (forall|x: int| !gap_in(merged@, limit as int, x)),
        r matches RowGap::Single(x) ==> gap_in(merged@, limit as int, x as int) && (forall|z: int|
            #[trigger] gap_in(merged@, limit as int, z) ==> z == x),
        r is Several ==> exists|a: int, b: int|
            a != b && gap_in(merged@, limit as int, a) && gap_in(merged@, limit as int, b),
{
    let ghost m = merged@;
    let ghost lim = limit as int;
    let mut next: i64 = 0;
    let mut found: Option<i64> = None;
    let mut k: usize = 0;
    while k < merged.len()
        invariant
            m == merged@,
            lim == limit,
            normalized(m),
            0 <= limit < i64::MAX,
            forall|i: int| 0 <= i < m.len() ==> 0 <= #[trigger] m[i].lo && m[i].hi <= limit,
            k <= m.len(),
            0 <= next <= limit + 1,
            k == 0 ==> next == 0,
            k > 0 ==> next == m[k - 1].hi + 1,
            forall|i: int| 0 <= i < k ==> #[trigger] m[i].hi < next,
            forall|i: int| k <= i < m.len() ==> next <= #[trigger] m[i].lo,
            found matches Some(f) ==> 0 <= f < next,
            forall|x: int| 0 <= x < next ==> (gap_in(m, lim, x) == (found == Some(x as i64))),
        decreases m.len() - k,
    {
        let iv = merged[k];
        assert(interval_ok(m[k as int]));
        proof {
            if k + 1 < m.len() {
                assert(m[k as int].hi + 1 < m[k + 1].lo);
            }
        }
        if iv.lo > next {
            // the points next ..= iv.lo - 1 are uncovered
            assert forall|x: int| next <= x < iv.lo implies gap_in(m, lim, x) by {
                if covered(m, x) {
                    let i = choose|i: int| 0 <= i < m.len() && in_interval(m[i], x);
                    if i > k {
                        assert(m[k as int].hi + 1 < m[i].lo);
                    }
                }
            }
            if found.is_some() {
                proof {
                    let f = found.unwrap();
                    assert(gap_in(m, lim, f as int));
                    assert(gap_in(m, lim, next as int));
                }
                return RowGap::Several;
            }
            if iv.lo - 1 > next {
                assert(gap_in(m, lim, next as int));
                assert(gap_in(m, lim, next + 1));
                return RowGap::Several;
            }
            found = Some(next);
        }
        assert forall|x: int| iv.lo <= x <= iv.hi implies !gap_in(m, lim, x) by {
            assert(in_interval(m[k as int], x));
        }
        next = iv.hi + 1;
        k = k + 1;
        assert forall|i: int| k <= i < m.len() implies next <= #[trigger] m[i].lo by {
            assert(m[k - 1].hi + 1 < m[i].lo);
        }
        assert forall|i: int| 0 <= i < k implies #[trigger] m[i].hi < next by {
            if i < k - 1 {
                assert(m[i].hi + 1 < m[k - 1].lo);
            }
        }
    }
    // the points next ..= limit are uncovered
    assert forall|x: int| next <= x <= limit implies gap_in(m, lim, x) by {
        if covered(m, x) {
            let i = choose|i: int| 0 <= i < m.len() && in_interval(m[i], x);
        }
    }
    if next <= limit {
        if found.is_some() {
            proof {
                let f = found.unwrap();
                assert(gap_in(m, lim, f as int));
                assert(gap_in(m, lim, next as int));
            }
            return RowGap::Several;
        }
        if limit > next {
            assert(gap_in(m, lim, next as int));
            assert(gap_in(m, lim, next + 1));
            return RowGap::Several;
        }
        assert forall|z: int| #[trigger] gap_in(m, lim, z) implies z == next by {}
        assert(gap_in(m, lim, next as int));
        return RowGap::Single(next);
    }
    match found {
        Some(f) => {
            assert(gap_in(m, lim, f as int));
            RowGap::Single(f)
        },
        None => RowGap::Full,
    }
}

/// `(x, y)` is a point of the square `[0, limit] x [0, limit]` that no sensor covers.
pub open spec fn hidden(sensors: Seq<Sensor>, limit: int, x: int, y: int) -> bool {
    0 <= x <= limit && 0 <= y <= limit && !row_covered(sensors, x, y)
}

/// Searches the square `[0, limit] x [0, limit]` row by row for the one point that no
/// sensor covers. The first row with an uncovered point decides: one point there is the
/// answer, more than one is reported as ambiguous.
pub fn find_uncovered_point(sensors: &Vec<Sensor>, domain_limit: i64) -> (r: Result<
    Position,
    GapError,
>)
    requires
        sensors_ok(sensors@),
        0 <= domain_limit <= COORD_MAX,
    ensures
        (r == Err::<Position, GapError>(GapError::NoSensors)) == (sensors@.len() == 0),
        r matches Ok(p) ==> hidden(sensors@, domain_limit as int, p.x as int, p.y as int) && (
        forall|x: int, y: int| #[trigger]
            hidden(sensors@, domain_limit as int, x, y) ==> p.y <= y) && (forall|x: int|
            #[trigger] hidden(sensors@, domain_limit as int, x, p.y as int) ==> x == p.x),
        (r == Err::<Position, GapError>(GapError::NoGap)) == (sensors@.len() > 0 && forall|x: int, y: int|
            !#[trigger] hidden(sensors@, domain_limit as int, x, y)),
        r == Err::<Position, GapError>(GapError::AmbiguousGap) ==> exists|a: int, b: int, y: int|
            a != b && #[trigger] hidden(sensors@, domain_limit as int, a, y) && #[trigger] hidden(
                sensors@,
                domain_limit as int,
                b,
                y,
            ) && forall|x2: int, y2: int| #[trigger]
                hidden(sensors@, domain_limit as int, x2, y2) ==> y <= y2,
        forall|x: int, y: int|
            #![trigger hidden(sensors@, domain_limit as int, x, y)]
            sensors@.len() > 0 && hidden(sensors@, domain_limit as int, x, y) && (forall|x2: int, y2: int|
                #[trigger] hidden(sensors@, domain_limit as int, x2, y2) ==> x2 == x && y2 == y)
                ==> r == Ok::<Position, GapError>(Position { x: x as i64, y: y as i64 }),
{
    if sensors.len() == 0 {
        assert(hidden(sensors@, domain_limit as int, 0, 0));
        return Err(GapError::NoSensors);
    }
    let ghost lim = domain_limit as int;
    let mut y: i64 = 0;
    while y <= domain_limit
        invariant
            sensors@.len() > 0,
            sensors_ok(sensors@),
            0 <= domain_limit <= COORD_MAX,
            lim == domain_limit,
            0 <= y <= domain_limit + 1,
            forall|x: int, yy: int| #[trigger] hidden(sensors@, lim, x, yy) ==> y <= yy,
        decreases domain_limit + 1 - y,
    {
        let clipped = clipped_row_intervals(sensors, y, domain_limit);
        let merged = merge(&clipped);
        assert forall|i: int| 0 <= i < merged@.len() implies 0 <= #[trigger] merged@[i].lo
            && merged@[i].hi <= domain_limit by {
            assert(interval_ok(merged@[i]));
            assert(in_interval(merged@[i], merged@[i].lo as int));
            assert(in_interval(merged@[i], merged@[i].hi as int));
            assert(covered(clipped@, merged@[i].lo as int));
            assert(covered(clipped@, merged@[i].hi as int));
        }
        assert forall|x: int| gap_in(merged@, lim, x) == hidden(sensors@, lim, x, y as int) by {
            assert(covered(merged@, x) == covered(clipped@, x));
        }
        match row_gap(&merged, domain_limit) {
            RowGap::Full => {
                assert forall|x: int, yy: int| #[trigger] hidden(sensors@, lim, x, yy) implies y
                    + 1 <= yy by {
                    if yy == y {
                        assert(gap_in(merged@, lim, x));
                    }
                }
            },
            RowGap::Single(x) => {
                let p = Position { x, y };
                assert(gap_in(merged@, lim, x as int));
                assert forall|z: int| #[trigger] hidden(sensors@, lim, z, y as int) implies z == x by {
                    assert(gap_in(merged@, lim, z));
                }
                return Ok(p);
            },
            RowGap::Several => {
                proof {
                    let (a, b) = choose|a: int, b: int|
                        a != b && gap_in(merged@, lim, a) && gap_in(merged@, lim, b);
                    assert(hidden(sensors@, lim, a, y as int));
                    assert(hidden(sensors@, lim, b, y as int));
                }
                return Err(GapError::AmbiguousGap);
            },
        }
        y = y + 1;
    }
    Err(GapError::NoGap)
}

/// The externally reported number for a point: `x * 4_000_000 + y`.
pub fn tuning_frequency(point: Position) -> (r: i64)
    requires
        i64::MIN <= point.x * 4_000_000 + point.y <= i64::MAX,
    ensures
        r == point.x * 4_000_000 + point.y,
{
    let wide = point.x as i128 * 4_000_000 + point.y as i128;
    wide as i64
}

/// For every point of the square `[0, 4_000_000] x [0, 4_000_000]` the tuning frequency
/// fits in an `i64`.
pub proof fn lemma_tuning_frequency_fits(point: Position)
    requires
        0 <= point.x <= 4_000_000,
        0 <= point.y <= 4_000_000,
    ensures
        i64::MIN <= point.x * 4_000_000 + point.y <= i64::MAX,
{
    assert(point.x * 4_000_000 <= 16_000_000_000_000) by (nonlinear_arith)
        requires
            0 <= point.x <= 4_000_000,
    ;
}

/// `v` is the smallest x coordinate among the sensors and their detected objects.
pub open spec fn is_min_x(sensors: Seq<Sensor>, v: int) -> bool {
    &&& forall|i: int|
        0 <= i < sensors.len() ==> v <= (#[trigger] sensors[i]).self_pos.x && v <= sensors[i].beacon.x
    &&& exists|i: int|
        0 <= i < sensors.len() && (v == #[trigger] sensors[i].self_pos.x || v == sensors[i].beacon.x)
}

/// `v` is the smallest y coordinate among the sensors and their detected objects.
pub open spec fn is_min_y(sensors: Seq<Sensor>, v: int) -> bool {
    &&& forall|i: int|
        0 <= i < sensors.len() ==> v <= (#[trigger] sensors[i]).self_pos.y && v <= sensors[i].beacon.y
    &&& exists|i: int|
        0 <= i < sensors.len() && (v == #[trigger] sensors[i].self_pos.y || v == sensors[i].beacon.y)
}

/// `v` is the largest x coordinate among the sensors and their detected objects.
pub open spec fn is_max_x(sensors: Seq<Sensor>, v: int) -> bool {
    &&& forall|i: int|
        0 <= i < sensors.len() ==> v >= (#[trigger] sensors[i]).self_pos.x && v >= sensors[i].beacon.x
    &&& exists|i: int|
        0 <= i < sensors.len() && (v == #[trigger] sensors[i].self_pos.x || v == sensors[i].beacon.x)
}

/// `v` is the largest y coordinate among the sensors and their detected objects.
pub open spec fn is_max_y(sensors: Seq<Sensor>, v: int) -> bool {
    &&& forall|i: int|
        0 <= i < sensors.len() ==> v >= (#[trigger] sensors[i]).self_pos.y && v >= sensors[i].beacon.y
    &&& exists|i: int|
        0 <= i < sensors.len() && (v == #[trigger] sensors[i].self_pos.y || v == sensors[i].beacon.y)
}

/// The bounding box `(min x, min y, max x, max y)` of all sensors and detected objects,
/// or `None` when there are no sensors.
pub fn get_minmax_xy(sensors: &Vec<Sensor>) -> (r: Option<(i64, i64, i64, i64)>)
    ensures
        r is None <==> sensors@.len() == 0,
        r matches Some(b) ==> is_min_x(sensors@, b.0 as int) && is_min_y(sensors@, b.1 as int)
            && is_max_x(sensors@, b.2 as int) && is_max_y(sensors@, b.3 as int),
{
    if sensors.len() == 0 {
        return None;
    }
    let first = sensors[0];
    let mut min_x = first.self_pos.x;
    let mut min_y = first.self_pos.y;
    let mut max_x = first.self_pos.x;
    let mut max_y = first.self_pos.y;
    let ghost mut wa: int = 0;
    let ghost mut wb: int = 0;
    let ghost mut wc: int = 0;
    let ghost mut wd: int = 0;
    let mut k: usize = 0;
    while k < sensors.len()
        invariant
            k <= sensors@.len(),
            0 <= wa < sensors@.len() && 0 <= wb < sensors@.len() && 0 <= wc < sensors@.len() && 0
                <= wd < sensors@.len(),
            min_x == sensors@[wa].self_pos.x || min_x == sensors@[wa].beacon.x,
            min_y == sensors@[wb].self_pos.y || min_y == sensors@[wb].beacon.y,
            max_x == sensors@[wc].self_pos.x || max_x == sensors@[wc].beacon.x,
            max_y == sensors@[wd].self_pos.y || max_y == sensors@[wd].beacon.y,
            forall|i: int|
                0 <= i < k ==> min_x <= (#[trigger] sensors@[i]).self_pos.x && min_x
                    <= sensors@[i].beacon.x && min_y <= sensors@[i].self_pos.y && min_y
                    <= sensors@[i].beacon.y && max_x >= sensors@[i].self_pos.x && max_x
                    >= sensors@[i].beacon.x && max_y >= sensors@[i].self_pos.y && max_y
                    >= sensors@[i].beacon.y,
        decreases sensors@.len() - k,
    {
        let s = sensors[k];
        assert(sensors@[k as int] == s);
        if s.self_pos.x < min_x {
            min_x = s.self_pos.x;
            proof { wa = k as int; }
        }
        if s.beacon.x < min_x {
            min_x = s.beacon.x;
            proof { wa = k as int; }
        }
        if s.self_pos.y < min_y {
            min_y = s.self_pos.y;
            proof { wb = k as int; }
        }
        if s.beacon.y < min_y {
            min_y = s.beacon.y;
            proof { wb = k as int; }
        }
        if s.self_pos.x > max_x {
            max_x = s.self_pos.x;
            proof { wc = k as int; }
        }
        if s.beacon.x > max_x {
            max_x = s.beacon.x;
            proof { wc = k as int; }
        }
        if s.self_pos.y > max_y {
            max_y = s.self_pos.y;
            proof { wd = k as int; }
        }
        if s.beacon.y > max_y {
            max_y = s.beacon.y;
            proof { wd = k as int; }
        }
        k = k + 1;
    }
    assert(is_min_x(sensors@, min_x as int)) by {
        assert(min_x == sensors@[wa].self_pos.x || min_x == sensors@[wa].beacon.x);
    }
    assert(is_min_y(sensors@, min_y as int)) by {
        assert(min_y == sensors@[wb].self_pos.y || min_y == sensors@[wb].beacon.y);
    }
    assert(is_max_x(sensors@, max_x as int)) by {
        assert(max_x == sensors@[wc].self_pos.x || max_x == sensors@[wc].beacon.x);
    }
    assert(is_max_y(sensors@, max_y as int)) by {
        assert(max_y == sensors@[wd].self_pos.y || max_y == sensors@[wd].beacon.y);
    }
    Some((min_x, min_y, max_x, max_y))
}

proof fn lemma_same_sensors_pointwise(a: Seq<Sensor>, b: Seq<Sensor>)
    requires
        a.to_multiset() =~= b.to_multiset(),
    ensures
        forall|x: int, y: int| row_covered(a, x, y) == row_covered(b, x, y),
        forall|x: int, y: int| occupied(a, x, y) == occupied(b, x, y),
{
    a.to_multiset_ensures();
    b.to_multiset_ensures();
    assert forall|s: Sensor| a.contains(s) == b.contains(s) by {
        assert(a.contains(s) == (a.to_multiset().count(s) > 0));
        assert(b.contains(s) == (b.to_multiset().count(s) > 0));
    }
    assert forall|x: int, y: int| row_covered(a, x, y) implies row_covered(b, x, y) by {
        let i = choose|i: int| 0 <= i < a.len() && sensor_covers(a[i], x, y);
        assert(a.contains(a[i]));
        let j = choose|j: int| 0 <= j < b.len() && b[j] == a[i];
        assert(sensor_covers(b[j], x, y));
    }
    assert forall|x: int, y: int| row_covered(b, x, y) implies row_covered(a, x, y) by {
        let i = choose|i: int| 0 <= i < b.len() && sensor_covers(b[i], x, y);
        assert(b.contains(b[i]));
        let j = choose|j: int| 0 <= j < a.len() && a[j] == b[i];
        assert(sensor_covers(a[j], x, y));
    }
    assert forall|x: int, y: int| occupied(a, x, y) implies occupied(b, x, y) by {
        let i = choose|i: int| 0 <= i < a.len() && occupies(a[i], x, y);
        assert(a.contains(a[i]));
        let j = choose|j: int| 0 <= j < b.len() && b[j] == a[i];
        assert(occupies(b[j], x, y));
    }
    assert forall|x: int, y: int| occupied(b, x, y) implies occupied(a, x, y) by {
        let i = choose|i: int| 0 <= i < b.len() && occupies(b[i], x, y);
        assert(b.contains(b[i]));
        let j = choose|j: int| 0 <= j < a.len() && a[j] == b[i];
        assert(occupies(a[j], x, y));
    }
}

/// The order of the sensors does not matter: any rearrangement of the same sensors
/// leaves the same uncertain positions on every row (so the same count), and the same
/// uncovered points of the square (so `find_uncovered_point`, whose result those points
/// fix, answers the same).
pub proof fn lemma_sensor_order_independent(a: Seq<Sensor>, b: Seq<Sensor>, row: int, limit: int)
    requires
        a.to_multiset() =~= b.to_multiset(),
    ensures
        uncertain_positions(a, row) == uncertain_positions(b, row),
        forall|x: int, y: int| hidden(a, limit, x, y) == hidden(b, limit, x, y),
        a.len() == b.len(),
{
    lemma_same_sensors_pointwise(a, b);
    a.to_multiset_ensures();
    b.to_multiset_ensures();
    assert(uncertain_positions(a, row) =~= uncertain_positions(b, row));
}

/// Adding sensors whose coverage of a row already lies in the coverage of the others,
/// and whose known points there are already known, leaves that row's uncertain
/// positions (so its count) unchanged; adding the same sensors again is one such case.
pub proof fn lemma_count_absorbs_covered(a: Seq<Sensor>, b: Seq<Sensor>, row: int)
    requires
        forall|x: int| row_covered(b, x, row) ==> row_covered(a, x, row),
        forall|x: int| occupied(b, x, row) && row_covered(a, x, row) ==> occupied(a, x, row),
    ensures
        uncertain_positions(a + b, row) == uncertain_positions(a, row),
{
    let ab = a + b;
    assert forall|x: int| row_covered(ab, x, row) == (row_covered(a, x, row) || row_covered(b, x, row)) by {
        if row_covered(ab, x, row) {
            let i = choose|i: int| 0 <= i < ab.len() && sensor_covers(ab[i], x, row);
            if i < a.len() {
                assert(ab[i] == a[i]);
            } else {
                assert(ab[i] == b[i - a.len()]);
            }
        }
        if row_covered(a, x, row) {
            let i = choose|i: int| 0 <= i < a.len() && sensor_covers(a[i], x, row);
            assert(ab[i] == a[i]);
        }
        if row_covered(b, x, row) {
            let i = choose|i: int| 0 <= i < b.len() && sensor_covers(b[i], x, row);
            assert(ab[i + a.len()] == b[i]);
        }
    }
    assert forall|x: int| occupied(ab, x, row) == (occupied(a, x, row) || occupied(b, x, row)) by {
        if occupied(ab, x, row) {
            let i = choose|i: int| 0 <= i < ab.len() && occupies(ab[i], x, row);
            if i < a.len() {
                assert(ab[i] == a[i]);
            } else {
                assert(ab[i] == b[i - a.len()]);
            }
        }
        if occupied(a, x, row) {
            let i = choose|i: int| 0 <= i < a.len() && occupies(a[i], x, row);
            assert(ab[i] == a[i]);
        }
        if occupied(b, x, row) {
            let i = choose|i: int| 0 <= i < b.len() && occupies(b[i], x, row);
            assert(ab[i + a.len()] == b[i]);
        }
    }
    assert(uncertain_positions(ab, row) =~= uncertain_positions(a, row));
}

/// One sensor alone: on its own row the positions within `radius` on both sides are
/// uncertain, except the sensor's own and, on that row, its object's; one row past the
/// tip of its diamond (either way) nothing is.
pub proof fn lemma_single_sensor_count(s: Sensor)
    requires
        sensor_ok(s),
    ensures
        uncertain_positions(seq![s], s.self_pos.y as int).finite(),
        uncertain_positions(seq![s], s.self_pos.y as int).len() == 2 * radius(s) + 1 - (if radius(s) > 0
            && s.beacon.y == s.self_pos.y { 2int } else { 1int }),
        uncertain_positions(seq![s], s.self_pos.y + radius(s) + 1).len() == 0,
        uncertain_positions(seq![s], s.self_pos.y - radius(s) - 1).len() == 0,
{
    let ss = seq![s];
    let r = radius(s);
    let sx = s.self_pos.x as int;
    let sy = s.self_pos.y as int;
    let range = vstd::set_lib::set_int_range(sx - r, sx + r + 1);
    vstd::set_lib::lemma_int_range(sx - r, sx + r + 1);
    assert forall|x: int, y: int| row_covered(ss, x, y) == sensor_covers(s, x, y) by {
        if row_covered(ss, x, y) {
            let i = choose|i: int| 0 <= i < ss.len() && sensor_covers(ss[i], x, y);
        }
        if sensor_covers(s, x, y) {
            assert(sensor_covers(ss[0], x, y));
        }
    }
    assert forall|x: int, y: int| occupied(ss, x, y) == occupies(s, x, y) by {
        if occupied(ss, x, y) {
            let i = choose|i: int| 0 <= i < ss.len() && occupies(ss[i], x, y);
        }
        if occupies(s, x, y) {
            assert(occupies(ss[0], x, y));
        }
    }
    let u = uncertain_positions(ss, sy);
    let once = range.remove(sx);
    if r > 0 && s.beacon.y == s.self_pos.y {
        let bx = s.beacon.x as int;
        assert(bx != sx);
        assert(range.contains(bx));
        assert(u =~= once.remove(bx));
    } else {
        assert(u =~= once);
    }
    assert(uncertain_positions(ss, sy + r + 1) =~= Set::empty());
    assert(uncertain_positions(ss, sy - r - 1) =~= Set::empty());
}

/// The intervals the sensors cover on `row`, in sensor order, one per sensor that
/// reaches the row.
pub open spec fn row_sections(sensors: Seq<Sensor>, row: int) -> Seq<Interval>
    decreases sensors.len(),
{
    if sensors.len() == 0 {
        Seq::empty()
    } else {
        row_sections(sensors.drop_last(), row) + match row_section(sensors.last(), row) {
            Some(iv) => seq![iv],
            None => Seq::empty(),
        }
    }
}

proof fn lemma_row_section_exact(s: Sensor, row: int)
    requires
        sensor_ok(s),
        -COORD_MAX <= row <= COORD_MAX,
    ensures
        row_section(s, row) matches Some(iv) ==> interval_ok(iv),
        forall|x: int|
            sensor_covers(s, x, row) <==> (row_section(s, row) matches Some(iv) && in_interval(iv, x)),
{
}

proof fn lemma_row_sections(sensors: Seq<Sensor>, row: int)
    requires
        sensors_ok(sensors),
        -COORD_MAX <= row <= COORD_MAX,
    ensures
        intervals_ok(row_sections(sensors, row)),
        forall|x: int| covered(row_sections(sensors, row), x) == row_covered(sensors, x, row),
    decreases sensors.len(),
{
    if sensors.len() > 0 {
        let d = sensors.drop_last();
        let last = sensors.last();
        assert(sensors_ok(d)) by {
            assert forall|i: int| 0 <= i < d.len() implies sensor_ok(#[trigger] d[i]) by {
                assert(d[i] == sensors[i]);
            }
        }
        assert(sensor_ok(sensors[sensors.len() - 1]));
        lemma_row_sections(d, row);
        lemma_row_section_exact(last, row);
        let pre = row_sections(d, row);
        let tail: Seq<Interval> = match row_section(last, row) {
            Some(iv) => seq![iv],
            None => Seq::empty(),
        };
        let all = pre + tail;
        assert(row_sections(sensors, row) == all);
        assert forall|i: int| 0 <= i < all.len() implies interval_ok(#[trigger] all[i]) by {
            if i < pre.len() {
                assert(all[i] == pre[i]);
            } else {
                assert(all[i] == tail[i - pre.len()]);
            }
        }
        assert forall|x: int| covered(all, x) == row_covered(sensors, x, row) by {
            if covered(all, x) {
                let i = choose|i: int| 0 <= i < all.len() && in_interval(all[i], x);
                if i < pre.len() {
                    assert(all[i] == pre[i]);
                    assert(covered(pre, x));
                    assert(row_covered(d, x, row));
                    let j = choose|j: int| 0 <= j < d.len() && sensor_covers(d[j], x, row);
                    assert(sensors[j] == d[j]);
                } else {
                    assert(all[i] == tail[i - pre.len()]);
                    assert(sensor_covers(sensors[sensors.len() - 1], x, row));
                }
            }
            if row_covered(sensors, x, row) {
                let j = choose|j: int| 0 <= j < sensors.len() && sensor_covers(sensors[j], x, row);
                if j < d.len() {
                    assert(d[j] == sensors[j]);
                    assert(row_covered(d, x, row));
                    let i = choose|i: int| 0 <= i < pre.len() && in_interval(pre[i], x);
                    assert(all[i] == pre[i]);
                } else {
                    assert(sensors[j] == last);
                    assert(row_section(last, row) is Some);
                    assert(all[pre.len() as int] == tail[0]);
                    assert(in_interval(all[pre.len() as int], x));
                }
            }
        }
    }
}

/// Counting neither loses nor invents positions: the covered positions of a row are
/// the uncertain ones plus the known ones among them; there are at least as many as
/// any one sensor covers there, and no more than all sensors' row intervals together.
pub proof fn lemma_count_conserves_coverage(sensors: Seq<Sensor>, row: int)
    requires
        sensors_ok(sensors),
        -COORD_MAX <= row <= COORD_MAX,
    ensures
        ({
            let covered_set = Set::new(|x: int| row_covered(sensors, x, row));
            let known = Set::new(|x: int| row_covered(sensors, x, row) && occupied(sensors, x, row));
            &&& covered_set.finite()
            &&& uncertain_positions(sensors, row).len() + known.len() == covered_set.len()
            &&& covered_set.len() <= total_len(row_sections(sensors, row))
            &&& forall|k: int|
                0 <= k < sensors.len() ==> (#[trigger] row_section(sensors[k], row) matches Some(iv)
                    ==> interval_len(iv) <= covered_set.len())
        }),
{
    let covered_set = Set::new(|x: int| row_covered(sensors, x, row));
    let known = Set::new(|x: int| row_covered(sensors, x, row) && occupied(sensors, x, row));
    let secs = row_sections(sensors, row);
    lemma_row_sections(sensors, row);
    lemma_cover_set_at_most_total(secs);
    assert(cover_set(secs) =~= covered_set);
    assert(known.subset_of(covered_set));
    vstd::set_lib::lemma_len_subset(known, covered_set);
    vstd::set_lib::lemma_set_difference_len(covered_set, known);
    assert(covered_set.intersect(known) =~= known);
    assert(uncertain_positions(sensors, row) =~= covered_set.difference(known));
    assert forall|k: int| 0 <= k < sensors.len() implies (#[trigger] row_section(sensors[k], row) matches Some(iv)
        ==> interval_len(iv) <= covered_set.len()) by {
        assert(sensor_ok(sensors[k]));
        lemma_row_section_exact(sensors[k], row);
        if let Some(iv) = row_section(sensors[k], row) {
            vstd::set_lib::lemma_int_range(iv.lo as int, iv.hi + 1);
            assert forall|x: int| interval_set(iv).contains(x) implies covered_set.contains(x) by {
                assert(sensor_covers(sensors[k], x, row));
            }
            vstd::set_lib::lemma_len_subset(interval_set(iv), covered_set);
        }
    }
}

} // verus!
