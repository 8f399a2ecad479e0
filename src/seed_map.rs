//! Almanac maps: ranges of source numbers shifted onto ranges of destination numbers.

use vstd::prelude::*;
use vstd::string::StringSliceAdditionalSpecFns;
use crate::text::{lines_of, numbers_in, parse_numbers, split_lines};

verus! {

/// Largest magnitude accepted for the numbers of a mapping, so that every range end
/// and shifted value fits in an `i64`.
pub const MAPPING_MAX: i64 = 1_000_000_000_000_000_000;

/// Maps `src_start .. src_start + len` onto `dst_start .. dst_start + len`.
#[derive(Clone, Copy, Debug, PartialEq, Eq)]
pub struct Mapping {
    pub src_start: i64,
    pub dst_start: i64,
    pub len: i64,
}

pub open spec fn mapping_ok(m: Mapping) -> bool {
    &&& 0 <= m.src_start <= MAPPING_MAX
    &&& 0 <= m.dst_start <= MAPPING_MAX
    &&& 0 <= m.len <= MAPPING_MAX
}

pub open spec fn mappings_ok(map: Seq<Mapping>) -> bool {
    forall|i: int| 0 <= i < map.len() ==> mapping_ok(#[trigger] map[i])
}

pub open spec fn in_src(m: Mapping, v: int) -> bool {
    m.src_start <= v < m.src_start + m.len
}

pub open spec fn in_dst(m: Mapping, v: int) -> bool {
    m.dst_start <= v < m.dst_start + m.len
}

/// `v` sent through one mapping: shifted when the source range holds it, else kept.
pub open spec fn mapped(m: Mapping, v: int) -> int {
    if in_src(m, v) {
        v + (m.dst_start - m.src_start)
    } else {
        v
    }
}

/// `v` sent back through one mapping: shifted when the destination range holds it.
pub open spec fn rev_mapped(m: Mapping, v: int) -> int {
    if in_dst(m, v) {
        v + (m.src_start - m.dst_start)
    } else {
        v
    }
}

/// `v` sent through a map: the last mapping whose source range holds `v` decides; with
/// none, `v` is kept.
pub open spec fn map_value(map: Seq<Mapping>, v: int) -> int
    decreases map.len(),
{
    if map.len() == 0 {
        v
    } else if in_src(map.last(), v) {
        mapped(map.last(), v)
    } else {
        map_value(map.drop_last(), v)
    }
}

/// `v` sent back through a map: the last mapping whose destination range holds `v`
/// decides; with none, `v` is kept.
pub open spec fn rev_map_value(map: Seq<Mapping>, v: int) -> int
    decreases map.len(),
{
    if map.len() == 0 {
        v
    } else if in_dst(map.last(), v) {
        rev_mapped(map.last(), v)
    } else {
        rev_map_value(map.drop_last(), v)
    }
}

impl Mapping {
    /// The source range.
    pub fn src(&self) -> (r: std::ops::Range<i64>)
        requires
            mapping_ok(*self),
        ensures
            r.start == self.src_start,
            r.end == self.src_start + self.len,
    {
        self.src_start..(self.src_start + self.len)
    }

    /// The destination range.
    pub fn dst(&self) -> (r: std::ops::Range<i64>)
        requires
            mapping_ok(*self),
        ensures
            r.start == self.dst_start,
            r.end == self.dst_start + self.len,
    {
        self.dst_start..(self.dst_start + self.len)
    }

    /// `num` shifted into the destination range when the source range holds it.
    pub fn map(&self, num: i64) -> (r: i64)
        requires
            mapping_ok(*self),
        ensures
            r == mapped(*self, num as int),
    {
        let src = self.src();
        if src.start <= num && num < src.end {
            num + (self.dst_start - self.src_start)
        } else {
            num
        }
    }

    /// `num` shifted back into the source range when the destination range holds it.
    pub fn rev_map(&self, num: i64) -> (r: i64)
        requires
            mapping_ok(*self),
        ensures
            r == rev_mapped(*self, num as int),
    {
        let dst = self.dst();
        if dst.start <= num && num < dst.end {
            num + (self.src_start - self.dst_start)
        } else {
            num
        }
    }
}

/// `val` sent through a map.
pub fn apply_map(val: i64, map: &Vec<Mapping>) -> (r: i64)
    requires
        mappings_ok(map@),
    ensures
        r == map_value(map@, val as int),
{
    let mut res = val;
    let mut k: usize = 0;
    while k < map.len()
        invariant
            k <= map@.len(),
            mappings_ok(map@),
            res == map_value(map@.subrange(0, k as int), val as int),
        decreases map@.len() - k,
    {
        let m = map[k];
        assert(mapping_ok(map@[k as int]));
        assert(map@.subrange(0, k + 1).drop_last() =~= map@.subrange(0, k as int));
        let src = m.src();
        if src.start <= val && val < src.end {
            res = m.map(val);
        }
        k = k + 1;
    }
    assert(map@.subrange(0, map@.len() as int) =~= map@);
    res
}

/// `val` sent back through a map.
pub fn rev_apply_map(val: i64, map: &Vec<Mapping>) -> (r: i64)
    requires
        mappings_ok(map@),
    ensures
        r == rev_map_value(map@, val as int),
{
    let mut res = val;
    let mut k: usize = 0;
    while k < map.len()
        invariant
            k <= map@.len(),
            mappings_ok(map@),
            res == rev_map_value(map@.subrange(0, k as int), val as int),
        decreases map@.len() - k,
    {
        let m = map[k];
        assert(mapping_ok(map@[k as int]));
        assert(map@.subrange(0, k + 1).drop_last() =~= map@.subrange(0, k as int));
        let dst = m.dst();
        if dst.start <= val && val < dst.end {
            res = m.rev_map(val);
        }
        k = k + 1;
    }
    assert(map@.subrange(0, map@.len() as int) =~= map@);
    res
}

/// Maps read so far from the lines after the seeds, and whether the last line was
/// blank. A nonempty line after a blank one names a new map; a line with three numbers
/// `dst src len` adds a mapping to the current map; other lines are skipped.
pub open spec fn read_maps(ls: Seq<Seq<u8>>) -> (Seq<Seq<Mapping>>, bool)
    decreases ls.len(),
{
    if ls.len() == 0 {
        (Seq::empty(), false)
    } else {
        let (maps, blank) = read_maps(ls.drop_last());
        let l = ls.last();
        let ns = numbers_in(l);
        if l.len() == 0 {
            (maps, true)
        } else if blank {
            (maps.push(Seq::empty()), false)
        } else if ns.len() >= 3 && maps.len() > 0 {
            (
                maps.update(
                    maps.len() - 1,
                    maps.last().push(
                        Mapping { dst_start: ns[0] as i64, src_start: ns[1] as i64, len: ns[2] as i64 },
                    ),
                ),
                false,
            )
        } else {
            (maps, false)
        }
    }
}

/// Every number of the text is at most `MAPPING_MAX`.
pub open spec fn almanac_fits(ls: Seq<Seq<u8>>) -> bool {
    forall|i: int, k: int|
        0 <= i < ls.len() && 0 <= k < numbers_in(ls[i]).len() ==> #[trigger] numbers_in(ls[i])[k]
            <= MAPPING_MAX
}

/// The seeds (the numbers of the first line) and the maps of an almanac.
pub open spec fn almanac(b: Seq<u8>) -> Option<(Seq<i64>, Seq<Seq<Mapping>>)> {
    let ls = lines_of(b);
    if ls.len() >= 1 && almanac_fits(ls) {
        Some(
            (
                numbers_in(ls[0]).map_values(|v: int| v as i64),
                read_maps(ls.subrange(1, ls.len() as int)).0,
            ),
        )
    } else {
        None
    }
}

pub open spec fn maps_view(maps: &Vec<Vec<Mapping>>) -> Seq<Seq<Mapping>> {
    Seq::new(maps@.len(), |i: int| maps@[i]@)
}

fn numbers_i64(line: &Vec<u8>) -> (r: Option<Vec<i64>>)
    ensures
        r is Some == forall|k: int| 0 <= k < numbers_in(line@).len() ==> #[trigger] numbers_in(line@)[k] <= MAPPING_MAX,
        r matches Some(v) ==> v@ == numbers_in(line@).map_values(|x: int| x as i64),
{
    match parse_numbers(line.as_slice()) {
        Some(v) => {
            let mut out: Vec<i64> = Vec::new();
            let mut k: usize = 0;
            while k < v.len()
                invariant
                    k <= v@.len(),
                    v@.len() == numbers_in(line@).len(),
                    forall|i: int| 0 <= i < v@.len() ==> #[trigger] v@[i] == numbers_in(line@)[i],
                    out@ == numbers_in(line@).subrange(0, k as int).map_values(|x: int| x as i64),
                    forall|i: int| 0 <= i < k ==> #[trigger] numbers_in(line@)[i] <= MAPPING_MAX,
                decreases v@.len() - k,
            {
                if v[k] > 1_000_000_000_000_000_000u64 {
                    return None;
                }
                out.push(v[k] as i64);
                assert(numbers_in(line@).subrange(0, k + 1).map_values(|x: int| x as i64) =~= numbers_in(
                    line@,
                ).subrange(0, k as int).map_values(|x: int| x as i64).push(v[k as int] as i64));
                k = k + 1;
            }
            assert(numbers_in(line@).subrange(0, v@.len() as int) =~= numbers_in(line@));
            Some(out)
        },
        None => None,
    }
}

/// Reads the seeds and the maps of an almanac; `None` for an empty text or a number
/// beyond `MAPPING_MAX`.
pub fn parse_input(input: &str) -> (r: Option<(Vec<i64>, Vec<Vec<Mapping>>)>)
    ensures
        r is Some == almanac(input.spec_bytes()) is Some,
        r matches Some(p) ==> almanac(input.spec_bytes()) == Some((p.0@, maps_view(&p.1))),
{
    let lines = split_lines(input);
    let ghost ls = lines_of(input.spec_bytes());
    if lines.len() == 0 {
        return None;
    }
    assert(lines@[0]@ == ls[0]);
    let seeds = match numbers_i64(&lines[0]) {
        Some(s) => s,
        None => {
            assert(!almanac_fits(ls));
            return None;
        },
    };
    let mut maps: Vec<Vec<Mapping>> = Vec::new();
    let mut blank = false;
    let mut i: usize = 1;
    while i < lines.len()
        invariant
            ls == lines_of(input.spec_bytes()),
            lines@.len() == ls.len(),
            forall|k: int| 0 <= k < lines@.len() ==> #[trigger] lines@[k]@ == ls[k],
            1 <= i <= ls.len(),
            forall|k: int, j: int|
                0 <= k < i && 0 <= j < numbers_in(ls[k]).len() ==> #[trigger] numbers_in(ls[k])[j]
                    <= MAPPING_MAX,
            (maps_view(&maps), blank) == read_maps(ls.subrange(1, i as int)),
        decreases ls.len() - i,
    {
        assert(lines@[i as int]@ == ls[i as int]);
        let ghost prev = ls.subrange(1, i as int);
        assert(ls.subrange(1, i + 1).drop_last() =~= prev);
        assert(ls.subrange(1, i + 1).last() == ls[i as int]);
        let ns = match numbers_i64(&lines[i]) {
            Some(ns) => ns,
            None => {
                assert(!almanac_fits(ls));
                return None;
            },
        };
        let ghost old_maps = maps_view(&maps);
        if lines[i].len() == 0 {
            blank = true;
        } else if blank {
            maps.push(Vec::new());
            assert(maps_view(&maps) =~= old_maps.push(Seq::empty()));
            blank = false;
        } else {
            if ns.len() >= 3 && maps.len() > 0 {
                let m = Mapping { dst_start: ns[0], src_start: ns[1], len: ns[2] };
                let last = maps.len() - 1;
                let mut cur = maps.remove(last);
                cur.push(m);
                maps.push(cur);
                assert(maps_view(&maps) =~= old_maps.update(last as int, old_maps.last().push(m)));
            }
            blank = false;
        }
        i = i + 1;
    }
    assert(almanac_fits(ls));
    Some((seeds, maps))
}

/// Where a seed ends up after all maps, applied in order.
pub open spec fn location(maps: Seq<Seq<Mapping>>, v: int) -> int
    decreases maps.len(),
{
    if maps.len() == 0 {
        v
    } else {
        map_value(maps.last(), location(maps.drop_last(), v))
    }
}

/// The lowest location of the seeds, `i64::MAX` for none.
pub open spec fn lowest_location(seeds: Seq<i64>, maps: Seq<Seq<Mapping>>) -> int
    decreases seeds.len(),
{
    if seeds.len() == 0 {
        i64::MAX as int
    } else {
        let rest = lowest_location(seeds.drop_last(), maps);
        let here = location(maps, seeds.last() as int);
        if here < rest { here } else { rest }
    }
}

proof fn lemma_map_value_bounded(map: Seq<Mapping>, v: int)
    requires
        mappings_ok(map),
        0 <= v <= 2 * MAPPING_MAX,
    ensures
        0 <= map_value(map, v) <= 2 * MAPPING_MAX,
    decreases map.len(),
{
    if map.len() > 0 {
        assert(mapping_ok(map[map.len() - 1]));
        lemma_map_value_bounded(map.drop_last(), v);
    }
}

/// The lowest location that any seed reaches.
pub fn calc_solution_1(input: &str) -> (r: i64)
    requires
        almanac(input.spec_bytes()) is Some,
    ensures
        r == lowest_location(almanac(input.spec_bytes()).unwrap().0, almanac(input.spec_bytes()).unwrap().1),
{
    let (seeds, maps) = match parse_input(input) {
        Some(p) => p,
        None => return i64::MAX,
    };
    let ghost mv = maps_view(&maps);
    proof {
        lemma_almanac_maps_ok(input.spec_bytes());
        assert(mv == almanac(input.spec_bytes()).unwrap().1);
        assert(seeds@ == almanac(input.spec_bytes()).unwrap().0);
    }
    let mut result = i64::MAX;
    let mut s: usize = 0;
    while s < seeds.len()
        invariant
            mv == maps_view(&maps),
            forall|k: int| 0 <= k < mv.len() ==> mappings_ok(#[trigger] mv[k]),
            forall|k: int| 0 <= k < seeds@.len() ==> 0 <= #[trigger] seeds@[k] <= MAPPING_MAX,
            s <= seeds@.len(),
            result == lowest_location(seeds@.subrange(0, s as int), mv),
        decreases seeds@.len() - s,
    {
        let mut acc = seeds[s];
        let mut k: usize = 0;
        while k < maps.len()
            invariant
                mv == maps_view(&maps),
                forall|j: int| 0 <= j < mv.len() ==> mappings_ok(#[trigger] mv[j]),
                s < seeds@.len(),
                0 <= seeds@[s as int] <= MAPPING_MAX,
                k <= mv.len(),
                acc == location(mv.subrange(0, k as int), seeds@[s as int] as int),
                0 <= acc <= 2 * MAPPING_MAX,
            decreases mv.len() - k,
        {
            assert(mv.subrange(0, k + 1).drop_last() =~= mv.subrange(0, k as int));
            assert(maps@[k as int]@ == mv[k as int]);
            proof {
                lemma_map_value_bounded(mv[k as int], acc as int);
            }
            acc = apply_map(acc, &maps[k]);
            k = k + 1;
        }
        assert(mv.subrange(0, mv.len() as int) =~= mv);
        assert(seeds@.subrange(0, s + 1).drop_last() =~= seeds@.subrange(0, s as int));
        if acc < result {
            result = acc;
        }
        s = s + 1;
    }
    assert(seeds@.subrange(0, seeds@.len() as int) =~= seeds@);
    result
}

/// A text that reads as an almanac has well-formed mappings and seeds within range.
proof fn lemma_almanac_maps_ok(b: Seq<u8>)
    requires
        almanac(b) is Some,
    ensures
        forall|k: int| 0 <= k < almanac(b).unwrap().1.len() ==> mappings_ok(#[trigger] almanac(b).unwrap().1[k]),
        forall|k: int| 0 <= k < almanac(b).unwrap().0.len() ==> 0 <= #[trigger] almanac(b).unwrap().0[k] <= MAPPING_MAX,
{
    let ls = lines_of(b);
    let rest = ls.subrange(1, ls.len() as int);
    assert forall|i: int, k: int|
        0 <= i < rest.len() && 0 <= k < numbers_in(rest[i]).len() implies #[trigger] numbers_in(rest[i])[k]
            <= MAPPING_MAX by {
        assert(rest[i] == ls[i + 1]);
    }
    lemma_read_maps_ok(rest);
    lemma_numbers_nonneg(ls[0]);
}

proof fn lemma_numbers_nonneg(b: Seq<u8>)
    ensures
        forall|k: int| 0 <= k < numbers_in(b).len() ==> 0 <= #[trigger] numbers_in(b)[k],
{
    crate::text::lemma_numbers_in_nonneg(b);
}

proof fn lemma_read_maps_ok(ls: Seq<Seq<u8>>)
    requires
        almanac_fits(ls),
    ensures
        forall|k: int| 0 <= k < read_maps(ls).0.len() ==> mappings_ok(#[trigger] read_maps(ls).0[k]),
    decreases ls.len(),
{
    if ls.len() > 0 {
        let d = ls.drop_last();
        assert(almanac_fits(d)) by {
            assert forall|i: int, k: int|
                0 <= i < d.len() && 0 <= k < numbers_in(d[i]).len() implies #[trigger] numbers_in(d[i])[k]
                    <= MAPPING_MAX by {
                assert(d[i] == ls[i]);
            }
        }
        lemma_read_maps_ok(d);
        let l = ls.last();
        lemma_numbers_nonneg(l);
        let ns = numbers_in(l);
        let (maps, blank) = read_maps(d);
        if l.len() != 0 && !blank && ns.len() >= 3 && maps.len() > 0 {
            assert(ls[ls.len() - 1] == l);
            assert(ns[0] <= MAPPING_MAX && ns[1] <= MAPPING_MAX && ns[2] <= MAPPING_MAX);
            let m = Mapping { dst_start: ns[0] as i64, src_start: ns[1] as i64, len: ns[2] as i64 };
            assert(mapping_ok(m));
            let last = maps.last();
            assert(mappings_ok(maps[maps.len() - 1]));
            assert(mappings_ok(last.push(m))) by {
                assert forall|j: int| 0 <= j < last.push(m).len() implies mapping_ok(#[trigger] last.push(m)[j]) by {
                    if j < last.len() {
                        assert(last.push(m)[j] == last[j]);
                    }
                }
            }
            let new_maps = maps.update(maps.len() - 1, last.push(m));
            assert(read_maps(ls).0 == new_maps);
            assert forall|k: int| 0 <= k < new_maps.len() implies mappings_ok(#[trigger] new_maps[k]) by {
                if k < maps.len() - 1 {
                    assert(new_maps[k] == maps[k]);
                }
            }
        } else if l.len() != 0 && blank {
            let new_maps = maps.push(Seq::<Mapping>::empty());
            assert(read_maps(ls).0 == new_maps);
            assert forall|k: int| 0 <= k < new_maps.len() implies mappings_ok(#[trigger] new_maps[k]) by {
                if k < maps.len() {
                    assert(new_maps[k] == maps[k]);
                }
            }
        }
    }
}

} // verus!
