//! Falling sand over rock paths: lines of rock, and one grain's fall step.
//!
//! The occupied cells are held in a vector used as a set.

use vstd::prelude::*;
use vstd::string::StringSliceAdditionalSpecFns;
use crate::text::{lines_of, parse_u64, pieces_of, split_lines, split_pieces, unsigned_of};

verus! {

/// A cell: `x` grows to the right, `y` grows downwards.
#[derive(Clone, Copy, Debug, PartialEq, Eq, Structural, Hash)]
pub struct Position {
    pub x: u32,
    pub y: u32,
}

pub fn new_pos(x: u32, y: u32) -> (r: Position)
    ensures
        r == (Position { x, y }),
{
    Position { x, y }
}

fn contains(set: &Vec<Position>, p: Position) -> (r: bool)
    ensures
        r == set@.contains(p),
{
    let mut k: usize = 0;
    while k < set.len()
        invariant
            k <= set@.len(),
            forall|i: int| 0 <= i < k ==> set@[i] != p,
        decreases set@.len() - k,
    {
        if set[k] == p {
            assert(set@[k as int] == p);
            return true;
        }
        k = k + 1;
    }
    false
}

/// The cell one row below `p`, `dx` columns to the side.
pub open spec fn below(p: Position, dx: int) -> Position {
    Position { x: (p.x + dx) as u32, y: (p.y + 1) as u32 }
}

/// Where a grain at `p` moves in one step: straight down if free, else down-left, else
/// down-right; it stays when all three are taken.
pub open spec fn fall_step(p: Position, set: Seq<Position>) -> Position {
    if !set.contains(below(p, 0)) {
        below(p, 0)
    } else if !set.contains(below(p, -1)) {
        below(p, -1)
    } else if !set.contains(below(p, 1)) {
        below(p, 1)
    } else {
        p
    }
}

impl Position {
    /// The cells of the straight line from `self` to `other`, both included, in
    /// ascending order; horizontal when the `x` differ, else vertical.
    pub fn create_line(&self, other: &Self) -> (r: Vec<Self>)
        ensures
            self.x != other.x ==> {
                let lo = if self.x < other.x { self.x } else { other.x };
                let hi = if self.x < other.x { other.x } else { self.x };
                &&& r@.len() == hi - lo + 1
                &&& forall|i: int| 0 <= i < r@.len() ==> #[trigger] r@[i] == (Position { x: (lo + i) as u32, y: self.y })
            },
            self.x == other.x ==> {
                let lo = if self.y < other.y { self.y } else { other.y };
                let hi = if self.y < other.y { other.y } else { self.y };
                &&& r@.len() == hi - lo + 1
                &&& forall|i: int| 0 <= i < r@.len() ==> #[trigger] r@[i] == (Position { x: self.x, y: (lo + i) as u32 })
            },
    {
        let mut out: Vec<Position> = Vec::new();
        if self.x != other.x {
            let lo = if self.x < other.x { self.x } else { other.x };
            let hi = if self.x < other.x { other.x } else { self.x };
            let mut v = lo;
            out.push(Position { x: v, y: self.y });
            while v < hi
                invariant
                    lo <= v <= hi,
                    out@.len() == v - lo + 1,
                    forall|i: int| 0 <= i < out@.len() ==> #[trigger] out@[i] == (Position { x: (lo + i) as u32, y: self.y }),
                decreases hi - v,
            {
                v = v + 1;
                out.push(Position { x: v, y: self.y });
            }
        } else {
            let lo = if self.y < other.y { self.y } else { other.y };
            let hi = if self.y < other.y { other.y } else { self.y };
            let mut v = lo;
            out.push(Position { x: self.x, y: v });
            while v < hi
                invariant
                    lo <= v <= hi,
                    out@.len() == v - lo + 1,
                    forall|i: int| 0 <= i < out@.len() ==> #[trigger] out@[i] == (Position { x: self.x, y: (lo + i) as u32 }),
                decreases hi - v,
            {
                v = v + 1;
                out.push(Position { x: self.x, y: v });
            }
        }
        out
    }

    /// Whether one of the three cells below is free.
    pub fn can_move_down(&self, set: &Vec<Self>) -> (r: bool)
        requires
            1 <= self.x < u32::MAX,
            self.y < u32::MAX,
        ensures
            r == (!set@.contains(below(*self, -1)) || !set@.contains(below(*self, 0))
                || !set@.contains(below(*self, 1))),
    {
        !contains(set, Position { x: self.x - 1, y: self.y + 1 }) || !contains(
            set,
            Position { x: self.x, y: self.y + 1 },
        ) || !contains(set, Position { x: self.x + 1, y: self.y + 1 })
    }

    /// One step of a falling grain.
    pub fn move_down(&mut self, set: &Vec<Self>)
        requires
            1 <= old(self).x < u32::MAX,
            old(self).y < u32::MAX,
        ensures
            *final(self) == fall_step(*old(self), set@),
    {
        if !contains(set, Position { x: self.x, y: self.y + 1 }) {
            self.y = self.y + 1;
        } else if !contains(set, Position { x: self.x - 1, y: self.y + 1 }) {
            self.x = self.x - 1;
            self.y = self.y + 1;
        } else if !contains(set, Position { x: self.x + 1, y: self.y + 1 }) {
            self.x = self.x + 1;
            self.y = self.y + 1;
        }
    }
}

/// The largest `y` of the cells.
pub fn find_lowest_point(point_set: &Vec<Position>) -> (r: u32)
    requires
        point_set@.len() > 0,
    ensures
        exists|i: int| 0 <= i < point_set@.len() && #[trigger] point_set@[i].y == r,
        forall|i: int| 0 <= i < point_set@.len() ==> #[trigger] point_set@[i].y <= r,
{
    let mut lowest = point_set[0].y;
    let mut k: usize = 1;
    while k < point_set.len()
        invariant
            1 <= k <= point_set@.len(),
            exists|i: int| 0 <= i < k && #[trigger] point_set@[i].y == lowest,
            forall|i: int| 0 <= i < k ==> #[trigger] point_set@[i].y <= lowest,
        decreases point_set@.len() - k,
    {
        if point_set[k].y > lowest {
            lowest = point_set[k].y;
        }
        k = k + 1;
    }
    lowest
}

/// The point a word `x,y` writes.
pub open spec fn point_of(w: Seq<u8>) -> Option<Position> {
    let ps = pieces_of(w, 44u8);
    if ps.len() == 2 && unsigned_of(ps[0], u32::MAX as int) is Some && unsigned_of(ps[1], u32::MAX as int) is Some {
        Some(Position { x: unsigned_of(ps[0], u32::MAX as int).unwrap() as u32, y: unsigned_of(ps[1], u32::MAX as int).unwrap() as u32 })
    } else {
        None
    }
}

/// The corner points of a rock path `x,y -> x,y -> ...`: the words at even positions.
pub open spec fn path_words(line: Seq<u8>) -> Seq<Seq<u8>> {
    let ws = pieces_of(line, 32u8);
    Seq::new(((ws.len() + 1) / 2) as nat, |k: int| ws[2 * k])
}

/// The cells of the straight segment between `a` and `b`, both included.
pub open spec fn segment(a: Position, b: Position) -> Set<Position> {
    if a.x != b.x {
        Set::new(|p: Position| p.y == a.y && (p.x >= a.x || p.x >= b.x) && (p.x <= a.x || p.x <= b.x))
    } else {
        Set::new(|p: Position| p.x == a.x && (p.y >= a.y || p.y >= b.y) && (p.y <= a.y || p.y <= b.y))
    }
}

/// The cells of a path through the corners `ps`.
pub open spec fn path_cells(ps: Seq<Position>) -> Set<Position>
    decreases ps.len(),
{
    if ps.len() == 0 {
        Set::empty()
    } else if ps.len() == 1 {
        set![ps[0]]
    } else {
        path_cells(ps.drop_last()) + segment(ps.last(), ps[ps.len() - 2])
    }
}

/// The corners of each line's path, when every corner word is a point.
pub open spec fn paths_ok(ls: Seq<Seq<u8>>) -> bool {
    forall|i: int, k: int| 0 <= i < ls.len() && 0 <= k < path_words(ls[i]).len() ==> #[trigger] point_of(path_words(ls[i])[k]) is Some
}

pub open spec fn corners(line: Seq<u8>) -> Seq<Position> {
    Seq::new(path_words(line).len(), |k: int| point_of(path_words(line)[k]).unwrap())
}

/// All rock cells of the paths in the lines `0 .. n`.
pub open spec fn rock_cells(ls: Seq<Seq<u8>>, n: int) -> Set<Position>
    decreases n,
{
    if n <= 0 {
        Set::empty()
    } else {
        rock_cells(ls, n - 1) + path_cells(corners(ls[n - 1]))
    }
}

fn push_unique(r: &mut Vec<Position>, p: Position)
    requires
        old(r)@.no_duplicates(),
    ensures
        final(r)@.no_duplicates(),
        final(r)@.to_set() == old(r)@.to_set().insert(p),
{
    if contains(r, p) {
        assert(r@.to_set() =~= r@.to_set().insert(p));
        return;
    }
    let ghost before = r@;
    r.push(p);
    assert forall|i: int, j: int| 0 <= i < r@.len() && 0 <= j < r@.len() && i != j implies r@[i] != r@[j] by {
        if i < before.len() && j < before.len() {
            assert(before[i] != before[j]);
        }
    }
    assert(r@.to_set() =~= before.to_set().insert(p)) by {
        assert forall|q: Position| r@.contains(q) implies before.to_set().insert(p).contains(q) by {
            let i = choose|i: int| 0 <= i < r@.len() && r@[i] == q;
            if i < before.len() {
                assert(before.contains(q));
            }
        }
        assert forall|q: Position| before.contains(q) implies r@.contains(q) by {
            let i = choose|i: int| 0 <= i < before.len() && before[i] == q;
            assert(r@[i] == q);
        }
        assert(r@[before.len() as int] == p);
    }
}

proof fn lemma_push_to_set(s: Seq<Position>, e: Position)
    ensures
        s.push(e).to_set() =~= s.to_set().insert(e),
{
    assert forall|q: Position| s.push(e).contains(q) implies s.to_set().insert(e).contains(q) by {
        let i = choose|i: int| 0 <= i < s.push(e).len() && s.push(e)[i] == q;
        if i < s.len() {
            assert(s.contains(q));
        }
    }
    assert forall|q: Position| s.contains(q) implies s.push(e).contains(q) by {
        let i = choose|i: int| 0 <= i < s.len() && s[i] == q;
        assert(s.push(e)[i] == q);
    }
    assert(s.push(e)[s.len() as int] == e);
}

fn parse_point(w: &Vec<u8>) -> (r: Option<Position>)
    ensures
        r == point_of(w@),
{
    let ps = split_pieces(w.as_slice(), 44u8);
    if ps.len() != 2 {
        return None;
    }
    let x = parse_u64(ps[0].as_slice());
    let y = parse_u64(ps[1].as_slice());
    match (x, y) {
        (Some(x), Some(y)) => {
            if x <= 0xffff_ffffu64 && y <= 0xffff_ffffu64 {
                Some(Position { x: x as u32, y: y as u32 })
            } else {
                None
            }
        },
        _ => None,
    }
}

/// The rock cells of a scan of rock paths, one path per line; `None` when a corner is
/// no point `x,y`.
pub fn parse_positions(input: &str) -> (r: Option<Vec<Position>>)
    ensures
        r is Some == paths_ok(lines_of(input.spec_bytes())),
        r matches Some(v) ==> v@.no_duplicates() && v@.to_set() == rock_cells(
            lines_of(input.spec_bytes()),
            lines_of(input.spec_bytes()).len() as int,
        ),
{
    let lines = split_lines(input);
    let ghost ls = lines_of(input.spec_bytes());
    let mut cells: Vec<Position> = Vec::new();
    let mut i: usize = 0;
    assert(cells@.to_set() =~= Set::<Position>::empty());
    while i < lines.len()
        invariant
            ls == lines_of(input.spec_bytes()),
            lines@.len() == ls.len(),
            forall|k: int| 0 <= k < lines@.len() ==> #[trigger] lines@[k]@ == ls[k],
            i <= ls.len(),
            forall|a: int, k: int| 0 <= a < i && 0 <= k < path_words(ls[a]).len() ==> #[trigger] point_of(path_words(ls[a])[k]) is Some,
            cells@.no_duplicates(),
            cells@.to_set() == rock_cells(ls, i as int),
        decreases ls.len() - i,
    {
        let ghost line = ls[i as int];
        assert(lines@[i as int]@ == line);
        let ws = split_pieces(lines[i].as_slice(), 32u8);
        let ghost pw = path_words(line);
        let ghost before = cells@.to_set();
        let mut past: Option<Position> = None;
        let wl = ws.len();
        let np = wl / 2 + wl % 2;
        let mut t: usize = 0;
        while t < np
            invariant
                ls == lines_of(input.spec_bytes()),
                i < ls.len(),
                line == ls[i as int],
                ws@.len() == pieces_of(line, 32u8).len(),
                forall|t: int| 0 <= t < ws@.len() ==> #[trigger] ws@[t]@ == pieces_of(line, 32u8)[t],
                pw == path_words(line),
                pw.len() == (ws@.len() + 1) / 2,
                wl == ws@.len(),
                np == wl / 2 + wl % 2,
                np == pw.len(),
                t <= np,
                forall|u: int| 0 <= u < t ==> #[trigger] point_of(pw[u]) is Some,
                t == 0 <==> past is None,
                past matches Some(p) ==> t >= 1 && p == point_of(pw[t - 1]).unwrap(),
                cells@.no_duplicates(),
                cells@.to_set() == before + path_cells(Seq::new(t as nat, |u: int| point_of(pw[u]).unwrap())),
            decreases np - t,
        {
            let k = t + t;
            assert(pw[t as int] == ws@[k as int]@);
            let point = match parse_point(&ws[k]) {
                Some(p) => p,
                None => {
                    proof {
                        assert(!paths_ok(ls)) by {
                            assert(point_of(path_words(ls[i as int])[t as int]) is None);
                        }
                    }
                    return None;
                },
            };
            let ghost done = Seq::new(t as nat, |u: int| point_of(pw[u]).unwrap());
            let ghost next = Seq::new((t + 1) as nat, |u: int| point_of(pw[u]).unwrap());
            assert(next.drop_last() =~= done);
            match past {
                None => {
                    push_unique(&mut cells, point);
                    assert(next.len() == 1);
                    assert(path_cells(next) == set![point]);
                    assert(cells@.to_set() =~= before + path_cells(next));
                },
                Some(p) => {
                    let seg = point.create_line(&p);
                    let ghost start = cells@.to_set();
                    let mut q: usize = 0;
                    while q < seg.len()
                        invariant
                            cells@.no_duplicates(),
                            q <= seg@.len(),
                            cells@.to_set() == start + seg@.subrange(0, q as int).to_set(),
                        decreases seg@.len() - q,
                    {
                        push_unique(&mut cells, seg[q]);
                        proof {
                            assert(seg@.subrange(0, q + 1) =~= seg@.subrange(0, q as int).push(seg@[q as int]));
                            lemma_push_to_set(seg@.subrange(0, q as int), seg@[q as int]);
                        }
                        assert(cells@.to_set() =~= start + seg@.subrange(0, q + 1).to_set());
                        q = q + 1;
                    }
                    assert(seg@.subrange(0, seg@.len() as int) =~= seg@);
                    assert(seg@.to_set() =~= segment(point, p)) by {
                        assert forall|c: Position| segment(point, p).contains(c) implies seg@.contains(c) by {
                            if point.x != p.x {
                                let lo = if point.x < p.x { point.x } else { p.x };
                                assert(seg@[c.x - lo] == c);
                            } else {
                                let lo = if point.y < p.y { point.y } else { p.y };
                                assert(seg@[c.y - lo] == c);
                            }
                        }
                    }
                    assert(next[next.len() - 2] == p);
                    assert(next.last() == point);
                    assert(cells@.to_set() =~= before + path_cells(next));
                },
            }
            past = Some(point);
            t = t + 1;
        }
        proof {
            let all = Seq::new(t as nat, |u: int| point_of(pw[u]).unwrap());
            assert(all =~= corners(line));
        }
        i = i + 1;
    }
    Some(cells)
}

} // verus!
