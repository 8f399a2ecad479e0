//! A rope of knots dragged across a grid: each knot follows the one before it, and the
//! places the last knot visits are counted.

use vstd::prelude::*;

verus! {

/// Largest number of unit steps a simulation takes; every knot then stays well
/// inside the range of an `i32`.
pub const MAX_STEPS: u64 = 1_000_000_000;

/// A grid position: `.0` grows upwards, `.1` grows to the right.
#[derive(Clone, Copy, Debug, PartialEq, Eq, Structural, Hash)]
pub struct Position(pub i32, pub i32);

#[derive(Clone, Copy, Debug, PartialEq, Eq)]
pub enum Direction {
    R,
    U,
    L,
    D,
}

/// `count` unit steps of the head in one direction.
#[derive(Clone, Copy, Debug, PartialEq, Eq)]
pub struct Move {
    pub direction: Direction,
    pub count: u32,
}

pub open spec fn abs(v: int) -> int {
    if v < 0 { -v } else { v }
}

/// Where a knot at `t` moves when the knot before it is at `h`: it stays when the two
/// touch; otherwise it steps next to `h`, diagonally when they are on a diagonal.
pub open spec fn follow(t: Position, h: Position) -> Position {
    let y = t.0 - h.0;
    let x = t.1 - h.1;
    if abs(y) <= 1 && abs(x) <= 1 {
        t
    } else if abs(x) == abs(y) {
        Position(
            (t.0 - (if y < 0 { y + 1 } else { y - 1 })) as i32,
            (t.1 - (if x < 0 { x + 1 } else { x - 1 })) as i32,
        )
    } else if abs(x) > abs(y) {
        Position(h.0, (if x < 0 { h.1 - 1 } else { h.1 + 1 }) as i32)
    } else {
        Position((if y < 0 { h.0 - 1 } else { h.0 + 1 }) as i32, h.1)
    }
}

pub open spec fn bounded(p: Position, n: int) -> bool {
    -n <= p.0 <= n && -n <= p.1 <= n
}

pub open spec fn moved(p: Position, d: Direction) -> Position {
    match d {
        Direction::R => Position(p.0, (p.1 + 1) as i32),
        Direction::U => Position((p.0 + 1) as i32, p.1),
        Direction::L => Position(p.0, (p.1 - 1) as i32),
        Direction::D => Position((p.0 - 1) as i32, p.1),
    }
}

/// Knots `i ..` follow, in order, the knot before each.
pub open spec fn pull(knots: Seq<Position>, i: int) -> Seq<Position>
    decreases knots.len() - i,
{
    if i <= 0 || i >= knots.len() {
        knots
    } else {
        pull(knots.update(i, follow(knots[i], knots[i - 1])), i + 1)
    }
}

/// One unit step of the head, and the rest of the rope following.
pub open spec fn step(knots: Seq<Position>, d: Direction) -> Seq<Position> {
    pull(knots.update(0, moved(knots[0], d)), 1)
}

/// The rope after the unit steps `ds`.
pub open spec fn run(knots: Seq<Position>, ds: Seq<Direction>) -> Seq<Position>
    decreases ds.len(),
{
    if ds.len() == 0 {
        knots
    } else {
        step(run(knots, ds.drop_last()), ds.last())
    }
}

/// The unit steps of a list of moves.
pub open spec fn unit_steps(moves: Seq<Move>) -> Seq<Direction>
    decreases moves.len(),
{
    if moves.len() == 0 {
        Seq::empty()
    } else {
        unit_steps(moves.drop_last()) + Seq::new(moves.last().count as nat, |_k: int| moves.last().direction)
    }
}

/// `n` knots at the origin.
pub open spec fn start_rope(n: nat) -> Seq<Position> {
    Seq::new(n, |_k: int| Position(0, 0))
}

/// The places the last of `n` knots visits during the unit steps `ds`, the start included.
pub open spec fn tail_trail(n: nat, ds: Seq<Direction>) -> Set<Position> {
    Set::new(|p: Position| exists|k: int| 0 <= k <= ds.len() && #[trigger] run(start_rope(n), ds.subrange(0, k)).last() == p)
}

/// Number of unit steps of a list of moves.
pub open spec fn total_steps(moves: Seq<Move>) -> int
    decreases moves.len(),
{
    if moves.len() == 0 {
        0
    } else {
        total_steps(moves.drop_last()) + moves.last().count
    }
}

proof fn lemma_follow_between(t: Position, h: Position, n: int)
    requires
        bounded(t, n),
        bounded(h, n),
    ensures
        bounded(follow(t, h), n),
{
}

proof fn lemma_pull(knots: Seq<Position>, i: int, n: int)
    requires
        1 <= i,
        forall|k: int| 0 <= k < knots.len() ==> bounded(#[trigger] knots[k], n),
    ensures
        pull(knots, i).len() == knots.len(),
        forall|k: int| 0 <= k < knots.len() ==> bounded(#[trigger] pull(knots, i)[k], n),
        forall|k: int| 0 <= k < i && k < knots.len() ==> #[trigger] pull(knots, i)[k] == knots[k],
    decreases knots.len() - i,
{
    if i < knots.len() {
        lemma_follow_between(knots[i], knots[i - 1], n);
        lemma_pull(knots.update(i, follow(knots[i], knots[i - 1])), i + 1, n);
    }
}

proof fn lemma_total_steps(moves: Seq<Move>)
    ensures
        unit_steps(moves).len() == total_steps(moves),
        total_steps(moves) >= 0,
    decreases moves.len(),
{
    if moves.len() > 0 {
        lemma_total_steps(moves.drop_last());
    }
}

/// Moves the knot at `tail` after the knot before it moved to `head`.
pub fn adjust_tail_pos_based_on_head(tail: &mut Position, head: &Position)
    requires
        bounded(*old(tail), MAX_STEPS as int),
        bounded(*head, MAX_STEPS as int),
    ensures
        *final(tail) == follow(*old(tail), *head),
{
    let y = tail.0 - head.0;
    let x = tail.1 - head.1;
    let ay = if y < 0 { -y } else { y };
    let ax = if x < 0 { -x } else { x };
    if ay <= 1 && ax <= 1 {
        return;
    } else if ax == ay {
        tail.0 = tail.0 - if y < 0 { y + 1 } else { y - 1 };
        tail.1 = tail.1 - if x < 0 { x + 1 } else { x - 1 };
    } else if ax > ay {
        tail.0 = head.0;
        tail.1 = if x < 0 { head.1 - 1 } else { head.1 + 1 };
    } else {
        tail.0 = if y < 0 { head.0 - 1 } else { head.0 + 1 };
        tail.1 = head.1;
    }
}

/// Appends `p` unless it is already there.
fn push_unique(r: &mut Vec<Position>, p: Position)
    requires
        old(r)@.no_duplicates(),
    ensures
        final(r)@.no_duplicates(),
        final(r)@.to_set() == old(r)@.to_set().insert(p),
        final(r)@.len() <= old(r)@.len() + 1,
{
    let mut t: usize = 0;
    while t < r.len()
        invariant
            t <= r@.len(),
            r@ == old(r)@,
            r@.no_duplicates(),
            forall|i: int| 0 <= i < t ==> r@[i] != p,
        decreases r@.len() - t,
    {
        if r[t] == p {
            assert(r@.to_set() =~= r@.to_set().insert(p)) by {
                assert(r@.contains(p));
            }
            return;
        }
        t = t + 1;
    }
    let ghost before = r@;
    r.push(p);
    assert forall|i: int, j: int| 0 <= i < r@.len() && 0 <= j < r@.len() && i != j implies r@[i]
        != r@[j] by {
        if i < before.len() && j < before.len() {
            assert(before[i] != before[j]);
        }
    }
    assert(r@.to_set() =~= before.to_set().insert(p)) by {
        assert forall|q: Position| r@.contains(q) implies before.to_set().insert(p).contains(q) by {
            let i = choose|i: int| 0 <= i < r@.len() && r@[i] == q;
            if i < before.len() {
                assert(before.contains(q));
            }
        }
        assert forall|q: Position| before.contains(q) implies r@.contains(q) by {
            let i = choose|i: int| 0 <= i < before.len() && before[i] == q;
            assert(r@[i] == q);
        }
        assert(r@[before.len() as int] == p);
    }
}

/// How many places the last of `snake_len` knots visits; 0 for a rope of fewer than
/// two knots.
pub fn calc_snake_tail_positions_count(moves: &Vec<Move>, snake_len: usize) -> (r: u32)
    requires
        total_steps(moves@) <= MAX_STEPS,
    ensures
        snake_len < 2 ==> r == 0,
        snake_len >= 2 ==> tail_trail(snake_len as nat, unit_steps(moves@)).finite() && r
            == tail_trail(snake_len as nat, unit_steps(moves@)).len(),
{
    if snake_len < 2 {
        return 0;
    }
    let ghost n = snake_len as nat;
    let mut snake: Vec<Position> = Vec::new();
    let mut k: usize = 0;
    while k < snake_len
        invariant
            k <= snake_len,
            snake@ == start_rope(k as nat),
        decreases snake_len - k,
    {
        snake.push(Position(0, 0));
        assert(snake@ =~= start_rope((k + 1) as nat));
        k = k + 1;
    }
    let mut visited: Vec<Position> = Vec::new();
    visited.push(snake[snake_len - 1]);
    let ghost mut done: Seq<Direction> = Seq::empty();
    proof {
        assert(visited@.to_set() =~= tail_trail(n, done)) by {
            assert(done.subrange(0, 0) =~= done);
            assert forall|p: Position| tail_trail(n, done).contains(p) implies visited@.to_set().contains(p) by {
                let k = choose|k: int| 0 <= k <= done.len() && #[trigger] run(start_rope(n), done.subrange(0, k)).last() == p;
                assert(visited@[0] == p);
            }
            assert(run(start_rope(n), done.subrange(0, 0)).last() == visited@[0]);
        }
        lemma_total_steps(moves@);
    }
    let mut mi: usize = 0;
    while mi < moves.len()
        invariant
            n == snake_len,
            snake_len >= 2,
            total_steps(moves@) <= MAX_STEPS,
            unit_steps(moves@).len() == total_steps(moves@),
            mi <= moves@.len(),
            done == unit_steps(moves@.subrange(0, mi as int)),
            snake@ == run(start_rope(n), done),
            snake@.len() == n,
            forall|q: int| 0 <= q < snake@.len() ==> bounded(#[trigger] snake@[q], done.len() as int),
            visited@.no_duplicates(),
            visited@.len() <= done.len() + 1,
            visited@.to_set() == tail_trail(n, done),
        decreases moves@.len() - mi,
    {
        let m = moves[mi];
        proof {
            assert(moves@.subrange(0, mi + 1).drop_last() =~= moves@.subrange(0, mi as int));
            lemma_total_steps(moves@.subrange(0, mi + 1));
            lemma_steps_prefix(moves@, mi + 1);
        }
        let ghost before = done;
        let mut c: u32 = 0;
        while c < m.count
            invariant
                n == snake_len,
                snake_len >= 2,
                snake@.len() == n,
                done == before + Seq::new(c as nat, |_k: int| m.direction),
                before.len() + m.count <= MAX_STEPS,
                c <= m.count,
                snake@ == run(start_rope(n), done),
                forall|q: int| 0 <= q < snake@.len() ==> bounded(#[trigger] snake@[q], done.len() as int),
                visited@.no_duplicates(),
                visited@.len() <= done.len() + 1,
                visited@.to_set() == tail_trail(n, done),
            decreases m.count - c,
        {
            let ghost old_done = done;
            let ghost old_snake = snake@;
            let head = snake[0];
            let new_head = match m.direction {
                Direction::R => Position(head.0, head.1 + 1),
                Direction::U => Position(head.0 + 1, head.1),
                Direction::L => Position(head.0, head.1 - 1),
                Direction::D => Position(head.0 - 1, head.1),
            };
            snake.set(0, new_head);
            let ghost moved_rope = snake@;
            assert(moved_rope == old_snake.update(0, moved(old_snake[0], m.direction)));
            assert forall|q: int| 0 <= q < snake@.len() implies bounded(#[trigger] snake@[q], done.len() as int + 1) by {
                if q != 0 {
                    assert(snake@[q] == old_snake[q]);
                }
            }
            let mut i: usize = 1;
            while i < snake_len
                invariant
                    snake_len >= 2,
                    snake@.len() == snake_len,
                    1 <= i <= snake_len,
                    moved_rope.len() == snake_len,
                    pull(snake@, i as int) == pull(moved_rope, 1),
                    forall|q: int| 0 <= q < snake@.len() ==> bounded(#[trigger] snake@[q], old_done.len() as int + 1),
                    old_done.len() + 1 <= MAX_STEPS,
                decreases snake_len - i,
            {
                let mut t = snake[i];
                let h = snake[i - 1];
                assert(bounded(snake@[i as int], old_done.len() as int + 1));
                assert(bounded(snake@[i - 1], old_done.len() as int + 1));
                adjust_tail_pos_based_on_head(&mut t, &h);
                proof {
                    lemma_follow_between(snake@[i as int], snake@[i - 1], old_done.len() as int + 1);
                }
                let ghost prev = snake@;
                snake.set(i, t);
                assert(snake@ == prev.update(i as int, follow(prev[i as int], prev[i - 1])));
                i = i + 1;
            }
            assert(pull(snake@, snake_len as int) == snake@);
            proof {
                done = old_done.push(m.direction);
                assert(done =~= before + Seq::new((c + 1) as nat, |_k: int| m.direction));
                assert(done.drop_last() =~= old_done);
                assert(snake@ == run(start_rope(n), done));
            }
            push_unique(&mut visited, snake[snake_len - 1]);
            proof {
                assert(tail_trail(n, done) =~= tail_trail(n, old_done).insert(snake@.last())) by {
                    assert forall|p: Position| tail_trail(n, done).contains(p) implies tail_trail(n, old_done).insert(snake@.last()).contains(p) by {
                        let k = choose|k: int| 0 <= k <= done.len() && #[trigger] run(start_rope(n), done.subrange(0, k)).last() == p;
                        if k <= old_done.len() {
                            assert(done.subrange(0, k) =~= old_done.subrange(0, k));
                        } else {
                            assert(done.subrange(0, k) =~= done);
                        }
                    }
                    assert forall|p: Position| tail_trail(n, old_done).contains(p) implies tail_trail(n, done).contains(p) by {
                        let k = choose|k: int| 0 <= k <= old_done.len() && #[trigger] run(start_rope(n), old_done.subrange(0, k)).last() == p;
                        assert(done.subrange(0, k) =~= old_done.subrange(0, k));
                        assert(run(start_rope(n), done.subrange(0, k)).last() == p);
                    }
                    assert(done.subrange(0, done.len() as int) =~= done);
                    assert(run(start_rope(n), done.subrange(0, done.len() as int)).last() == snake@.last());
                }
            }
            c = c + 1;
        }
        proof {
            assert(done =~= unit_steps(moves@.subrange(0, mi + 1)));
        }
        mi = mi + 1;
    }
    proof {
        assert(moves@.subrange(0, moves@.len() as int) =~= moves@);
        visited@.unique_seq_to_set();
    }
    visited.len() as u32
}

proof fn lemma_steps_prefix(moves: Seq<Move>, k: int)
    requires
        0 <= k <= moves.len(),
    ensures
        0 <= total_steps(moves.subrange(0, k)) <= total_steps(moves),
    decreases moves.len(),
{
    if moves.len() > 0 {
        let d = moves.drop_last();
        if k == moves.len() {
            assert(moves.subrange(0, k) =~= moves);
            lemma_steps_prefix(d, d.len() as int);
            assert(d.subrange(0, d.len() as int) =~= d);
        } else {
            assert(d.subrange(0, k) =~= moves.subrange(0, k));
            lemma_steps_prefix(d, k);
            lemma_steps_prefix(d, d.len() as int);
            assert(d.subrange(0, d.len() as int) =~= d);
        }
    } else {
        assert(moves.subrange(0, k) =~= moves);
    }
}

/// How many places the tail of a two-knot rope visits.
pub fn calc_position_count(moves: &Vec<Move>) -> (r: u32)
    requires
        total_steps(moves@) <= MAX_STEPS,
    ensures
        tail_trail(2, unit_steps(moves@)).finite(),
        r == tail_trail(2, unit_steps(moves@)).len(),
{
    calc_snake_tail_positions_count(moves, 2)
}

} // verus!
