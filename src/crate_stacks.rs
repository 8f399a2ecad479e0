//! Stacks of crates rearranged by a crane.

use vstd::prelude::*;
use vstd::utf8::encode_utf8;
use crate::text::{parse_u64, pieces_of, split_pieces, unsigned_of};

verus! {

/// Move `count` crates from stack `origin` to stack `destination` (indices from 0).
#[derive(Clone, Copy, Debug, PartialEq, Eq)]
pub struct Move {
    pub count: usize,
    pub origin: usize,
    pub destination: usize,
}

pub open spec fn stacks_view(stacks: &Vec<Vec<char>>) -> Seq<Seq<char>> {
    Seq::new(stacks@.len(), |i: int| stacks@[i]@)
}

/// The move can be carried out: both stacks exist and the origin holds enough crates.
pub open spec fn move_ok(s: Seq<Seq<char>>, m: Move) -> bool {
    m.origin < s.len() && m.destination < s.len() && m.count <= s[m.origin as int].len()
}

/// The stacks after one move: the top `count` crates of the origin are lifted and put
/// on the destination, in the same order, or reversed when moved one at a time.
pub open spec fn apply_move(s: Seq<Seq<char>>, m: Move, reverse_appending: bool) -> Seq<Seq<char>> {
    let o = s[m.origin as int];
    let cut = o.len() - m.count;
    let top = o.subrange(cut, o.len() as int);
    let s1 = s.update(m.origin as int, o.subrange(0, cut));
    let added = if reverse_appending { top.reverse() } else { top };
    s1.update(m.destination as int, s1[m.destination as int] + added)
}

/// The stacks after the moves in order; `None` when a move cannot be carried out.
pub open spec fn apply_moves(s: Seq<Seq<char>>, moves: Seq<Move>, reverse_appending: bool) -> Option<Seq<Seq<char>>>
    decreases moves.len(),
{
    if moves.len() == 0 {
        Some(s)
    } else {
        match apply_moves(s, moves.drop_last(), reverse_appending) {
            Some(t) => if move_ok(t, moves.last()) {
                Some(apply_move(t, moves.last(), reverse_appending))
            } else {
                None
            },
            None => None,
        }
    }
}

fn copy_chars(v: &Vec<char>, from: usize, to: usize) -> (r: Vec<char>)
    requires
        from <= to <= v@.len(),
    ensures
        r@ == v@.subrange(from as int, to as int),
{
    let mut out: Vec<char> = Vec::new();
    let mut k = from;
    while k < to
        invariant
            from <= k <= to <= v@.len(),
            out@ == v@.subrange(from as int, k as int),
        decreases to - k,
    {
        out.push(v[k]);
        assert(v@.subrange(from as int, k + 1) =~= v@.subrange(from as int, k as int).push(v@[k as int]));
        k = k + 1;
    }
    out
}

/// Carries out the moves on a copy of the stacks.
pub fn apply_moves_to_stacks(stacks: &Vec<Vec<char>>, moves: &Vec<Move>, reverse_appending: bool) -> (r: Vec<Vec<char>>)
    requires
        apply_moves(stacks_view(stacks), moves@, reverse_appending) is Some,
    ensures
        Some(stacks_view(&r)) == apply_moves(stacks_view(stacks), moves@, reverse_appending),
{
    let mut out: Vec<Vec<char>> = Vec::new();
    let mut i: usize = 0;
    while i < stacks.len()
        invariant
            i <= stacks@.len(),
            out@.len() == i,
            forall|k: int| 0 <= k < i ==> #[trigger] out@[k]@ == stacks@[k]@,
        decreases stacks@.len() - i,
    {
        out.push(copy_chars(&stacks[i], 0, stacks[i].len()));
        assert(stacks@[i as int]@.subrange(0, stacks@[i as int]@.len() as int) =~= stacks@[i as int]@);
        i = i + 1;
    }
    assert(stacks_view(&out) =~= stacks_view(stacks));
    let mut j: usize = 0;
    while j < moves.len()
        invariant
            j <= moves@.len(),
            apply_moves(stacks_view(stacks), moves@, reverse_appending) is Some,
            Some(stacks_view(&out)) == apply_moves(stacks_view(stacks), moves@.subrange(0, j as int), reverse_appending),
        decreases moves@.len() - j,
    {
        let ghost before = stacks_view(&out);
        proof {
            assert(moves@.subrange(0, j + 1).drop_last() =~= moves@.subrange(0, j as int));
            lemma_prefix_some(stacks_view(stacks), moves@, j + 1, reverse_appending);
        }
        let m = moves[j];
        assert(move_ok(before, m));
        let o = &out[m.origin];
        assert(o@ == before[m.origin as int]);
        let cut = o.len() - m.count;
        let top = copy_chars(o, cut, o.len());
        let rest = copy_chars(o, 0, cut);
        out.set(m.origin, rest);
        let ghost mid = stacks_view(&out);
        assert(mid =~= before.update(m.origin as int, before[m.origin as int].subrange(0, cut as int)));
        let mut dest = copy_chars(&out[m.destination], 0, out[m.destination].len());
        assert(out@[m.destination as int]@.subrange(0, out@[m.destination as int]@.len() as int) =~= out@[m.destination as int]@);
        let ghost dest0 = dest@;
        let n = top.len();
        let mut k: usize = 0;
        while k < n
            invariant
                n == top@.len(),
                k <= n,
                dest@ == dest0 + (if reverse_appending { top@.reverse() } else { top@ }).subrange(0, k as int),
            decreases n - k,
        {
            let c = if reverse_appending { top[n - 1 - k] } else { top[k] };
            dest.push(c);
            proof {
                let added = if reverse_appending { top@.reverse() } else { top@ };
                assert(added[k as int] == c);
                assert(dest0 + added.subrange(0, k + 1) =~= (dest0 + added.subrange(0, k as int)).push(c));
            }
            k = k + 1;
        }
        proof {
            let added = if reverse_appending { top@.reverse() } else { top@ };
            assert(added.subrange(0, n as int) =~= added);
        }
        out.set(m.destination, dest);
        assert(stacks_view(&out) =~= apply_move(before, m, reverse_appending));
        j = j + 1;
    }
    assert(moves@.subrange(0, moves@.len() as int) =~= moves@);
    out
}

/// When the moves can all be carried out, so can each first part of them.
proof fn lemma_prefix_some(s: Seq<Seq<char>>, moves: Seq<Move>, k: int, rev: bool)
    requires
        0 <= k <= moves.len(),
        apply_moves(s, moves, rev) is Some,
    ensures
        apply_moves(s, moves.subrange(0, k), rev) is Some,
    decreases moves.len() - k,
{
    if k < moves.len() {
        let next = moves.subrange(0, k + 1);
        lemma_prefix_some(s, moves, k + 1, rev);
        assert(next.drop_last() =~= moves.subrange(0, k));
    } else {
        assert(moves.subrange(0, k) =~= moves);
    }
}

/// The words among `ws` that are unsigned integers of at most `usize::MAX`, as values.
pub open spec fn word_numbers(ws: Seq<Seq<u8>>) -> Seq<int>
    decreases ws.len(),
{
    if ws.len() == 0 {
        Seq::empty()
    } else {
        let rest = word_numbers(ws.drop_last());
        match unsigned_of(ws.last(), usize::MAX as int) {
            Some(v) => rest.push(v),
            None => rest,
        }
    }
}

/// The move a line describes: among its first seven space-separated words exactly three
/// are numbers, `count`, `from` and `to`, with stacks numbered from 1.
pub open spec fn move_of(line: Seq<u8>) -> Option<Move> {
    let ws = pieces_of(line, 32u8);
    let first = ws.subrange(0, if ws.len() < 7 { ws.len() as int } else { 7 });
    let ns = word_numbers(first);
    if ns.len() == 3 && ns[1] >= 1 && ns[2] >= 1 {
        Some(Move { count: ns[0] as usize, origin: (ns[1] - 1) as usize, destination: (ns[2] - 1) as usize })
    } else {
        None
    }
}

/// The moves of the lines (split at every newline) that describe one.
pub open spec fn moves_of(lines: Seq<Seq<u8>>) -> Seq<Move>
    decreases lines.len(),
{
    if lines.len() == 0 {
        Seq::empty()
    } else {
        let rest = moves_of(lines.drop_last());
        match move_of(lines.last()) {
            Some(m) => rest.push(m),
            None => rest,
        }
    }
}

fn parse_move(line: &Vec<u8>) -> (r: Option<Move>)
    ensures
        r == move_of(line@),
{
    let ws = split_pieces(line.as_slice(), 32u8);
    let ghost wv = pieces_of(line@, 32u8);
    let limit: usize = if ws.len() < 7 { ws.len() } else { 7 };
    let ghost first = wv.subrange(0, limit as int);
    let mut ns: Vec<usize> = Vec::new();
    let mut k: usize = 0;
    while k < limit
        invariant
            ws@.len() == wv.len(),
            forall|i: int| 0 <= i < ws@.len() ==> #[trigger] ws@[i]@ == wv[i],
            limit <= ws@.len(),
            first == wv.subrange(0, limit as int),
            k <= limit,
            ns@.len() == word_numbers(first.subrange(0, k as int)).len(),
            forall|i: int| 0 <= i < ns@.len() ==> #[trigger] ns@[i] == word_numbers(first.subrange(0, k as int))[i],
        decreases limit - k,
    {
        assert(first.subrange(0, k + 1).drop_last() =~= first.subrange(0, k as int));
        assert(first.subrange(0, k + 1).last() == ws@[k as int]@);
        let v = parse_u64(ws[k].as_slice());
        let ghost before = ns@;
        match v {
            Some(v) => {
                if v <= usize::MAX as u64 {
                    ns.push(v as usize);
                } else {
                    assert(unsigned_of(ws@[k as int]@, usize::MAX as int) is None);
                }
            },
            None => {
                assert(unsigned_of(ws@[k as int]@, usize::MAX as int) is None) by {
                    assert(unsigned_of(ws@[k as int]@, u64::MAX as int) is None);
                }
            },
        }
        k = k + 1;
    }
    assert(first.subrange(0, limit as int) =~= first);
    if ns.len() == 3 && ns[1] >= 1 && ns[2] >= 1 {
        Some(Move { count: ns[0], origin: ns[1] - 1, destination: ns[2] - 1 })
    } else {
        None
    }
}

/// The moves listed in a text, one per line; lines that describe no move are skipped.
pub fn parse_moves(moves_str: String) -> (r: Vec<Move>)
    ensures
        r@ == moves_of(pieces_of(encode_utf8(moves_str@), 10u8)),
{
    let b = moves_str.as_str().as_bytes();
    let lines = split_pieces(b, 10u8);
    let ghost lv = pieces_of(b@, 10u8);
    let mut out: Vec<Move> = Vec::new();
    let mut i: usize = 0;
    while i < lines.len()
        invariant
            lines@.len() == lv.len(),
            forall|k: int| 0 <= k < lines@.len() ==> #[trigger] lines@[k]@ == lv[k],
            i <= lv.len(),
            out@ == moves_of(lv.subrange(0, i as int)),
        decreases lv.len() - i,
    {
        assert(lv.subrange(0, i + 1).drop_last() =~= lv.subrange(0, i as int));
        assert(lv.subrange(0, i + 1).last() == lines@[i as int]@);
        match parse_move(&lines[i]) {
            Some(m) => out.push(m),
            None => {},
        }
        i = i + 1;
    }
    assert(lv.subrange(0, lv.len() as int) =~= lv);
    out
}

pub open spec fn is_letter(c: u8) -> bool {
    (65 <= c <= 90) || (97 <= c <= 122)
}

/// Row `row` holds a crate for stack `k`: a letter in column `4 * k + 1`.
pub open spec fn crate_at(row: Seq<u8>, k: int) -> bool {
    4 * k + 1 < row.len() && is_letter(row[4 * k + 1])
}

/// Stack `k` read from rows given bottom first.
pub open spec fn column(rows: Seq<Seq<u8>>, k: int) -> Seq<char>
    decreases rows.len(),
{
    if rows.len() == 0 {
        Seq::empty()
    } else {
        column(rows.drop_last(), k) + if crate_at(rows.last(), k) {
            seq![rows.last()[4 * k + 1] as char]
        } else {
            Seq::empty()
        }
    }
}

/// The largest number on the label line, 0 for none.
pub open spec fn label_count(ws: Seq<Seq<u8>>) -> int
    decreases ws.len(),
{
    if ws.len() == 0 {
        0
    } else {
        let rest = label_count(ws.drop_last());
        match unsigned_of(ws.last(), usize::MAX as int) {
            Some(v) => if v > rest { v } else { rest },
            None => rest,
        }
    }
}

/// The crate rows of a drawing, bottom first: every line but the last (the labels),
/// from the last one up.
pub open spec fn crate_rows(lines: Seq<Seq<u8>>) -> Seq<Seq<u8>> {
    lines.subrange(0, lines.len() - 1).reverse()
}

/// A crate lies right of the last labelled stack.
pub open spec fn crate_outside(rows: Seq<Seq<u8>>, count: int) -> bool {
    exists|r: int, k: int| 0 <= r < rows.len() && k >= count && #[trigger] crate_at(rows[r], k)
}

fn label_max(line: &Vec<u8>) -> (r: usize)
    ensures
        r == label_count(pieces_of(line@, 32u8)),
{
    let ws = split_pieces(line.as_slice(), 32u8);
    let ghost wv = pieces_of(line@, 32u8);
    let mut best: usize = 0;
    let mut k: usize = 0;
    while k < ws.len()
        invariant
            ws@.len() == wv.len(),
            forall|i: int| 0 <= i < ws@.len() ==> #[trigger] ws@[i]@ == wv[i],
            k <= ws@.len(),
            best == label_count(wv.subrange(0, k as int)),
        decreases ws@.len() - k,
    {
        assert(wv.subrange(0, k + 1).drop_last() =~= wv.subrange(0, k as int));
        assert(wv.subrange(0, k + 1).last() == ws@[k as int]@);
        match parse_u64(ws[k].as_slice()) {
            Some(v) => {
                if v <= usize::MAX as u64 {
                    if v as usize > best {
                        best = v as usize;
                    }
                } else {
                    assert(unsigned_of(ws@[k as int]@, usize::MAX as int) is None);
                }
            },
            None => {
                assert(unsigned_of(ws@[k as int]@, usize::MAX as int) is None) by {
                    assert(unsigned_of(ws@[k as int]@, u64::MAX as int) is None);
                }
            },
        }
        k = k + 1;
    }
    assert(wv.subrange(0, wv.len() as int) =~= wv);
    best
}

/// Reads a drawing of crate stacks whose last line labels the stacks; `None` when a
/// crate lies beyond the last labelled stack.
pub fn parse_stacks(stack_str: String) -> (r: Option<Vec<Vec<char>>>)
    ensures
        ({
            let lines = pieces_of(encode_utf8(stack_str@), 10u8);
            let count = label_count(pieces_of(lines.last(), 32u8));
            let rows = crate_rows(lines);
            &&& r is None <==> crate_outside(rows, count)
            &&& r matches Some(v) ==> v@.len() == count && forall|k: int| 0 <= k < count ==> #[trigger] v@[k]@ == column(rows, k)
        }),
{
    let b = stack_str.as_str().as_bytes();
    let lines = split_pieces(b, 10u8);
    let ghost lv = pieces_of(b@, 10u8);
    let ghost rows = crate_rows(lv);
    assert(lv == pieces_of(encode_utf8(stack_str@), 10u8));
    assert(lines@[lines@.len() - 1]@ == lv.last());
    let count = label_max(&lines[lines.len() - 1]);
    let mut stacks: Vec<Vec<char>> = Vec::new();
    let mut k: usize = 0;
    while k < count
        invariant
            k <= count,
            stacks@.len() == k,
            forall|i: int| 0 <= i < k ==> #[trigger] stacks@[i]@ == Seq::<char>::empty(),
        decreases count - k,
    {
        stacks.push(Vec::new());
        k = k + 1;
    }
    let n_rows = lines.len() - 1;
    let mut done: usize = 0;
    while done < n_rows
        invariant
            lv == pieces_of(encode_utf8(stack_str@), 10u8),
            count == label_count(pieces_of(lv.last(), 32u8)),
            lines@.len() == lv.len(),
            forall|i: int| 0 <= i < lines@.len() ==> #[trigger] lines@[i]@ == lv[i],
            n_rows == lv.len() - 1,
            rows == crate_rows(lv),
            rows.len() == n_rows,
            done <= n_rows,
            stacks@.len() == count,
            forall|i: int| 0 <= i < count ==> #[trigger] stacks@[i]@ == column(rows.subrange(0, done as int), i),
            forall|r: int, c: int| 0 <= r < done && c >= count ==> !#[trigger] crate_at(rows[r], c),
        decreases n_rows - done,
    {
        let li = n_rows - 1 - done;
        let line = &lines[li];
        assert(rows[done as int] == lv[li as int]);
        assert(line@ == rows[done as int]);
        let ghost row = rows[done as int];
        let ghost base = rows.subrange(0, done as int);
        assert(rows.subrange(0, done + 1).drop_last() =~= base);
        assert(rows.subrange(0, done + 1).last() == row);
        let mut j: usize = 0;
        while j < line.len()
            invariant
                lv == pieces_of(encode_utf8(stack_str@), 10u8),
                count == label_count(pieces_of(lv.last(), 32u8)),
                rows == crate_rows(lv),
                done < rows.len(),
                row == rows[done as int],
                line@ == row,
                j <= row.len(),
                stacks@.len() == count,
                forall|i: int| 0 <= i < count ==> #[trigger] stacks@[i]@ == column(base, i) + if crate_at(row, i) && 4 * i + 1 < j {
                    seq![row[4 * i + 1] as char]
                } else {
                    Seq::empty()
                },
                forall|c: int| c >= count && 4 * c + 1 < j ==> !#[trigger] crate_at(row, c),
            decreases row.len() - j,
        {
            let c = line[j];
            if j % 4 == 1 && ((c >= 65 && c <= 90) || (c >= 97 && c <= 122)) {
                let idx = (j - 1) / 4;
                assert(4 * idx + 1 == j);
                assert(crate_at(row, idx as int));
                if idx >= count {
                    proof {
                        assert(crate_at(rows[done as int], idx as int));
                    }
                    return None;
                }
                let ghost before = stacks@;
                let mut s = stacks.remove(idx);
                s.push(c as char);
                stacks.insert(idx, s);
                assert forall|i: int| 0 <= i < count && i != idx implies #[trigger] stacks@[i] == before[i] by {}
            }
            j = j + 1;
        }
        assert forall|i: int| 0 <= i < count implies #[trigger] stacks@[i]@ == column(rows.subrange(0, done + 1), i) by {
            if crate_at(row, i) {
                assert(4 * i + 1 < row.len());
            }
        }
        assert forall|r: int, c: int| 0 <= r < done + 1 && c >= count implies !#[trigger] crate_at(rows[r], c) by {
            if r == done as int {
                if crate_at(row, c) {
                    assert(4 * c + 1 < row.len());
                }
            }
        }
        done = done + 1;
    }
    assert(rows.subrange(0, n_rows as int) =~= rows);
    Some(stacks)
}

} // verus!
