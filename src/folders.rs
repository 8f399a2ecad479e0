//! Directory sizes reconstructed from a terminal session of `cd` and `ls`.
//!
//! Folders live in an arena: folder 0 is the root, and a folder is always added after
//! its parent, so every child has a larger index than its parent.

use vstd::prelude::*;
use vstd::string::StringSliceAdditionalSpecFns;
use crate::text::{all_digits, decimal, is_ascii_digit, lemma_decimal_prefix_bound, lemma_decimal_step, lines_of, pieces_of, split_lines, split_pieces};

verus! {

#[derive(Debug)]
pub struct Folder {
    pub name: Vec<u8>,
    /// Size of the files directly in the folder.
    pub files_size: u128,
    /// Size of everything below the folder, its own files included.
    pub total_size: u128,
    pub children: Vec<usize>,
    pub parent: usize,
}

/// Every child index lies after its parent and inside the arena; every parent before.
pub open spec fn arena_ok(fs: Seq<Folder>) -> bool {
    &&& fs.len() >= 1
    &&& forall|i: int, k: int|
        0 <= i < fs.len() && 0 <= k < fs[i].children@.len() ==> i < #[trigger] fs[i].children@[k] < fs.len()
    &&& forall|i: int| 0 < i < fs.len() ==> #[trigger] fs[i].parent < i
    &&& fs[0].parent == 0
}

/// Size of everything below folder `i`.
pub open spec fn tree_size(fs: Seq<Folder>, i: int) -> int
    decreases fs.len() - i, 1int,
{
    if 0 <= i < fs.len() {
        fs[i].files_size + children_size(fs, i, fs[i].children@.len() as int)
    } else {
        0
    }
}

/// Sum of the tree sizes of the first `k` children of folder `i`.
pub open spec fn children_size(fs: Seq<Folder>, i: int, k: int) -> int
    decreases fs.len() - i, 0int, k,
{
    if k <= 0 || i < 0 || i >= fs.len() || k > fs[i].children@.len() {
        0
    } else {
        let c = fs[i].children@[k - 1] as int;
        children_size(fs, i, k - 1) + if i < c < fs.len() { tree_size(fs, c) } else { 0 }
    }
}

/// Sum of the tree sizes below `max_size` over folder `i` and everything below it.
pub open spec fn small_sum(fs: Seq<Folder>, i: int, max_size: int) -> int
    decreases fs.len() - i, 1int,
{
    if 0 <= i < fs.len() {
        (if fs[i].total_size < max_size { fs[i].total_size as int } else { 0 }) + children_small_sum(
            fs,
            i,
            fs[i].children@.len() as int,
            max_size,
        )
    } else {
        0
    }
}

pub open spec fn children_small_sum(fs: Seq<Folder>, i: int, k: int, max_size: int) -> int
    decreases fs.len() - i, 0int, k,
{
    if k <= 0 || i < 0 || i >= fs.len() || k > fs[i].children@.len() {
        0
    } else {
        let c = fs[i].children@[k - 1] as int;
        children_small_sum(fs, i, k - 1, max_size) + if i < c < fs.len() {
            small_sum(fs, c, max_size)
        } else {
            0
        }
    }
}

/// Every folder's total is its tree size.
pub open spec fn totals_ok(fs: Seq<Folder>) -> bool {
    forall|i: int| 0 <= i < fs.len() ==> #[trigger] fs[i].total_size == tree_size(fs, i)
}

proof fn lemma_small_sum_nonneg(fs: Seq<Folder>, i: int, max_size: int)
    ensures
        small_sum(fs, i, max_size) >= 0,
    decreases fs.len() - i, 1int,
{
    if 0 <= i < fs.len() {
        lemma_children_small_sum_nonneg(fs, i, fs[i].children@.len() as int, max_size);
    }
}

proof fn lemma_children_small_sum_nonneg(fs: Seq<Folder>, i: int, k: int, max_size: int)
    ensures
        children_small_sum(fs, i, k, max_size) >= 0,
    decreases fs.len() - i, 0int, k,
{
    if !(k <= 0 || i < 0 || i >= fs.len() || k > fs[i].children@.len()) {
        lemma_children_small_sum_nonneg(fs, i, k - 1, max_size);
        let c = fs[i].children@[k - 1] as int;
        if i < c < fs.len() {
            lemma_small_sum_nonneg(fs, c, max_size);
        }
    }
}

proof fn lemma_children_small_sum_prefix(fs: Seq<Folder>, i: int, k: int, max_size: int)
    requires
        0 <= i < fs.len(),
        0 <= k <= fs[i].children@.len(),
    ensures
        children_small_sum(fs, i, k, max_size) <= children_small_sum(fs, i, fs[i].children@.len() as int, max_size),
    decreases fs[i].children@.len() - k,
{
    if k < fs[i].children@.len() {
        lemma_children_small_sum_prefix(fs, i, k + 1, max_size);
        let c = fs[i].children@[k] as int;
        if i < c < fs.len() {
            lemma_small_sum_nonneg(fs, c, max_size);
        }
    }
}

/// Sum of the sizes below `max_size` of folder `index` and of every folder below it.
pub fn find_sum_of_small_folder_sizes(folders: &Vec<Folder>, index: usize, max_size: u128) -> (r: u128)
    requires
        arena_ok(folders@),
        index < folders@.len(),
        small_sum(folders@, index as int, max_size as int) <= u128::MAX,
    ensures
        r == small_sum(folders@, index as int, max_size as int),
    decreases folders@.len() - index,
{
    let ghost fs = folders@;
    let folder = &folders[index];
    let own: u128 = if folder.total_size < max_size { folder.total_size } else { 0 };
    let mut sum: u128 = own;
    let mut k: usize = 0;
    proof {
        lemma_children_small_sum_nonneg(fs, index as int, fs[index as int].children@.len() as int, max_size as int);
    }
    while k < folders[index].children.len()
        invariant
            fs == folders@,
            arena_ok(fs),
            index < fs.len(),
            k <= fs[index as int].children@.len(),
            small_sum(fs, index as int, max_size as int) <= u128::MAX,
            own == (if fs[index as int].total_size < max_size { fs[index as int].total_size as int } else { 0 }),
            sum == own + children_small_sum(fs, index as int, k as int, max_size as int),
        decreases fs[index as int].children@.len() - k,
    {
        let c = folders[index].children[k];
        assert(index < c < fs.len());
        proof {
            lemma_children_small_sum_prefix(fs, index as int, k + 1, max_size as int);
            lemma_children_small_sum_nonneg(fs, index as int, k as int, max_size as int);
            assert(c == fs[index as int].children@[k as int]);
            assert(children_small_sum(fs, index as int, k + 1, max_size as int) == children_small_sum(
                fs,
                index as int,
                k as int,
                max_size as int,
            ) + small_sum(fs, c as int, max_size as int));
        }
        let part = find_sum_of_small_folder_sizes(folders, c, max_size);
        sum = sum + part;
        k = k + 1;
    }
    sum
}

/// The two arenas hold the same tree: same files and children everywhere.
pub open spec fn same_tree(fs: Seq<Folder>, gs: Seq<Folder>) -> bool {
    &&& fs.len() == gs.len()
    &&& forall|i: int|
        0 <= i < fs.len() ==> (#[trigger] fs[i]).files_size == gs[i].files_size && fs[i].children@
            == gs[i].children@ && fs[i].parent == gs[i].parent && fs[i].name@ == gs[i].name@
}

proof fn lemma_tree_size_frame(fs: Seq<Folder>, gs: Seq<Folder>, i: int)
    requires
        same_tree(fs, gs),
    ensures
        tree_size(fs, i) == tree_size(gs, i),
    decreases fs.len() - i, 1int,
{
    if 0 <= i < fs.len() {
        lemma_children_size_frame(fs, gs, i, fs[i].children@.len() as int);
    }
}

proof fn lemma_children_size_frame(fs: Seq<Folder>, gs: Seq<Folder>, i: int, k: int)
    requires
        same_tree(fs, gs),
    ensures
        children_size(fs, i, k) == children_size(gs, i, k),
    decreases fs.len() - i, 0int, k,
{
    if !(k <= 0 || i < 0 || i >= fs.len() || k > fs[i].children@.len()) {
        lemma_children_size_frame(fs, gs, i, k - 1);
        let c = fs[i].children@[k - 1] as int;
        if i < c < fs.len() {
            lemma_tree_size_frame(fs, gs, c);
        }
    }
}

proof fn lemma_children_size_bound(fs: Seq<Folder>, i: int, k: int)
    requires
        0 <= i < fs.len(),
        0 <= k <= fs[i].children@.len(),
    ensures
        0 <= children_size(fs, i, k) <= children_size(fs, i, fs[i].children@.len() as int),
    decreases fs[i].children@.len() - k,
{
    lemma_children_size_nonneg(fs, i, k);
    if k < fs[i].children@.len() {
        lemma_children_size_bound(fs, i, k + 1);
        let c = fs[i].children@[k] as int;
        if i < c < fs.len() {
            lemma_tree_size_nonneg(fs, c);
        }
        assert(children_size(fs, i, k + 1) == children_size(fs, i, k) + if i < c < fs.len() {
            tree_size(fs, c)
        } else {
            0
        });
    }
}

proof fn lemma_tree_size_nonneg(fs: Seq<Folder>, i: int)
    ensures
        tree_size(fs, i) >= 0,
    decreases fs.len() - i, 1int,
{
    if 0 <= i < fs.len() {
        lemma_children_size_nonneg(fs, i, fs[i].children@.len() as int);
    }
}

proof fn lemma_children_size_nonneg(fs: Seq<Folder>, i: int, k: int)
    ensures
        children_size(fs, i, k) >= 0,
    decreases fs.len() - i, 0int, k,
{
    if !(k <= 0 || i < 0 || i >= fs.len() || k > fs[i].children@.len()) {
        lemma_children_size_nonneg(fs, i, k - 1);
        let c = fs[i].children@[k - 1] as int;
        if i < c < fs.len() {
            lemma_tree_size_nonneg(fs, c);
        }
    }
}

fn copy_indices(v: &Vec<usize>) -> (r: Vec<usize>)
    ensures
        r@ == v@,
{
    let mut out: Vec<usize> = Vec::new();
    let mut k: usize = 0;
    while k < v.len()
        invariant
            k <= v@.len(),
            out@ == v@.subrange(0, k as int),
        decreases v@.len() - k,
    {
        out.push(v[k]);
        assert(v@.subrange(0, k + 1) =~= v@.subrange(0, k as int).push(v@[k as int]));
        k = k + 1;
    }
    assert(v@.subrange(0, v@.len() as int) =~= v@);
    out
}

/// Sets the total size of folder `index` and of every folder after it (so of every
/// folder below it): its files plus the totals of its children.
pub fn calc_folder_total_size(folders: &mut Vec<Folder>, index: usize)
    requires
        arena_ok(old(folders)@),
        index < old(folders)@.len(),
        forall|i: int| index <= i < old(folders)@.len() ==> #[trigger] tree_size(old(folders)@, i) <= u128::MAX,
    ensures
        same_tree(old(folders)@, final(folders)@),
        forall|i: int| index <= i < final(folders)@.len() ==> #[trigger] final(folders)@[i].total_size == tree_size(
            old(folders)@,
            i,
        ),
        forall|i: int| 0 <= i < index ==> #[trigger] final(folders)@[i].total_size == old(folders)@[i].total_size,
{
    let ghost fs0 = folders@;
    let n = folders.len();
    let mut j: usize = n;
    while j > index
        invariant
            n == folders@.len(),
            index < n,
            index <= j <= n,
            arena_ok(fs0),
            same_tree(fs0, folders@),
            forall|i: int| index <= i < n ==> #[trigger] tree_size(fs0, i) <= u128::MAX,
            forall|i: int| j <= i < n ==> #[trigger] folders@[i].total_size == tree_size(fs0, i),
            forall|i: int| 0 <= i < j ==> #[trigger] folders@[i].total_size == fs0[i].total_size,
        decreases j,
    {
        let t = j - 1;
        let ghost cur = folders@;
        assert(cur[t as int].children@ == fs0[t as int].children@);
        let children = copy_indices(&folders[t].children);
        let mut sum: u128 = folders[t].files_size;
        let mut k: usize = 0;
        proof {
            lemma_children_size_bound(fs0, t as int, 0);
            lemma_tree_size_nonneg(fs0, t as int);
        }
        while k < children.len()
            invariant
                cur == folders@,
                n == cur.len(),
                t < n,
                arena_ok(fs0),
                same_tree(fs0, cur),
                children@ == fs0[t as int].children@,
                forall|i: int| t < i < n ==> #[trigger] cur[i].total_size == tree_size(fs0, i),
                tree_size(fs0, t as int) <= u128::MAX,
                k <= children@.len(),
                sum == fs0[t as int].files_size + children_size(fs0, t as int, k as int),
            decreases children@.len() - k,
        {
            let c = children[k];
            assert(t < c < n);
            proof {
                lemma_children_size_bound(fs0, t as int, k + 1);
                assert(children_size(fs0, t as int, k + 1) == children_size(fs0, t as int, k as int) + tree_size(fs0, c as int));
                lemma_children_size_bound(fs0, t as int, k as int);
            }
            sum = sum + folders[c].total_size;
            k = k + 1;
        }
        let old_folder = folders.remove(t);
        let updated = Folder {
            name: old_folder.name,
            files_size: old_folder.files_size,
            total_size: sum,
            children: old_folder.children,
            parent: old_folder.parent,
        };
        folders.insert(t, updated);
        assert forall|i: int| 0 <= i < n implies #[trigger] folders@[i] == if i == t { updated } else { cur[i] } by {}
        j = t;
    }
}

/// Disk size and the free space an update needs.
pub const DISK_SIZE: u128 = 70_000_000;

pub const NEEDED_FREE: u128 = 30_000_000;

/// The smallest folder total that is at least `target`, if any.
pub open spec fn is_min_at_least(fs: Seq<Folder>, target: int, v: int) -> bool {
    &&& v >= target
    &&& exists|i: int| 0 <= i < fs.len() && #[trigger] fs[i].total_size == v
    &&& forall|i: int| 0 <= i < fs.len() && #[trigger] fs[i].total_size >= target ==> v <= fs[i].total_size
}

/// The size of the smallest folder whose deletion frees enough space for the update,
/// given that the root's total is the used space.
pub fn find_min_folder_to_delete(folders: &Vec<Folder>) -> (r: Option<u128>)
    requires
        folders@.len() >= 1,
        DISK_SIZE - NEEDED_FREE <= folders@[0].total_size <= DISK_SIZE,
    ensures
        ({
            let target = NEEDED_FREE - (DISK_SIZE - folders@[0].total_size);
            &&& r is None <==> forall|i: int| 0 <= i < folders@.len() ==> #[trigger] folders@[i].total_size < target
            &&& r matches Some(v) ==> is_min_at_least(folders@, target, v as int)
        }),
{
    let target = NEEDED_FREE - (DISK_SIZE - folders[0].total_size);
    let mut best: Option<u128> = None;
    let mut k: usize = 0;
    while k < folders.len()
        invariant
            k <= folders@.len(),
            target == NEEDED_FREE - (DISK_SIZE - folders@[0].total_size),
            best is None <==> forall|i: int| 0 <= i < k ==> #[trigger] folders@[i].total_size < target,
            best matches Some(v) ==> is_min_at_least(folders@.subrange(0, k as int), target as int, v as int),
        decreases folders@.len() - k,
    {
        let size = folders[k].total_size;
        let ghost old_best = best;
        if size >= target {
            match best {
                Some(b) => {
                    if size < b {
                        best = Some(size);
                    }
                },
                None => {
                    best = Some(size);
                },
            }
        }
        proof {
            let p = folders@.subrange(0, k as int);
            let q = folders@.subrange(0, k + 1);
            assert(q[k as int] == folders@[k as int]);
            assert forall|i: int| 0 <= i < k implies q[i] == p[i] by {}
            if let Some(v) = best {
                if old_best == best {
                    let w = choose|i: int| 0 <= i < p.len() && #[trigger] p[i].total_size == v;
                    assert(q[w].total_size == v);
                } else {
                    assert(q[k as int].total_size == v);
                }
            }
        }
        k = k + 1;
    }
    assert(folders@.subrange(0, folders@.len() as int) =~= folders@);
    best
}

/// A folder as its name, the size of its own files, its children and its parent.
pub open spec fn model_of(fs: Seq<Folder>) -> Seq<(Seq<u8>, int, Seq<usize>, usize)> {
    Seq::new(fs.len(), |i: int| (fs[i].name@, fs[i].files_size as int, fs[i].children@, fs[i].parent))
}

/// The `u128` a word writes: decimal digits, optionally after a `+`.
pub open spec fn u128_of(f: Seq<u8>) -> Option<int> {
    let d = if f.len() > 0 && f[0] == 43u8 { f.subrange(1, f.len() as int) } else { f };
    if all_digits(d) && decimal(d) <= u128::MAX {
        Some(decimal(d))
    } else {
        None
    }
}

pub open spec fn w_dollar() -> Seq<u8> {
    seq![36u8]
}

pub open spec fn w_ls() -> Seq<u8> {
    seq![108u8, 115u8]
}

pub open spec fn w_cd() -> Seq<u8> {
    seq![99u8, 100u8]
}

pub open spec fn w_root() -> Seq<u8> {
    seq![47u8]
}

pub open spec fn w_up() -> Seq<u8> {
    seq![46u8, 46u8]
}

pub open spec fn w_dir() -> Seq<u8> {
    seq![100u8, 105u8, 114u8]
}

/// What one line of the session does to the folders and the current folder `cur`:
/// `$ cd /`, `$ cd ..` and `$ cd name` move (the last one into a new folder),
/// `size name` adds a file size to the current folder, and `$ ls`, `dir name` and any
/// other line change nothing. A line shorter than 4 bytes, or a folder whose own files
/// would exceed `u128::MAX`, ends the session with `None`.
pub open spec fn session_step(
    fs: Seq<(Seq<u8>, int, Seq<usize>, usize)>,
    cur: int,
    line: Seq<u8>,
) -> Option<(Seq<(Seq<u8>, int, Seq<usize>, usize)>, int)> {
    let t = pieces_of(line, 32u8);
    if line.len() < 4 {
        None
    } else if t == seq![w_dollar(), w_ls()] {
        Some((fs, cur))
    } else if t == seq![w_dollar(), w_cd(), w_root()] {
        Some((fs, 0))
    } else if t.len() == 2 && t[0] == w_dir() {
        Some((fs, cur))
    } else if t == seq![w_dollar(), w_cd(), w_up()] {
        Some((fs, fs[cur].3 as int))
    } else if t.len() == 3 && t[0] == w_dollar() && t[1] == w_cd() {
        let n = fs.len();
        let f = fs[cur];
        Some((fs.update(cur, (f.0, f.1, f.2.push(n as usize), f.3)).push((t[2], 0, Seq::empty(), cur as usize)), n as int))
    } else if t.len() == 2 && u128_of(t[0]) is Some {
        let f = fs[cur];
        let v = f.1 + u128_of(t[0]).unwrap();
        if v > u128::MAX {
            None
        } else {
            Some((fs.update(cur, (f.0, v, f.2, f.3)), cur))
        }
    } else {
        Some((fs, cur))
    }
}

/// The folders after a session, and the current folder.
pub open spec fn session(ls: Seq<Seq<u8>>) -> Option<(Seq<(Seq<u8>, int, Seq<usize>, usize)>, int)>
    decreases ls.len(),
{
    if ls.len() == 0 {
        Some((seq![(w_root(), 0int, Seq::<usize>::empty(), 0usize)], 0))
    } else {
        match session(ls.drop_last()) {
            Some((fs, cur)) => session_step(fs, cur, ls.last()),
            None => None,
        }
    }
}

fn bytes_eq(v: &Vec<u8>, w: &Vec<u8>) -> (r: bool)
    ensures
        r == (v@ == w@),
{
    if v.len() != w.len() {
        return false;
    }
    let mut k: usize = 0;
    while k < v.len()
        invariant
            v@.len() == w@.len(),
            k <= v@.len(),
            forall|i: int| 0 <= i < k ==> v@[i] == w@[i],
        decreases v@.len() - k,
    {
        if v[k] != w[k] {
            return false;
        }
        k = k + 1;
    }
    assert(v@ =~= w@);
    true
}

/// The `u128` a word writes.
fn parse_u128(f: &Vec<u8>) -> (r: Option<u128>)
    ensures
        r is Some == u128_of(f@) is Some,
        r matches Some(v) ==> u128_of(f@) == Some(v as int),
{
    let from: usize = if f.len() > 0 && f[0] == 43u8 { 1 } else { 0 };
    let ghost d = f@.subrange(from as int, f@.len() as int);
    assert(from == 0 ==> d =~= f@);
    assert(u128_of(f@) == (if all_digits(d) && decimal(d) <= u128::MAX {
        Some(decimal(d))
    } else {
        None
    }));
    if from >= f.len() {
        assert(!all_digits(d));
        return None;
    }
    let mut k = from;
    let mut value: u128 = 0;
    while k < f.len()
        invariant
            d == f@.subrange(from as int, f@.len() as int),
            from < f@.len(),
            from <= k <= f@.len(),
            forall|i: int| 0 <= i < k - from ==> is_ascii_digit(#[trigger] d[i]),
            value == decimal(d.subrange(0, k - from)),
            u128_of(f@) == (if all_digits(d) && decimal(d) <= u128::MAX {
                Some(decimal(d))
            } else {
                None
            }),
        decreases f@.len() - k,
    {
        let c = f[k];
        assert(c == d[k - from]);
        if !(c >= 48 && c <= 57) {
            assert(!is_ascii_digit(d[k - from]));
            return None;
        }
        proof {
            lemma_decimal_step(d, k - from);
        }
        let digit = (c - 48) as u128;
        if value > (u128::MAX - digit) / 10 {
            proof {
                assert(value * 10 + digit > u128::MAX) by (nonlinear_arith)
                    requires
                        value > (u128::MAX - digit) / 10,
                        digit <= 9,
                ;
                if all_digits(d) {
                    lemma_decimal_prefix_bound(d, k - from + 1);
                }
            }
            return None;
        }
        value = value * 10 + digit;
        k = k + 1;
    }
    assert(d.subrange(0, d.len() as int) =~= d);
    Some(value)
}

/// Like `calc_folder_total_size` for the whole arena, but reports `false` instead of
/// overflowing.
fn fill_totals(folders: &mut Vec<Folder>) -> (ok: bool)
    requires
        arena_ok(old(folders)@),
    ensures
        same_tree(old(folders)@, final(folders)@),
        arena_ok(final(folders)@),
        ok ==> totals_ok(final(folders)@),
        !ok ==> exists|i: int| 0 <= i < old(folders)@.len() && #[trigger] tree_size(old(folders)@, i) > u128::MAX,
{
    let ghost fs0 = folders@;
    let n = folders.len();
    let mut j: usize = n;
    while j > 0
        invariant
            fs0 == old(folders)@,
            n == folders@.len(),
            j <= n,
            arena_ok(fs0),
            same_tree(fs0, folders@),
            forall|i: int| j <= i < n ==> #[trigger] folders@[i].total_size == tree_size(fs0, i),
        decreases j,
    {
        let t = j - 1;
        let ghost cur = folders@;
        let children = copy_indices(&folders[t].children);
        let mut sum: u128 = folders[t].files_size;
        let mut k: usize = 0;
        proof {
            lemma_children_size_bound(fs0, t as int, 0);
        }
        while k < children.len()
            invariant
                fs0 == old(folders)@,
                cur == folders@,
                n == cur.len(),
                t < n,
                arena_ok(fs0),
                same_tree(fs0, cur),
                children@ == fs0[t as int].children@,
                forall|i: int| t < i < n ==> #[trigger] cur[i].total_size == tree_size(fs0, i),
                k <= children@.len(),
                sum == fs0[t as int].files_size + children_size(fs0, t as int, k as int),
            decreases children@.len() - k,
        {
            let c = children[k];
            assert(t < c < n);
            proof {
                lemma_children_size_bound(fs0, t as int, k + 1);
                assert(children_size(fs0, t as int, k + 1) == children_size(fs0, t as int, k as int) + tree_size(fs0, c as int));
            }
            let add = folders[c].total_size;
            if sum > u128::MAX - add {
                proof {
                    lemma_children_size_bound(fs0, t as int, k + 1);
                    assert(tree_size(fs0, t as int) > u128::MAX);
                }
                proof {
                    lemma_same_tree_arena(fs0, folders@);
                }
                return false;
            }
            sum = sum + add;
            k = k + 1;
        }
        let old_folder = folders.remove(t);
        let updated = Folder {
            name: old_folder.name,
            files_size: old_folder.files_size,
            total_size: sum,
            children: old_folder.children,
            parent: old_folder.parent,
        };
        folders.insert(t, updated);
        assert forall|i: int| 0 <= i < n implies #[trigger] folders@[i] == if i == t { updated } else { cur[i] } by {}
        j = t;
    }
    proof {
        lemma_same_tree_arena(fs0, folders@);
        assert forall|i: int| 0 <= i < folders@.len() implies #[trigger] folders@[i].total_size == tree_size(folders@, i) by {
            lemma_tree_size_frame(fs0, folders@, i);
        }
    }
    true
}

proof fn lemma_same_tree_arena(fs: Seq<Folder>, gs: Seq<Folder>)
    requires
        same_tree(fs, gs),
        arena_ok(fs),
    ensures
        arena_ok(gs),
{
    assert forall|i: int, k: int|
        0 <= i < gs.len() && 0 <= k < gs[i].children@.len() implies i < #[trigger] gs[i].children@[k] < gs.len() by {
        assert(fs[i].children@ == gs[i].children@);
    }
    assert forall|i: int| 0 < i < gs.len() implies #[trigger] gs[i].parent < i by {
        assert(fs[i].parent == gs[i].parent);
    }
    assert(fs[0].parent == gs[0].parent);
}

/// Replaces the folder at `i` by one with the given own file size and children.
fn replace_folder(folders: &mut Vec<Folder>, i: usize, files_size: u128, extra_child: Option<usize>)
    requires
        i < old(folders)@.len(),
    ensures
        final(folders)@.len() == old(folders)@.len(),
        forall|k: int| 0 <= k < old(folders)@.len() && k != i ==> #[trigger] final(folders)@[k] == old(folders)@[k],
        final(folders)@[i as int].name@ == old(folders)@[i as int].name@,
        final(folders)@[i as int].files_size == files_size,
        final(folders)@[i as int].total_size == old(folders)@[i as int].total_size,
        final(folders)@[i as int].parent == old(folders)@[i as int].parent,
        final(folders)@[i as int].children@ == match extra_child {
            Some(c) => old(folders)@[i as int].children@.push(c),
            None => old(folders)@[i as int].children@,
        },
{
    let ghost before = folders@;
    let f = folders.remove(i);
    let mut children = f.children;
    if let Some(c) = extra_child {
        children.push(c);
    }
    let g = Folder { name: f.name, files_size, total_size: f.total_size, children, parent: f.parent };
    folders.insert(i, g);
    assert forall|k: int| 0 <= k < before.len() && k != i implies #[trigger] folders@[k] == before[k] by {}
}

/// Rebuilds the folder tree from a terminal session and computes every folder's total
/// size; `None` when a line is shorter than 4 bytes or a size exceeds `u128::MAX`.
pub fn parse_terminal_output(output: &str) -> (r: Option<Vec<Folder>>)
    ensures
        r matches Some(v) ==> session(lines_of(output.spec_bytes())) is Some && model_of(v@)
            == session(lines_of(output.spec_bytes())).unwrap().0 && arena_ok(v@) && totals_ok(v@),
        r is None ==> session(lines_of(output.spec_bytes())) is None || exists|fs: Seq<Folder>, i: int|
            model_of(fs) == session(lines_of(output.spec_bytes())).unwrap().0 && 0 <= i < fs.len()
                && #[trigger] tree_size(fs, i) > u128::MAX,
{
    let lines = split_lines(output);
    let ghost ls = lines_of(output.spec_bytes());
    let dollar: Vec<u8> = vec![36u8];
    let ls_word: Vec<u8> = vec![108u8, 115u8];
    let cd: Vec<u8> = vec![99u8, 100u8];
    let root: Vec<u8> = vec![47u8];
    let up: Vec<u8> = vec![46u8, 46u8];
    let dir: Vec<u8> = vec![100u8, 105u8, 114u8];
    assert(dollar@ == w_dollar() && ls_word@ == w_ls() && cd@ == w_cd() && root@ == w_root() && up@ == w_up() && dir@ == w_dir());
    let mut folders: Vec<Folder> = Vec::new();
    folders.push(Folder { name: vec![47u8], files_size: 0, total_size: 0, children: Vec::new(), parent: 0 });
    let mut cur: usize = 0;
    assert(model_of(folders@) =~= seq![(w_root(), 0int, Seq::<usize>::empty(), 0usize)]);
    let mut i: usize = 0;
    while i < lines.len()
        invariant
            dollar@ == w_dollar() && ls_word@ == w_ls() && cd@ == w_cd() && root@ == w_root() && up@ == w_up() && dir@ == w_dir(),
            ls == lines_of(output.spec_bytes()),
            lines@.len() == ls.len(),
            forall|k: int| 0 <= k < lines@.len() ==> #[trigger] lines@[k]@ == ls[k],
            i <= ls.len(),
            folders@.len() <= i + 1,
            session(ls.subrange(0, i as int)) == Some((model_of(folders@), cur as int)),
            arena_ok(folders@),
            cur < folders@.len(),
        decreases ls.len() - i,
    {
        let ghost fs = folders@;
        let ghost line = ls[i as int];
        assert(lines@[i as int]@ == line);
        assert(ls.subrange(0, i + 1).drop_last() =~= ls.subrange(0, i as int));
        assert(ls.subrange(0, i + 1).last() == line);
        if lines[i].len() < 4 {
            proof {
                lemma_session_none_persists(ls, i + 1);
            }
            return None;
        }
        let t = split_pieces(lines[i].as_slice(), 32u8);
        let ghost tv = pieces_of(line, 32u8);
        assert(t@.len() == tv.len());
        assert(forall|k: int| 0 <= k < t@.len() ==> #[trigger] t@[k]@ == tv[k]);
        let is_ls = t.len() == 2 && bytes_eq(&t[0], &dollar) && bytes_eq(&t[1], &ls_word);
        let is_root = t.len() == 3 && bytes_eq(&t[0], &dollar) && bytes_eq(&t[1], &cd) && bytes_eq(&t[2], &root);
        let is_dir = t.len() == 2 && bytes_eq(&t[0], &dir);
        let is_up = t.len() == 3 && bytes_eq(&t[0], &dollar) && bytes_eq(&t[1], &cd) && bytes_eq(&t[2], &up);
        let is_cd = t.len() == 3 && bytes_eq(&t[0], &dollar) && bytes_eq(&t[1], &cd);
        proof {
            if t@.len() == 2 {
                assert(is_ls == (tv =~= seq![w_dollar(), w_ls()]));
            } else {
                assert(tv != seq![w_dollar(), w_ls()]);
            }
            if t@.len() == 3 {
                assert(is_root == (tv =~= seq![w_dollar(), w_cd(), w_root()]));
                assert(is_up == (tv =~= seq![w_dollar(), w_cd(), w_up()]));
            } else {
                assert(tv != seq![w_dollar(), w_cd(), w_root()]);
                assert(tv != seq![w_dollar(), w_cd(), w_up()]);
            }
        }
        if is_ls || is_dir {
            // a listing, or a folder seen in one, changes nothing
        } else if is_root {
            cur = 0;
        } else if is_up {
            cur = folders[cur].parent;
        } else if is_cd {
            let n = folders.len();
            let name = copy_bytes(&t[2]);
            let own = folders[cur].files_size;
            replace_folder(&mut folders, cur, own, Some(n));
            folders.push(Folder { name, files_size: 0, total_size: 0, children: Vec::new(), parent: cur });
            proof {
                let f = fs[cur as int];
                let spec_fs = model_of(fs).update(cur as int, (f.name@, f.files_size as int, f.children@.push(n), f.parent)).push((tv[2], 0int, Seq::<usize>::empty(), cur));
                assert(model_of(folders@) =~= spec_fs);
                assert forall|a: int, k: int|
                    0 <= a < folders@.len() && 0 <= k < folders@[a].children@.len() implies a < #[trigger] folders@[a].children@[k] < folders@.len() by {
                    if a != cur && a < n {
                        assert(folders@[a] == fs[a]);
                    }
                }
                assert forall|a: int| 0 < a < folders@.len() implies #[trigger] folders@[a].parent < a by {
                    if a != cur && a < n {
                        assert(folders@[a] == fs[a]);
                    }
                }
                if cur != 0 {
                    assert(folders@[0] == fs[0]);
                }
            }
            cur = n;
        } else if t.len() == 2 {
            match parse_u128(&t[0]) {
                Some(v) => {
                    let files = folders[cur].files_size;
                    if files > u128::MAX - v {
                        proof {
                            assert(session_step(model_of(fs), cur as int, line) is None);
                            lemma_session_none_persists(ls, i + 1);
                        }
                        return None;
                    }
                    replace_folder(&mut folders, cur, files + v, None);
                    proof {
                        let f = fs[cur as int];
                        assert(model_of(folders@) =~= model_of(fs).update(cur as int, (f.name@, files + v, f.children@, f.parent)));
                        assert forall|a: int, k: int|
                            0 <= a < folders@.len() && 0 <= k < folders@[a].children@.len() implies a < #[trigger] folders@[a].children@[k] < folders@.len() by {
                            if a != cur {
                                assert(folders@[a] == fs[a]);
                            }
                        }
                        assert forall|a: int| 0 < a < folders@.len() implies #[trigger] folders@[a].parent < a by {
                            if a != cur {
                                assert(folders@[a] == fs[a]);
                            }
                        }
                        if cur != 0 {
                            assert(folders@[0] == fs[0]);
                        }
                    }
                },
                None => {},
            }
        }
        i = i + 1;
    }
    assert(ls.subrange(0, ls.len() as int) =~= ls);
    let ghost before = folders@;
    if !fill_totals(&mut folders) {
        return None;
    }
    proof {
        assert(model_of(folders@) =~= model_of(before)) by {
            assert forall|k: int| 0 <= k < folders@.len() implies #[trigger] model_of(folders@)[k] == model_of(before)[k] by {
                assert(folders@[k].name@ == before[k].name@);
            }
        }
    }
    Some(folders)
}

/// Once a session has failed, it stays failed.
proof fn lemma_session_none_persists(ls: Seq<Seq<u8>>, k: int)
    requires
        0 <= k <= ls.len(),
        session(ls.subrange(0, k)) is None,
    ensures
        session(ls) is None,
    decreases ls.len() - k,
{
    if k < ls.len() {
        assert(ls.subrange(0, k + 1).drop_last() =~= ls.subrange(0, k));
        lemma_session_none_persists(ls, k + 1);
    } else {
        assert(ls.subrange(0, k) =~= ls);
    }
}

fn copy_bytes(v: &Vec<u8>) -> (r: Vec<u8>)
    ensures
        r@ == v@,
{
    let mut out: Vec<u8> = Vec::new();
    let mut k: usize = 0;
    while k < v.len()
        invariant
            k <= v@.len(),
            out@ == v@.subrange(0, k as int),
        decreases v@.len() - k,
    {
        out.push(v[k]);
        assert(v@.subrange(0, k + 1) =~= v@.subrange(0, k as int).push(v@[k as int]));
        k = k + 1;
    }
    assert(v@.subrange(0, v@.len() as int) =~= v@);
    out
}

} // verus!
