//! Minimum-jump reachability on a bounded grid.
//!
//! `JumpOptimizer` looks for the shortest chain of jumps taking a rabbit
//! from a start cell to a target cell of a rectangular field. One jump moves
//! by one of the 8 symmetric vectors derived from the configured jump
//! length, and the search is a depth-first backtracking walk over simple
//! paths with a mark/recurse/unmark visited grid and branch-and-bound
//! pruning.

use core::marker::PhantomData;

use vstd::prelude::*;

use super::{Pendent, Ready, Report};
use crate::decimal::{dec_digits, usize_to_string};

verus! {

/// A cell lies on a `w` by `h` field.
pub open spec fn in_bounds(c: (int, int), w: int, h: int) -> bool {
    0 <= c.0 < w && 0 <= c.1 < h
}

/// The displacement of the `k`-th of the 8 jump vectors derived from a jump
/// length `(p, q)`.
pub open spec fn move_delta(k: int, p: int, q: int) -> (int, int) {
    if k == 0 {
        (p, q)
    } else if k == 1 {
        (p, -q)
    } else if k == 2 {
        (-p, q)
    } else if k == 3 {
        (-p, -q)
    } else if k == 4 {
        (q, p)
    } else if k == 5 {
        (q, -p)
    } else if k == 6 {
        (-q, p)
    } else {
        (-q, -p)
    }
}

/// The cell reached from `c` by the `k`-th jump vector.
pub open spec fn step_point(c: (int, int), k: int, p: int, q: int) -> (int, int) {
    (c.0 + move_delta(k, p, q).0, c.1 + move_delta(k, p, q).1)
}

/// One jump connects `a` to `b`.
pub open spec fn is_jump(a: (int, int), b: (int, int), p: int, q: int) -> bool {
    exists|k: int| 0 <= k < 8 && b == #[trigger] step_point(a, k, p, q)
}

/// A walk across the field: at least the one starting cell, every cell in
/// bounds, and consecutive cells one jump apart.
pub open spec fn is_path(path: Seq<(int, int)>, w: int, h: int, p: int, q: int) -> bool {
    path.len() >= 1 && (forall|i: int| 0 <= i < path.len() ==> in_bounds(#[trigger] path[i], w, h))
        && (forall|i: int|
        0 <= i < path.len() - 1 ==> is_jump(#[trigger] path[i], path[i + 1], p, q))
}

/// A walk that never revisits a cell.
pub open spec fn is_simple(path: Seq<(int, int)>) -> bool {
    forall|i: int, j: int| 0 <= i < j < path.len() ==> path[i] != path[j]
}

/// A walk from `a` to `b`.
pub open spec fn connects(path: Seq<(int, int)>, a: (int, int), b: (int, int)) -> bool {
    path.first() == a && path.last() == b
}

/// The recorded best, if any, is no worse than `b` jumps.
pub open spec fn min_le(m: Option<usize>, b: int) -> bool {
    match m {
        Some(j) => j <= b,
        None => false,
    }
}

/// How many cells of one grid row are marked.
spec fn row_count(r: Seq<bool>) -> int
    decreases r.len(),
{
    if r.len() == 0 {
        0
    } else {
        row_count(r.drop_last()) + if r.last() {
            1int
        } else {
            0int
        }
    }
}

/// How many cells of the grid are unmarked.
spec fn grid_free(g: Seq<Vec<bool>>) -> int
    decreases g.len(),
{
    if g.len() == 0 {
        0
    } else {
        grid_free(g.drop_last()) + (g.last()@.len() - row_count(g.last()@))
    }
}

proof fn lemma_row_count_bounds(r: Seq<bool>)
    ensures
        0 <= row_count(r) <= r.len(),
    decreases r.len(),
{
    if r.len() > 0 {
        lemma_row_count_bounds(r.drop_last());
    }
}

proof fn lemma_grid_free_nonneg(g: Seq<Vec<bool>>)
    ensures
        0 <= grid_free(g),
    decreases g.len(),
{
    if g.len() > 0 {
        lemma_grid_free_nonneg(g.drop_last());
        lemma_row_count_bounds(g.last()@);
    }
}

proof fn lemma_row_count_update(r: Seq<bool>, j: int, b: bool)
    requires
        0 <= j < r.len(),
    ensures
        row_count(r.update(j, b)) == row_count(r) - (if r[j] {
            1int
        } else {
            0int
        }) + (if b {
            1int
        } else {
            0int
        }),
    decreases r.len(),
{
    if j == r.len() - 1 {
        assert(r.update(j, b).drop_last() =~= r.drop_last());
    } else {
        assert(r.update(j, b).drop_last() =~= r.drop_last().update(j, b));
        lemma_row_count_update(r.drop_last(), j, b);
    }
}

proof fn lemma_grid_free_update(g: Seq<Vec<bool>>, i: int, row: Vec<bool>)
    requires
        0 <= i < g.len(),
    ensures
        grid_free(g.update(i, row)) == grid_free(g) - (g[i]@.len() - row_count(g[i]@)) + (
        row@.len() - row_count(row@)),
    decreases g.len(),
{
    if i == g.len() - 1 {
        assert(g.update(i, row).drop_last() =~= g.drop_last());
    } else {
        assert(g.update(i, row).drop_last() =~= g.drop_last().update(i, row));
        lemma_grid_free_update(g.drop_last(), i, row);
    }
}

/// On a fully unmarked well-sized grid every one of the `w * h` cells is
/// free.
proof fn lemma_grid_free_all_false(g: Seq<Vec<bool>>, h: int)
    requires
        forall|i: int| 0 <= i < g.len() ==> (#[trigger] g[i])@.len() == h,
        forall|i: int, j: int| 0 <= i < g.len() && 0 <= j < h ==> !(#[trigger] g[i]@[j]),
        h >= 0,
    ensures
        grid_free(g) == g.len() * h,
    decreases g.len(),
{
    if g.len() == 0 {
        assert(grid_free(g) == 0);
    } else {
        let gd = g.drop_last();
        assert(forall|i: int| 0 <= i < gd.len() ==> (#[trigger] gd[i])@.len() == h);
        assert(forall|i: int, j: int|
            0 <= i < gd.len() && 0 <= j < h ==> !(#[trigger] gd[i]@[j]));
        lemma_grid_free_all_false(gd, h);
        assert forall|j: int| 0 <= j < g.last()@.len() implies !(#[trigger] g.last()@[j]) by {
            assert(!(g[g.len() - 1]@[j]));
        }
        lemma_row_count_all_false(g.last()@);
        assert((g.len() - 1) * h + h == g.len() * h) by (nonlinear_arith);
    }
}

proof fn lemma_row_count_all_false(r: Seq<bool>)
    requires
        forall|j: int| 0 <= j < r.len() ==> !(#[trigger] r[j]),
    ensures
        row_count(r) == 0,
    decreases r.len(),
{
    if r.len() > 0 {
        lemma_row_count_all_false(r.drop_last());
    }
}

/// Membership in a walk extended by one cell.
proof fn lemma_contains_push(s: Seq<(int, int)>, e: (int, int), x: (int, int))
    ensures
        s.push(e).contains(x) <==> s.contains(x) || x == e,
{
    if s.push(e).contains(x) {
        let i = choose|i: int| 0 <= i < s.push(e).len() && s.push(e)[i] == x;
        if i < s.len() {
            assert(s[i] == x);
        }
    }
    if s.contains(x) {
        let i = choose|i: int| 0 <= i < s.len() && s[i] == x;
        assert(s.push(e)[i] == x);
    }
    if x == e {
        assert(s.push(e)[s.len() as int] == x);
    }
}

/// Grids that look alike cell for cell have the same number of free cells.
proof fn lemma_grid_free_congruence(g1: Seq<Vec<bool>>, g2: Seq<Vec<bool>>)
    requires
        g1.len() == g2.len(),
        forall|i: int| 0 <= i < g1.len() ==> (#[trigger] g1[i])@ == g2[i]@,
    ensures
        grid_free(g1) == grid_free(g2),
    decreases g1.len(),
{
    if g1.len() > 0 {
        assert(forall|i: int|
            0 <= i < g1.drop_last().len() ==> (#[trigger] g1.drop_last()[i])@ == g2.drop_last()[i]@);
        lemma_grid_free_congruence(g1.drop_last(), g2.drop_last());
        assert(g1.last()@ == g2.last()@);
    }
}

/// Every walk between two cells hides a simple walk between them that is no
/// longer: cutting the stretch between two visits of a repeated cell leaves
/// a shorter walk, and cutting long enough leaves a simple one.
proof fn lemma_walk_to_simple(path: Seq<(int, int)>, w: int, h: int, p: int, q: int)
    requires
        is_path(path, w, h, p, q),
    ensures
        exists|sp: Seq<(int, int)>|
            #![trigger is_simple(sp)]
            is_path(sp, w, h, p, q) && is_simple(sp) && sp.first() == path.first() && sp.last()
                == path.last() && sp.len() <= path.len(),
    decreases path.len(),
{
    if is_simple(path) {
        assert(is_path(path, w, h, p, q) && is_simple(path) && path.first() == path.first()
            && path.last() == path.last() && path.len() <= path.len());
    } else {
        let (i, j) = choose|i: int, j: int| 0 <= i < j < path.len() && path[i] == path[j];
        let cut = path.take(i + 1) + path.skip(j + 1);
        assert(cut.len() == i + 1 + (path.len() - j - 1));
        assert forall|m: int| 0 <= m < cut.len() implies in_bounds(#[trigger] cut[m], w, h) by {
            if m <= i {
                assert(cut[m] == path[m]);
            } else {
                assert(cut[m] == path[j + m - i]);
            }
        }
        assert forall|m: int| 0 <= m < cut.len() - 1 implies is_jump(
            #[trigger] cut[m],
            cut[m + 1],
            p,
            q,
        ) by {
            if m < i {
                assert(cut[m] == path[m]);
                assert(cut[m + 1] == path[m + 1]);
            } else if m == i {
                assert(cut[m] == path[i]);
                assert(cut[m + 1] == path[j + 1]);
                assert(is_jump(path[j], path[j + 1], p, q));
            } else {
                assert(cut[m] == path[j + m - i]);
                assert(cut[m + 1] == path[j + m + 1 - i]);
            }
        }
        assert(cut.first() == path.first());
        assert(cut.last() == path.last()) by {
            if j + 1 < path.len() {
                assert(cut.last() == path.skip(j + 1).last());
            } else {
                assert(cut.last() == path.take(i + 1).last());
                assert(path[i] == path[j]);
            }
        }
        assert(is_path(cut, w, h, p, q));
        lemma_walk_to_simple(cut, w, h, p, q);
        let sp = choose|sp: Seq<(int, int)>|
            #![trigger is_simple(sp)]
            is_path(sp, w, h, p, q) && is_simple(sp) && sp.first() == cut.first() && sp.last()
                == cut.last() && sp.len() <= cut.len();
        assert(is_path(sp, w, h, p, q) && is_simple(sp) && sp.first() == path.first() && sp.last()
            == path.last() && sp.len() <= path.len());
    }
}

/// The signed displacement a magnitude and a direction flag stand for.
pub open spec fn signed_of(d: usize, neg: bool) -> int {
    if neg {
        -(d as int)
    } else {
        d as int
    }
}

/// The recorded best, if any, is witnessed by some walk from `s` to `t`.
pub open spec fn jumps_sound(
    m: Option<usize>,
    s: (int, int),
    t: (int, int),
    w: int,
    h: int,
    p: int,
    q: int,
) -> bool {
    match m {
        Some(j) => exists|path: Seq<(int, int)>|
            #![trigger is_path(path, w, h, p, q)]
            is_path(path, w, h, p, q) && connects(path, s, t) && path.len() - 1 == j,
        None => true,
    }
}

/// Sets one cell of the visited grid, and accounts for the change in free
/// cells.
fn set_cell(g: &mut Vec<Vec<bool>>, x: usize, y: usize, b: bool)
    requires
        x < old(g)@.len(),
        y < old(g)@[x as int]@.len(),
    ensures
        final(g)@.len() == old(g)@.len(),
        final(g)@[x as int]@ == old(g)@[x as int]@.update(y as int, b),
        forall|i: int| 0 <= i < old(g)@.len() && i != x ==> final(g)@[i] == old(g)@[i],
        grid_free(final(g)@) == grid_free(old(g)@) - (if old(g)@[x as int]@[y as int] {
            0int
        } else {
            1int
        }) + (if b {
            0int
        } else {
            1int
        }),
{
    let ghost g0 = g@;
    let row = &mut g[x];
    let ghost r0 = row@;
    row.set(y, b);
    proof {
        lemma_row_count_update(r0, y as int, b);
        lemma_grid_free_update(g0, x as int, *row);
        assert(g@ =~= g0.update(x as int, *row));
        lemma_row_count_bounds(r0);
    }
}

/// Moves `base` by `delta` in the direction `neg`, staying inside
/// `[0, limit)`.
fn offset(base: usize, delta: usize, neg: bool, limit: usize) -> (r: Option<usize>)
    requires
        base < limit,
    ensures
        match r {
            Some(v) => v < limit && v as int == base + signed_of(delta, neg),
            None => !(0 <= base + signed_of(delta, neg) < limit),
        },
{
    if neg {
        if delta <= base {
            Some(base - delta)
        } else {
            None
        }
    } else {
        if delta < limit && base < limit - delta {
            Some(base + delta)
        } else {
            None
        }
    }
}

/// The minimum-jump optimizer, in phase `State`.
///
/// A `Pendent` optimizer owns a clean visited grid; the `Ready` phase is
/// produced only by [`JumpOptimizer::find_min_jumps`], which runs the search
/// to completion and hands the grid back clean.
#[derive(Debug)]
pub struct JumpOptimizer<State = Pendent> {
    min_jums: Option<usize>,
    field_size: (usize, usize),
    jump_length: (usize, usize),
    visited: Vec<Vec<bool>>,
    _marker: PhantomData<State>,
}

impl<State> JumpOptimizer<State> {
    /// The width and height of the field.
    pub closed spec fn spec_field_size(&self) -> (usize, usize) {
        self.field_size
    }

    /// The two jump distances.
    pub closed spec fn spec_jump_length(&self) -> (usize, usize) {
        self.jump_length
    }

    /// The recorded minimum number of jumps, `None` while none was found.
    pub closed spec fn spec_min_jums(&self) -> Option<usize> {
        self.min_jums
    }

    /// Whether the visited grid marks the cell `(x, y)`.
    pub closed spec fn spec_visited_cell(&self, x: int, y: int) -> bool {
        self.visited@[x]@[y]
    }

    /// The visited grid is sized to the field and the field fits the
    /// machine's address space.
    pub closed spec fn grid_wf(&self) -> bool {
        &&& self.visited@.len() == self.field_size.0
        &&& forall|i: int|
            0 <= i < self.field_size.0 ==> (#[trigger] self.visited@[i])@.len()
                == self.field_size.1
        &&& (self.field_size.0 as int) * (self.field_size.1 as int) <= usize::MAX
    }

    /// Every cell of the visited grid is unmarked.
    pub open spec fn grid_clean(&self) -> bool {
        forall|x: int, y: int|
            0 <= x < self.spec_field_size().0 && 0 <= y < self.spec_field_size().1
                ==> !#[trigger] self.spec_visited_cell(x, y)
    }

    /// A pendent optimizer ready to search: sized grid, clean grid, no
    /// result yet.
    pub open spec fn wf(&self) -> bool {
        self.grid_wf() && self.grid_clean() && self.spec_min_jums() is None
    }
}

impl JumpOptimizer<Ready> {
    /// The minimum number of jumps the search recorded, if the target was
    /// reachable at all.
    pub fn min_jums(&self) -> (r: Option<usize>)
        ensures
            r == self.spec_min_jums(),
    {
        self.min_jums
    }
}

/// The recorded best is exactly the length of the shortest walk from `s`
/// to `t`, or `None` when no walk connects them.
pub open spec fn optimal_jumps(
    m: Option<usize>,
    s: (int, int),
    t: (int, int),
    w: int,
    h: int,
    p: int,
    q: int,
) -> bool {
    match m {
        Some(j) => (exists|path: Seq<(int, int)>|
            #![trigger is_path(path, w, h, p, q)]
            is_path(path, w, h, p, q) && connects(path, s, t) && path.len() - 1 == j) && (forall|
            path: Seq<(int, int)>,
        |
            #![trigger is_path(path, w, h, p, q)]
            is_path(path, w, h, p, q) && connects(path, s, t) ==> path.len() - 1 >= j),
        None => forall|path: Seq<(int, int)>|
            #![trigger is_path(path, w, h, p, q)]
            !(is_path(path, w, h, p, q) && connects(path, s, t)),
    }
}

impl<State> JumpOptimizer<State> {
    /// The field width as a mathematical integer.
    spec fn sw(&self) -> int {
        self.field_size.0 as int
    }

    /// The field height as a mathematical integer.
    spec fn sh(&self) -> int {
        self.field_size.1 as int
    }

    /// The first jump distance as a mathematical integer.
    spec fn sp(&self) -> int {
        self.jump_length.0 as int
    }

    /// The second jump distance as a mathematical integer.
    spec fn sq(&self) -> int {
        self.jump_length.1 as int
    }
}

impl JumpOptimizer {
    /// Creates a pendent optimizer over a `field_size.0` by `field_size.1`
    /// field with a clean visited grid.
    pub fn new(field_size: (usize, usize), jump_length: (usize, usize)) -> (r: Self)
        requires
            (field_size.0 as int) * (field_size.1 as int) <= usize::MAX,
        ensures
            r.wf(),
            r.spec_field_size() == field_size,
            r.spec_jump_length() == jump_length,
    {
        let mut visited: Vec<Vec<bool>> = Vec::new();
        let mut i: usize = 0;
        while i < field_size.0
            invariant
                i <= field_size.0,
                visited@.len() == i,
                forall|a: int| 0 <= a < i ==> (#[trigger] visited@[a])@.len() == field_size.1,
                forall|a: int, b: int|
                    0 <= a < i && 0 <= b < field_size.1 ==> !(#[trigger] visited@[a]@[b]),
            decreases field_size.0 - i,
        {
            let mut row: Vec<bool> = Vec::new();
            let mut j: usize = 0;
            while j < field_size.1
                invariant
                    j <= field_size.1,
                    row@.len() == j,
                    forall|b: int| 0 <= b < j ==> !(#[trigger] row@[b]),
                decreases field_size.1 - j,
            {
                row.push(false);
                j += 1;
            }
            visited.push(row);
            i += 1;
        }
        Self { min_jums: None, field_size, jump_length, visited, _marker: PhantomData }
    }

    /// Runs the depth-first search and returns the finished optimizer, or an
    /// error when the target lies outside the field.
    ///
    /// A `Ready` result is optimal: its recorded count is the length of a
    /// shortest walk from start to target, or `None` when no walk connects
    /// them, and the visited grid comes back entirely clean.
    pub fn find_min_jumps(self, start_point: (usize, usize), target_point: (usize, usize)) -> (res:
        Result<JumpOptimizer<Ready>, &'static str>)
        requires
            self.wf(),
            start_point.0 < self.spec_field_size().0,
            start_point.1 < self.spec_field_size().1,
        ensures
            match res {
                Result::Err(msg) => (target_point.0 >= self.spec_field_size().0 || target_point.1
                    >= self.spec_field_size().1) && msg@
                    == "The rabbit cannot jump outside the farm field!"@,
                Result::Ok(ro) => {
                    &&& target_point.0 < self.spec_field_size().0
                    &&& target_point.1 < self.spec_field_size().1
                    &&& ro.spec_field_size() == self.spec_field_size()
                    &&& ro.spec_jump_length() == self.spec_jump_length()
                    &&& ro.grid_clean()
                    &&& optimal_jumps(
                        ro.spec_min_jums(),
                        (start_point.0 as int, start_point.1 as int),
                        (target_point.0 as int, target_point.1 as int),
                        self.spec_field_size().0 as int,
                        self.spec_field_size().1 as int,
                        self.spec_jump_length().0 as int,
                        self.spec_jump_length().1 as int,
                    )
                },
            },
    {
        let w = self.field_size.0;
        let h = self.field_size.1;
        if target_point.0 >= w || target_point.1 >= h {
            return Err("The rabbit cannot jump outside the farm field!");
        }
        let mut this = self;
        let ghost sv = (start_point.0 as int, start_point.1 as int);
        let ghost tv = (target_point.0 as int, target_point.1 as int);
        let ghost gpath0: Seq<(int, int)> = seq![sv];
        let ghost g_before = this.visited@;
        proof {
            assert forall|i: int, j: int|
                0 <= i < g_before.len() && 0 <= j < h as int implies !(#[trigger] g_before[i]@[j]) by {
                assert(!this.spec_visited_cell(i, j));
            }
            lemma_grid_free_all_false(this.visited@, h as int);
        }
        set_cell(&mut this.visited, start_point.0, start_point.1, true);
        proof {
            assert(gpath0.last() == sv && gpath0.first() == sv && gpath0.len() == 1);
            assert forall|x: int, y: int|
                0 <= x < this.sw() && 0 <= y < this.sh() implies (#[trigger] this.spec_visited_cell(
                x,
                y,
            ) <==> gpath0.contains((x, y))) by {
                if (x, y) == sv {
                    assert(gpath0[0] == (x, y));
                    assert(this.visited@[x]@ == g_before[x]@.update(y, true));
                } else {
                    if gpath0.contains((x, y)) {
                        let i = choose|i: int| 0 <= i < gpath0.len() && gpath0[i] == (x, y);
                        assert(i == 0);
                        assert(false);
                    }
                    if x == sv.0 {
                        assert(this.visited@[x]@ == g_before[x]@.update(sv.1, true));
                        assert(this.visited@[x]@[y] == g_before[x]@[y]);
                    } else {
                        assert(this.visited@[x] == g_before[x]);
                    }
                    assert(!g_before[x]@[y]);
                }
            }
            assert(is_path(gpath0, this.sw(), this.sh(), this.sp(), this.sq()));
        }
        let ghost g_marked = this.visited@;
        this.backtrack(start_point, target_point, 0, Ghost(gpath0));
        let ghost g_ret = this.visited@;
        set_cell(&mut this.visited, start_point.0, start_point.1, false);
        proof {
            assert forall|x: int, y: int|
                0 <= x < this.sw() && 0 <= y < this.sh() implies !#[trigger] this.spec_visited_cell(
                x,
                y,
            ) by {
                assert(g_ret[x]@ == g_marked[x]@);
                if x == sv.0 {
                    assert(this.visited@[x]@ == g_ret[x]@.update(sv.1, false));
                    assert(g_marked[x]@ == g_before[x]@.update(sv.1, true));
                    if y == sv.1 {
                    } else {
                        assert(this.visited@[x]@[y] == g_before[x]@[y]);
                    }
                } else {
                    assert(this.visited@[x] == g_ret[x]);
                    assert(g_marked[x] == g_before[x]);
                    assert(!g_before[x]@[y]);
                }
            }
            let sw = this.sw();
            let sh = this.sh();
            let sp = this.sp();
            let sq = this.sq();
            match this.min_jums {
                Some(j) => {
                    assert forall|path: Seq<(int, int)>|
                        is_path(path, sw, sh, sp, sq) && connects(path, sv, tv) implies path.len()
                        - 1 >= j by {
                        lemma_walk_to_simple(path, sw, sh, sp, sq);
                        let simple = choose|simple: Seq<(int, int)>|
                            #![trigger is_simple(simple)]
                            is_path(simple, sw, sh, sp, sq) && is_simple(simple) && simple.first()
                                == path.first() && simple.last() == path.last() && simple.len()
                                <= path.len();
                        assert forall|i: int| 1 <= i < simple.len() implies !gpath0.contains(
                            #[trigger] simple[i],
                        ) by {
                            assert(simple[0] == sv);
                            assert(simple[i] != simple[0]);
                            if gpath0.contains(simple[i]) {
                                let m = choose|m: int|
                                    0 <= m < gpath0.len() && gpath0[m] == simple[i];
                                assert(m == 0);
                                assert(false);
                            }
                        }
                        assert(min_le(this.spec_min_jums(), 0 + simple.len() - 1));
                    }
                },
                None => {
                    assert forall|path: Seq<(int, int)>|
                        !(#[trigger] is_path(path, sw, sh, sp, sq) && connects(path, sv, tv)) by {
                        if is_path(path, sw, sh, sp, sq) && connects(path, sv, tv) {
                            lemma_walk_to_simple(path, sw, sh, sp, sq);
                            let simple = choose|simple: Seq<(int, int)>|
                                #![trigger is_simple(simple)]
                                is_path(simple, sw, sh, sp, sq) && is_simple(simple)
                                    && simple.first() == path.first() && simple.last()
                                    == path.last() && simple.len() <= path.len();
                            assert forall|i: int| 1 <= i < simple.len() implies !gpath0.contains(
                                #[trigger] simple[i],
                            ) by {
                                assert(simple[0] == sv);
                                assert(simple[i] != simple[0]);
                                if gpath0.contains(simple[i]) {
                                    let m = choose|m: int|
                                        0 <= m < gpath0.len() && gpath0[m] == simple[i];
                                    assert(m == 0);
                                    assert(false);
                                }
                            }
                            assert(min_le(this.spec_min_jums(), 0 + simple.len() - 1));
                            assert(false);
                        }
                    }
                },
            }
        }
        Ok(
            JumpOptimizer::<Ready> {
                min_jums: this.min_jums,
                field_size: this.field_size,
                jump_length: this.jump_length,
                visited: this.visited,
                _marker: PhantomData,
            },
        )
    }

    /// The 8 jump vectors, each as two magnitudes with their direction
    /// flags.
    fn determine_movements(&self) -> (moves: Vec<(usize, bool, usize, bool)>)
        ensures
            moves@.len() == 8,
            forall|k: int|
                0 <= k < 8 ==> (signed_of(#[trigger] moves@[k].0, moves@[k].1), signed_of(
                    moves@[k].2,
                    moves@[k].3,
                )) == move_delta(k, self.sp(), self.sq()),
    {
        let p = self.jump_length.0;
        let q = self.jump_length.1;
        let mut moves: Vec<(usize, bool, usize, bool)> = Vec::new();
        moves.push((p, false, q, false));
        moves.push((p, false, q, true));
        moves.push((p, true, q, false));
        moves.push((p, true, q, true));
        moves.push((q, false, p, false));
        moves.push((q, false, p, true));
        moves.push((q, true, p, false));
        moves.push((q, true, p, true));
        proof {
            assert forall|k: int|
                0 <= k < 8 implies (signed_of(#[trigger] moves@[k].0, moves@[k].1), signed_of(
                moves@[k].2,
                moves@[k].3,
            )) == move_delta(k, self.sp(), self.sq()) by {
                if k == 0 {
                    assert(moves@[0] == (p, false, q, false));
                } else if k == 1 {
                    assert(moves@[1] == (p, false, q, true));
                } else if k == 2 {
                    assert(moves@[2] == (p, true, q, false));
                } else if k == 3 {
                    assert(moves@[3] == (p, true, q, true));
                } else if k == 4 {
                    assert(moves@[4] == (q, false, p, false));
                } else if k == 5 {
                    assert(moves@[5] == (q, false, p, true));
                } else if k == 6 {
                    assert(moves@[6] == (q, true, p, false));
                } else {
                    assert(moves@[7] == (q, true, p, true));
                }
            }
        }
        moves
    }

    /// A destination cell can be moved to when it is not yet visited.
    fn is_valid_move(&self, x: usize, y: usize) -> (r: bool)
        requires
            self.grid_wf(),
            x < self.spec_field_size().0,
            y < self.spec_field_size().1,
        ensures
            r == !self.spec_visited_cell(x as int, y as int),
    {
        !self.visited[x][y]
    }

    /// One node of the depth-first search: records the path length when the
    /// target is reached, prunes a branch that cannot improve, and otherwise
    /// marks, explores and unmarks each of the 8 possible destinations.
    #[verifier::rlimit(100)]
    #[verifier::loop_isolation(false)]
    fn backtrack(
        &mut self,
        current: (usize, usize),
        target_point: (usize, usize),
        curr_jums: usize,
        Ghost(gpath): Ghost<Seq<(int, int)>>,
    )
        requires
            old(self).grid_wf(),
            is_path(gpath, old(self).sw(), old(self).sh(), old(self).sp(), old(self).sq()),
            gpath.last() == (current.0 as int, current.1 as int),
            curr_jums as int == gpath.len() - 1,
            forall|x: int, y: int|
                0 <= x < old(self).sw() && 0 <= y < old(self).sh() ==> (#[trigger] old(
                    self,
                ).spec_visited_cell(x, y) <==> gpath.contains((x, y))),
            jumps_sound(
                old(self).spec_min_jums(),
                gpath.first(),
                (target_point.0 as int, target_point.1 as int),
                old(self).sw(),
                old(self).sh(),
                old(self).sp(),
                old(self).sq(),
            ),
            curr_jums as int + grid_free(old(self).visited@) <= old(self).sw() * old(self).sh(),
        ensures
            final(self).grid_wf(),
            final(self).spec_field_size() == old(self).spec_field_size(),
            final(self).spec_jump_length() == old(self).spec_jump_length(),
            final(self).visited@.len() == old(self).visited@.len(),
            forall|i: int|
                0 <= i < old(self).visited@.len() ==> (#[trigger] final(self).visited@[i])@ == old(
                    self,
                ).visited@[i]@,
            match old(self).spec_min_jums() {
                Some(j0) => min_le(final(self).spec_min_jums(), j0 as int),
                None => true,
            },
            jumps_sound(
                final(self).spec_min_jums(),
                gpath.first(),
                (target_point.0 as int, target_point.1 as int),
                old(self).sw(),
                old(self).sh(),
                old(self).sp(),
                old(self).sq(),
            ),
            forall|path: Seq<(int, int)>|
                #![trigger is_simple(path)]
                is_path(path, old(self).sw(), old(self).sh(), old(self).sp(), old(self).sq())
                    && is_simple(path) && path.first() == gpath.last() && path.last() == (
                target_point.0 as int,
                target_point.1 as int,
                ) && (forall|i: int| 1 <= i < path.len() ==> !gpath.contains(#[trigger] path[i]))
                    ==> min_le(final(self).spec_min_jums(), curr_jums + path.len() - 1),
        decreases grid_free(self.visited@),
    {
        let ghost tv = (target_point.0 as int, target_point.1 as int);
        let ghost c = (current.0 as int, current.1 as int);
        let ghost sw = self.sw();
        let ghost sh = self.sh();
        let ghost sp = self.sp();
        let ghost sq = self.sq();
        if current.0 == target_point.0 && current.1 == target_point.1 {
            let better = match self.min_jums {
                Some(m) => if curr_jums < m {
                    curr_jums
                } else {
                    m
                },
                None => curr_jums,
            };
            let ghost old_min = self.min_jums;
            self.min_jums = Some(better);
            proof {
                match old_min {
                    Some(m) => {
                        if curr_jums < m {
                            assert(is_path(gpath, sw, sh, sp, sq) && connects(
                                gpath,
                                gpath.first(),
                                tv,
                            ) && gpath.len() - 1 == better as int);
                        } else {
                            let wpath = choose|path: Seq<(int, int)>|
                                #![trigger is_path(path, sw, sh, sp, sq)]
                                is_path(path, sw, sh, sp, sq) && connects(path, gpath.first(), tv)
                                    && path.len() - 1 == m as int;
                            assert(is_path(wpath, sw, sh, sp, sq) && connects(
                                wpath,
                                gpath.first(),
                                tv,
                            ) && wpath.len() - 1 == better as int);
                        }
                    },
                    None => {
                        assert(is_path(gpath, sw, sh, sp, sq) && connects(gpath, gpath.first(), tv)
                            && gpath.len() - 1 == better as int);
                    },
                }
                assert forall|path: Seq<(int, int)>|
                    is_path(path, sw, sh, sp, sq) && is_simple(path) && path.first() == gpath.last()
                        && path.last() == tv && (forall|i: int|
                        1 <= i < path.len() ==> !gpath.contains(
                            #[trigger] path[i],
                        )) implies min_le(self.spec_min_jums(), curr_jums + path.len() - 1) by {
                    if path.len() >= 2 {
                        assert(path[0] == path[path.len() - 1]);
                        assert(false);
                    }
                }
            }
            return ;
        }
        let prune = match self.min_jums {
            Some(j) => curr_jums >= j,
            None => false,
        };
        if prune {
            proof {
                assert forall|path: Seq<(int, int)>|
                    is_path(path, sw, sh, sp, sq) && is_simple(path) && path.first() == gpath.last()
                        && path.last() == tv && (forall|i: int|
                        1 <= i < path.len() ==> !gpath.contains(
                            #[trigger] path[i],
                        )) implies min_le(self.spec_min_jums(), curr_jums + path.len() - 1) by {
                    assert(path.len() >= 1);
                }
            }
            return ;
        }
        let w = self.field_size.0;
        let h = self.field_size.1;
        let moves = self.determine_movements();
        let ghost g0 = self.visited@;
        let ghost free0 = grid_free(g0);
        let ghost m0 = self.min_jums;
        let mut k: usize = 0;
        while k < 8
            invariant
                k <= 8,
                self.grid_wf(),
                w == self.field_size.0,
                h == self.field_size.1,
                sw == self.sw(),
                sh == self.sh(),
                sp == self.sp(),
                sq == self.sq(),
                current.0 < w,
                current.1 < h,
                c == (current.0 as int, current.1 as int),
                tv == (target_point.0 as int, target_point.1 as int),
                c != tv,
                moves@.len() == 8,
                forall|k2: int|
                    0 <= k2 < 8 ==> (signed_of(#[trigger] moves@[k2].0, moves@[k2].1), signed_of(
                        moves@[k2].2,
                        moves@[k2].3,
                    )) == move_delta(k2, sp, sq),
                self.visited@.len() == g0.len(),
                forall|i: int| 0 <= i < g0.len() ==> (#[trigger] self.visited@[i])@ == g0[i]@,
                grid_free(self.visited@) == free0,
                curr_jums as int + free0 <= sw * sh,
                is_path(gpath, sw, sh, sp, sq),
                gpath.last() == c,
                curr_jums as int == gpath.len() - 1,
                forall|x: int, y: int|
                    0 <= x < sw && 0 <= y < sh ==> (#[trigger] self.spec_visited_cell(x, y)
                        <==> gpath.contains((x, y))),
                jumps_sound(self.spec_min_jums(), gpath.first(), tv, sw, sh, sp, sq),
                match m0 {
                    Some(j0) => min_le(self.spec_min_jums(), j0 as int),
                    None => true,
                },
                forall|path: Seq<(int, int)>|
                    #![trigger is_simple(path)]
                    is_path(path, sw, sh, sp, sq) && is_simple(path) && path.first() == c
                        && path.last() == tv && (forall|i: int|
                        1 <= i < path.len() ==> !gpath.contains(#[trigger] path[i])) && path.len()
                        >= 2 && (exists|k2: int|
                        0 <= k2 < k && path[1] == #[trigger] step_point(c, k2, sp, sq))
                        ==> min_le(self.spec_min_jums(), curr_jums + path.len() - 1),
            decreases 8 - k,
        {
            proof {
                assert forall|x: int, y: int|
                    0 <= x < sw && 0 <= y < sh implies (#[trigger] g0[x]@[y] <==> gpath.contains(
                    (x, y),
                )) by {
                    assert(self.visited@[x]@ == g0[x]@);
                    assert(self.spec_visited_cell(x, y) <==> gpath.contains((x, y)));
                }
            }
            let mv = moves[k];
            let ox = offset(current.0, mv.0, mv.1, w);
            let oy = offset(current.1, mv.2, mv.3, h);
            let ghost dest = step_point(c, k as int, sp, sq);
            if ox.is_some() && oy.is_some() {
                let nx = ox.unwrap();
                let ny = oy.unwrap();
                proof {
                    assert(dest == (nx as int, ny as int));
                }
                if self.is_valid_move(nx, ny) {
                    let ghost gpath2 = gpath.push((nx as int, ny as int));
                    let ghost g_in = self.visited@;
                    set_cell(&mut self.visited, nx, ny, true);
                    let ghost g_marked = self.visited@;
                    proof {
                        assert forall|x: int, y: int|
                            0 <= x < sw && 0 <= y < sh implies (#[trigger] self.spec_visited_cell(
                            x,
                            y,
                        ) <==> gpath2.contains((x, y))) by {
                            lemma_contains_push(gpath, (nx as int, ny as int), (x, y));
                            assert(g_in[x]@ == g0[x]@);
                            if x == nx as int {
                                assert(self.visited@[x]@ == g_in[x]@.update(ny as int, true));
                                if y != ny as int {
                                    assert(self.visited@[x]@[y] == g0[x]@[y]);
                                }
                            } else {
                                assert(self.visited@[x] == g_in[x]);
                            }
                        }
                        assert(gpath2.last() == (nx as int, ny as int));
                        assert(gpath2.first() == gpath.first());
                        assert(is_path(gpath2, sw, sh, sp, sq)) by {
                            assert(0 <= k < 8 && (nx as int, ny as int) == step_point(
                                c,
                                k as int,
                                sp,
                                sq,
                            ));
                            assert(is_jump(c, (nx as int, ny as int), sp, sq));
                            assert forall|i: int| 0 <= i < gpath2.len() implies in_bounds(
                                #[trigger] gpath2[i],
                                sw,
                                sh,
                            ) by {
                                if i < gpath.len() {
                                    assert(gpath2[i] == gpath[i]);
                                }
                            }
                            assert forall|i: int| 0 <= i < gpath2.len() - 1 implies is_jump(
                                #[trigger] gpath2[i],
                                gpath2[i + 1],
                                sp,
                                sq,
                            ) by {
                                if i < gpath.len() - 1 {
                                    assert(gpath2[i] == gpath[i]);
                                    assert(gpath2[i + 1] == gpath[i + 1]);
                                } else {
                                    assert(gpath2[i] == gpath.last());
                                }
                            }
                        }
                        lemma_grid_free_nonneg(self.visited@);
                        assert(grid_free(self.visited@) == free0 - 1);
                    }
                    self.backtrack((nx, ny), target_point, curr_jums + 1, Ghost(gpath2));
                    proof {
                        lemma_grid_free_congruence(self.visited@, g_marked);
                    }
                    let ghost g_ret = self.visited@;
                    set_cell(&mut self.visited, nx, ny, false);
                    proof {
                        assert forall|i: int| 0 <= i < g0.len() implies (#[trigger] self
                            .visited@[i])@ == g0[i]@ by {
                            assert(g_ret[i]@ == g_marked[i]@);
                            assert(g_in[i]@ == g0[i]@);
                            if i == nx {
                                assert(self.visited@[i]@ == g_ret[i]@.update(ny as int, false));
                                assert(g_marked[i]@ == g_in[i]@.update(ny as int, true));
                                assert(!g_in[i]@[ny as int]);
                                assert(self.visited@[i]@ =~= g0[i]@);
                            } else {
                                assert(self.visited@[i] == g_ret[i]);
                            }
                        }
                        assert forall|x: int, y: int|
                            0 <= x < sw && 0 <= y < sh implies (#[trigger] self.spec_visited_cell(
                            x,
                            y,
                        ) <==> gpath.contains((x, y))) by {
                            assert(self.visited@[x]@ == g0[x]@);
                            assert(g0[x]@[y] <==> gpath.contains((x, y)));
                        }
                        lemma_grid_free_congruence(self.visited@, g0);
                        assert forall|path: Seq<(int, int)>|
                            is_path(path, sw, sh, sp, sq) && #[trigger] is_simple(path)
                                && path.first() == c && path.last() == tv && (forall|i: int|
                                1 <= i < path.len() ==> !gpath.contains(#[trigger] path[i]))
                                && path.len() >= 2 && (exists|k2: int|
                                0 <= k2 < k + 1 && path[1] == #[trigger] step_point(
                                    c,
                                    k2,
                                    sp,
                                    sq,
                                )) implies min_le(
                            self.spec_min_jums(),
                            curr_jums + path.len() - 1,
                        ) by {
                            let k2 = choose|k2: int|
                                0 <= k2 < k + 1 && path[1] == #[trigger] step_point(c, k2, sp, sq);
                            if k2 < k {
                            } else {
                                let tail = path.skip(1);
                                assert(tail.len() == path.len() - 1);
                                assert(tail.first() == path[1]);
                                assert(path[1] == dest);
                                assert(tail.last() == path.last());
                                assert forall|i: int| 0 <= i < tail.len() implies in_bounds(
                                    #[trigger] tail[i],
                                    sw,
                                    sh,
                                ) by {
                                    assert(tail[i] == path[i + 1]);
                                }
                                assert forall|i: int| 0 <= i < tail.len() - 1 implies is_jump(
                                    #[trigger] tail[i],
                                    tail[i + 1],
                                    sp,
                                    sq,
                                ) by {
                                    assert(tail[i] == path[i + 1]);
                                    assert(tail[i + 1] == path[i + 2]);
                                    assert(is_jump(path[i + 1], path[i + 2], sp, sq));
                                }
                                assert(is_path(tail, sw, sh, sp, sq));
                                assert(is_simple(tail)) by {
                                    assert forall|i: int, j: int|
                                        0 <= i < j < tail.len() implies tail[i] != tail[j] by {
                                        assert(tail[i] == path[i + 1]);
                                        assert(tail[j] == path[j + 1]);
                                    }
                                }
                                assert forall|i: int| 1 <= i < tail.len() implies !gpath2.contains(
                                    #[trigger] tail[i],
                                ) by {
                                    assert(tail[i] == path[i + 1]);
                                    lemma_contains_push(
                                        gpath,
                                        (nx as int, ny as int),
                                        path[i + 1],
                                    );
                                    assert(path[i + 1] != path[1]);
                                }
                                assert(min_le(
                                    self.spec_min_jums(),
                                    (curr_jums + 1) + tail.len() - 1,
                                ));
                            }
                        }
                    }
                } else {
                    proof {
                        assert forall|path: Seq<(int, int)>|
                            is_path(path, sw, sh, sp, sq) && #[trigger] is_simple(path)
                                && path.first() == c && path.last() == tv && (forall|i: int|
                                1 <= i < path.len() ==> !gpath.contains(#[trigger] path[i]))
                                && path.len() >= 2 && (exists|k2: int|
                                0 <= k2 < k + 1 && path[1] == #[trigger] step_point(
                                    c,
                                    k2,
                                    sp,
                                    sq,
                                )) implies min_le(
                            self.spec_min_jums(),
                            curr_jums + path.len() - 1,
                        ) by {
                            let k2 = choose|k2: int|
                                0 <= k2 < k + 1 && path[1] == #[trigger] step_point(c, k2, sp, sq);
                            if k2 == k {
                                assert(path[1] == dest);
                                assert(gpath.contains(path[1]));
                                assert(false);
                            }
                        }
                    }
                }
            } else {
                proof {
                    assert forall|path: Seq<(int, int)>|
                        is_path(path, sw, sh, sp, sq) && #[trigger] is_simple(path) && path.first()
                            == c && path.last() == tv && (forall|i: int|
                            1 <= i < path.len() ==> !gpath.contains(#[trigger] path[i]))
                            && path.len() >= 2 && (exists|k2: int|
                            0 <= k2 < k + 1 && path[1] == #[trigger] step_point(
                                c,
                                k2,
                                sp,
                                sq,
                            )) implies min_le(self.spec_min_jums(), curr_jums + path.len() - 1) by {
                        let k2 = choose|k2: int|
                            0 <= k2 < k + 1 && path[1] == #[trigger] step_point(c, k2, sp, sq);
                        if k2 == k {
                            assert(in_bounds(path[1], sw, sh));
                            assert(path[1] == dest);
                            assert(false);
                        }
                    }
                }
            }
            k += 1;
        }
        proof {
            assert forall|path: Seq<(int, int)>|
                is_path(path, sw, sh, sp, sq) && #[trigger] is_simple(path) && path.first()
                    == gpath.last() && path.last() == tv && (forall|i: int|
                    1 <= i < path.len() ==> !gpath.contains(
                        #[trigger] path[i],
                    )) implies min_le(self.spec_min_jums(), curr_jums + path.len() - 1) by {
                assert(path.len() >= 2) by {
                    if path.len() == 1 {
                        assert(path.first() == path.last());
                        assert(false);
                    }
                }
                assert(is_jump(path[0], path[1], sp, sq));
                let k2 = choose|k2: int|
                    0 <= k2 < 8 && path[1] == #[trigger] step_point(path[0], k2, sp, sq);
                assert(path[0] == c);
                assert(path[1] == step_point(c, k2, sp, sq));
            }
        }
    }
}

impl Report for JumpOptimizer<Ready> {
    open spec fn spec_report(&self) -> Seq<char> {
        match self.spec_min_jums() {
            Some(jumps) => "> The minimum number of jumps done to go from point `A` to point `B` is "@
                + dec_digits(jumps as nat) + "."@,
            None => "> It was not possible to get from point `A` to point `B`."@,
        }
    }

    fn report(&self) -> (text: String) {
        match self.min_jums {
            Some(jumps) => {
                let mut text = String::from_str(
                    "> The minimum number of jumps done to go from point `A` to point `B` is ",
                );
                text.append(usize_to_string(jumps).as_str());
                text.append(".");
                text
            },
            None => String::from_str("> It was not possible to get from point `A` to point `B`."),
        }
    }
}

} // verus!
