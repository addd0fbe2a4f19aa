//! The simulation engine: a set of live cells on a `width` x `height` torus.

use vstd::prelude::*;
use vstd::arithmetic::div_mod::{
    lemma_fundamental_div_mod, lemma_mod_multiples_vanish, lemma_small_mod,
};

verus! {

/// A grid position `(x, y)`, 1-based.
pub type Pos = (i32, i32);

/// Maps the coordinate `v` onto `1..=n` with Euclidean remainder.
pub open spec fn wrap_coord(v: int, n: int) -> int {
    (v - 1) % n + 1
}

/// The position `(x, y)` carried around the torus into `[1, w] x [1, h]`.
pub open spec fn wrap_pos(w: int, h: int, x: int, y: int) -> Pos {
    (wrap_coord(x, w) as i32, wrap_coord(y, h) as i32)
}

/// `p` lies on the grid.
pub open spec fn in_grid(w: int, h: int, p: Pos) -> bool {
    1 <= p.0 <= w && 1 <= p.1 <= h
}

/// The eight Moore neighbours of `p`, each wrapped onto the torus.
pub open spec fn neighbours(w: int, h: int, p: Pos) -> Seq<Pos> {
    let (x, y) = (p.0 as int, p.1 as int);
    seq![
        wrap_pos(w, h, x - 1, y - 1),
        wrap_pos(w, h, x, y - 1),
        wrap_pos(w, h, x + 1, y - 1),
        wrap_pos(w, h, x - 1, y),
        wrap_pos(w, h, x + 1, y),
        wrap_pos(w, h, x - 1, y + 1),
        wrap_pos(w, h, x, y + 1),
        wrap_pos(w, h, x + 1, y + 1),
    ]
}

/// How many entries of `ns` are live; a position listed twice counts twice.
pub open spec fn count_live(live: Set<Pos>, ns: Seq<Pos>) -> nat
    decreases ns.len(),
{
    if ns.len() == 0 {
        0
    } else {
        count_live(live, ns.drop_last()) + if live.contains(ns.last()) {
            1nat
        } else {
            0nat
        }
    }
}

/// The number of live neighbours of `p`.
pub open spec fn live_neighbours(w: int, h: int, live: Set<Pos>, p: Pos) -> nat {
    count_live(live, neighbours(w, h, p))
}

/// `p` is a neighbour of some live cell.
pub open spec fn touches_live(w: int, h: int, live: Set<Pos>, p: Pos) -> bool {
    exists|q: Pos| live.contains(q) && #[trigger] neighbours(w, h, q).contains(p)
}

/// A live cell survives with two or three live neighbours.
pub open spec fn survives(w: int, h: int, live: Set<Pos>, p: Pos) -> bool {
    live.contains(p) && (live_neighbours(w, h, live, p) == 2 || live_neighbours(w, h, live, p) == 3)
}

/// A dead cell next to a live one is born with exactly three live neighbours.
pub open spec fn is_born(w: int, h: int, live: Set<Pos>, p: Pos) -> bool {
    !live.contains(p) && touches_live(w, h, live, p) && live_neighbours(w, h, live, p) == 3
}

/// The cells of `cells` that survive, in the order of `cells`.
pub open spec fn surviving_cells(w: int, h: int, live: Set<Pos>, cells: Seq<Pos>) -> Seq<Pos> {
    cells.filter(|p: Pos| survives(w, h, live, p))
}

/// The live cells of the generation after `live`.
pub open spec fn next_live(w: int, h: int, live: Set<Pos>) -> Set<Pos> {
    Set::new(|p: Pos| survives(w, h, live, p) || is_born(w, h, live, p))
}

/// The live cells after `n` generations from `live`.
pub open spec fn generations(w: int, h: int, live: Set<Pos>, n: nat) -> Set<Pos>
    decreases n,
{
    if n == 0 {
        live
    } else {
        next_live(w, h, generations(w, h, live, (n - 1) as nat))
    }
}

/// Dimensions that a board can have.
pub open spec fn valid_dims(w: int, h: int) -> bool {
    1 <= w <= i32::MAX && 1 <= h <= i32::MAX
}

proof fn lemma_wrap_coord_range(v: int, n: int)
    requires
        1 <= n,
    ensures
        1 <= wrap_coord(v, n) <= n,
{
}

/// A wrapped position lies on the grid.
pub proof fn lemma_wrap_in_grid(w: int, h: int, x: int, y: int)
    requires
        valid_dims(w, h),
    ensures
        in_grid(w, h, wrap_pos(w, h, x, y)),
        wrap_pos(w, h, x, y).0 == wrap_coord(x, w),
        wrap_pos(w, h, x, y).1 == wrap_coord(y, h),
{
    lemma_wrap_coord_range(x, w);
    lemma_wrap_coord_range(y, h);
}

/// Wrapping leaves a position that already lies on the grid where it is.
pub proof fn lemma_wrap_idempotent(w: int, h: int, p: Pos)
    requires
        valid_dims(w, h),
        in_grid(w, h, p),
    ensures
        wrap_pos(w, h, p.0 as int, p.1 as int) == p,
{
    lemma_small_mod((p.0 - 1) as nat, w as nat);
    lemma_small_mod((p.1 - 1) as nat, h as nat);
}

/// Wrapping is periodic: shifting by any multiple of the width (or of the
/// height) along its axis does not change the wrapped position.
pub proof fn lemma_wrap_periodic(w: int, h: int, x: int, y: int, k: int)
    requires
        valid_dims(w, h),
    ensures
        wrap_pos(w, h, x + k * w, y) == wrap_pos(w, h, x, y),
        wrap_pos(w, h, x, y + k * h) == wrap_pos(w, h, x, y),
{
    lemma_mod_multiples_vanish(k, x - 1, w);
    lemma_mod_multiples_vanish(k, y - 1, h);
    assert(x + k * w - 1 == w * k + (x - 1)) by (nonlinear_arith);
    assert(y + k * h - 1 == h * k + (y - 1)) by (nonlinear_arith);
}

/// Every position has exactly eight neighbour entries.
pub proof fn lemma_neighbour_count(w: int, h: int, p: Pos)
    ensures
        neighbours(w, h, p).len() == 8,
{
}

/// The step along `x` to the neighbour listed at index `i`.
pub open spec fn offset_x(i: int) -> int {
    if i == 0 || i == 3 || i == 5 {
        -1
    } else if i == 1 || i == 6 {
        0
    } else {
        1
    }
}

/// The step along `y` to the neighbour listed at index `i`.
pub open spec fn offset_y(i: int) -> int {
    if i < 3 {
        -1
    } else if i < 5 {
        0
    } else {
        1
    }
}

/// Moving `a` forward by less than a full turn changes its remainder.
pub proof fn lemma_shift_changes_mod(a: int, d: int, n: int)
    requires
        0 < d < n,
    ensures
        (a + d) % n != a % n,
{
    lemma_fundamental_div_mod(a, n);
    lemma_fundamental_div_mod(a + d, n);
    let k = (a + d) / n - a / n;
    if (a + d) % n == a % n {
        assert(d == n * k) by (nonlinear_arith)
            requires
                a == n * (a / n) + a % n,
                a + d == n * ((a + d) / n) + (a + d) % n,
                (a + d) % n == a % n,
                k == (a + d) / n - a / n,
        ;
        assert(false) by (nonlinear_arith)
            requires
                d == n * k,
                0 < d < n,
        ;
    }
}

proof fn lemma_wrap_coord_distinct(v: int, a: int, b: int, n: int)
    requires
        3 <= n <= i32::MAX,
        -1 <= a < b <= 1,
    ensures
        wrap_coord(v + a, n) as i32 != wrap_coord(v + b, n) as i32,
{
    lemma_wrap_coord_range(v + a, n);
    lemma_wrap_coord_range(v + b, n);
    lemma_shift_changes_mod(v + a - 1, b - a, n);
    assert(v + b - 1 == (v + a - 1) + (b - a));
}

/// On a grid at least three cells wide and high the eight neighbours of a
/// position are distinct; repeats come only from a width or height of 1 or 2.
pub proof fn lemma_neighbours_distinct(w: int, h: int, p: Pos)
    requires
        valid_dims(w, h),
        3 <= w,
        3 <= h,
    ensures
        neighbours(w, h, p).no_duplicates(),
{
    let (x, y) = (p.0 as int, p.1 as int);
    let ns = neighbours(w, h, p);
    assert forall|i: int| 0 <= i < 8 implies #[trigger] ns[i] == wrap_pos(
        w,
        h,
        x + offset_x(i),
        y + offset_y(i),
    ) by {}
    assert forall|i: int, j: int| 0 <= i < j < 8 implies ns[i] != ns[j] by {
        if offset_x(i) != offset_x(j) {
            if offset_x(i) < offset_x(j) {
                lemma_wrap_coord_distinct(x, offset_x(i), offset_x(j), w);
            } else {
                lemma_wrap_coord_distinct(x, offset_x(j), offset_x(i), w);
            }
        } else {
            lemma_wrap_coord_distinct(y, offset_y(i), offset_y(j), h);
        }
    }
}

/// The neighbours of any position lie on the grid.
pub proof fn lemma_neighbours_in_grid(w: int, h: int, p: Pos)
    requires
        valid_dims(w, h),
    ensures
        forall|i: int| 0 <= i < 8 ==> #[trigger] in_grid(w, h, neighbours(w, h, p)[i]),
{
    let (x, y) = (p.0 as int, p.1 as int);
    lemma_wrap_in_grid(w, h, x - 1, y - 1);
    lemma_wrap_in_grid(w, h, x, y - 1);
    lemma_wrap_in_grid(w, h, x + 1, y - 1);
    lemma_wrap_in_grid(w, h, x - 1, y);
    lemma_wrap_in_grid(w, h, x + 1, y);
    lemma_wrap_in_grid(w, h, x - 1, y + 1);
    lemma_wrap_in_grid(w, h, x, y + 1);
    lemma_wrap_in_grid(w, h, x + 1, y + 1);
}

/// Extinction is absorbing: with no live cell nothing survives and nothing is
/// born, so an empty board stays empty for any number of generations.
pub proof fn lemma_extinct_stays_extinct(w: int, h: int, n: nat)
    ensures
        generations(w, h, Set::<Pos>::empty(), n) == Set::<Pos>::empty(),
    decreases n,
{
    if n > 0 {
        lemma_extinct_stays_extinct(w, h, (n - 1) as nat);
        assert(next_live(w, h, Set::<Pos>::empty()) =~= Set::<Pos>::empty());
    }
}

/// The cells of `s` wrapped onto the grid, each kept at its first occurrence.
pub open spec fn normalise(w: int, h: int, s: Seq<Pos>) -> Seq<Pos>
    decreases s.len(),
{
    if s.len() == 0 {
        Seq::empty()
    } else {
        let prev = normalise(w, h, s.drop_last());
        let p = wrap_pos(w, h, s.last().0 as int, s.last().1 as int);
        if prev.contains(p) {
            prev
        } else {
            prev.push(p)
        }
    }
}

/// What normalising gives: distinct cells on the grid, the wrapped images of
/// the input; a list that is already distinct and on the grid is unchanged.
pub proof fn lemma_normalise(w: int, h: int, s: Seq<Pos>)
    requires
        valid_dims(w, h),
    ensures
        normalise(w, h, s).no_duplicates(),
        forall|i: int|
            0 <= i < normalise(w, h, s).len() ==> #[trigger] in_grid(w, h, normalise(w, h, s)[i]),
        forall|p: Pos|
            normalise(w, h, s).contains(p) <==> exists|i: int|
                0 <= i < s.len() && p == #[trigger] wrap_pos(w, h, s[i].0 as int, s[i].1 as int),
        (s.no_duplicates() && forall|i: int| 0 <= i < s.len() ==> #[trigger] in_grid(w, h, s[i]))
            ==> normalise(w, h, s) == s,
    decreases s.len(),
{
    if s.len() > 0 {
        let t = s.drop_last();
        lemma_normalise(w, h, t);
        let prev = normalise(w, h, t);
        let last = s.last();
        let p = wrap_pos(w, h, last.0 as int, last.1 as int);
        lemma_wrap_in_grid(w, h, last.0 as int, last.1 as int);
        let n = normalise(w, h, s);
        assert forall|q: Pos| n.contains(q) <==> exists|i: int|
            0 <= i < s.len() && q == #[trigger] wrap_pos(w, h, s[i].0 as int, s[i].1 as int) by {
            if n.contains(q) {
                if prev.contains(q) {
                    let i = choose|i: int|
                        0 <= i < t.len() && q == #[trigger] wrap_pos(w, h, t[i].0 as int, t[i].1 as int);
                    assert(s[i] == t[i]);
                } else {
                    let k = choose|k: int| 0 <= k < n.len() && n[k] == q;
                    assert(q == p);
                    assert(s[s.len() - 1] == last);
                }
            }
            if exists|i: int|
                0 <= i < s.len() && q == #[trigger] wrap_pos(w, h, s[i].0 as int, s[i].1 as int) {
                let i = choose|i: int|
                    0 <= i < s.len() && q == #[trigger] wrap_pos(w, h, s[i].0 as int, s[i].1 as int);
                if i < s.len() - 1 {
                    assert(t[i] == s[i]);
                    assert(prev.contains(q));
                    if !prev.contains(p) {
                        let k = choose|k: int| 0 <= k < prev.len() && prev[k] == q;
                        assert(n[k] == q);
                    }
                } else {
                    if !prev.contains(p) {
                        assert(n[n.len() - 1] == q);
                    }
                }
            }
        }
        if s.no_duplicates() && forall|i: int| 0 <= i < s.len() ==> #[trigger] in_grid(w, h, s[i]) {
            assert forall|i: int| 0 <= i < t.len() implies #[trigger] in_grid(w, h, t[i]) by {
                assert(t[i] == s[i]);
            }
            assert(t.no_duplicates());
            assert(in_grid(w, h, s[s.len() - 1]));
            lemma_wrap_idempotent(w, h, last);
            assert(!t.contains(last));
            assert(s =~= t.push(last));
        }
    }
}

/// `(x, y)` carried onto a `w` x `h` torus; the coordinates are taken wide so
/// that a step off either end of the `i32` range stays exact.
fn wrap_wide(w: i32, h: i32, x: i64, y: i64) -> (r: Pos)
    requires
        valid_dims(w as int, h as int),
        i64::MIN < x,
        i64::MIN < y,
    ensures
        r == wrap_pos(w as int, h as int, x as int, y as int),
        in_grid(w as int, h as int, r),
{
    proof {
        lemma_wrap_in_grid(w as int, h as int, x as int, y as int);
    }
    let a = (x - 1).checked_rem_euclid(w as i64).unwrap();
    let b = (y - 1).checked_rem_euclid(h as i64).unwrap();
    ((a + 1) as i32, (b + 1) as i32)
}

/// Whether `v` holds `p`.
fn contains_pos(v: &Vec<Pos>, p: &Pos) -> (r: bool)
    ensures
        r == v@.contains(*p),
{
    let mut i: usize = 0;
    while i < v.len()
        invariant
            0 <= i <= v@.len(),
            forall|j: int| 0 <= j < i ==> v@[j] != *p,
        decreases v@.len() - i,
    {
        let c = v[i];
        if c.0 == p.0 && c.1 == p.1 {
            assert(v@[i as int] == *p);
            return true;
        }
        i += 1;
    }
    false
}

/// The order of positions: by `x`, then by `y`.
pub open spec fn pos_lt(a: Pos, b: Pos) -> bool {
    a.0 < b.0 || (a.0 == b.0 && a.1 < b.1)
}

/// `s` is strictly increasing in position order.
pub open spec fn strictly_sorted(s: Seq<Pos>) -> bool {
    forall|i: int, j: int| 0 <= i < j < s.len() ==> pos_lt(#[trigger] s[i], #[trigger] s[j])
}

/// Adds `p` to the strictly sorted `v` unless it is there already.
fn insert_sorted(v: &mut Vec<Pos>, p: Pos)
    requires
        strictly_sorted(old(v)@),
    ensures
        strictly_sorted(final(v)@),
        forall|q: Pos| final(v)@.contains(q) <==> (old(v)@.contains(q) || q == p),
{
    let ghost before = v@;
    let mut j: usize = 0;
    while j < v.len() && (v[j].0 < p.0 || (v[j].0 == p.0 && v[j].1 < p.1))
        invariant
            v@ == before,
            strictly_sorted(before),
            0 <= j <= v@.len(),
            forall|k: int| 0 <= k < j ==> pos_lt(#[trigger] v@[k], p),
        decreases v@.len() - j,
    {
        j += 1;
    }
    if j < v.len() && v[j].0 == p.0 && v[j].1 == p.1 {
        return;
    }
    v.insert(j, p);
    proof {
        let after = v@;
        assert forall|k: int| 0 <= k < after.len() implies #[trigger] after[k] == if k < j {
            before[k]
        } else if k == j {
            p
        } else {
            before[k - 1]
        } by {}
        if j < before.len() {
            assert(pos_lt(p, before[j as int]));
        }
        assert forall|a: int, b: int| 0 <= a < b < after.len() implies pos_lt(
            #[trigger] after[a],
            #[trigger] after[b],
        ) by {
            if b == j {
            } else if a == j {
                assert(pos_lt(p, before[j as int]));
                if b - 1 > j {
                    assert(pos_lt(before[j as int], before[b - 1]));
                }
            } else if a < j && b > j {
                assert(pos_lt(before[a], p));
                assert(pos_lt(p, before[j as int]));
            } else if a > j {
                assert(pos_lt(before[a - 1], before[b - 1]));
            } else {
                assert(pos_lt(before[a], before[b]));
            }
        }
        assert forall|q: Pos| after.contains(q) <==> (before.contains(q) || q == p) by {
            if after.contains(q) {
                let k = choose|k: int| 0 <= k < after.len() && after[k] == q;
                if k < j {
                    assert(before[k] == q);
                } else if k > j {
                    assert(before[k - 1] == q);
                }
            }
            if before.contains(q) {
                let k = choose|k: int| 0 <= k < before.len() && before[k] == q;
                if k < j {
                    assert(after[k] == q);
                } else {
                    assert(after[k + 1] == q);
                }
            }
            if q == p {
                assert(after[j as int] == q);
            }
        }
    }
}

/// A board: the live cells of one generation on a torus of fixed size.
#[derive(Debug, PartialEq, Eq)]
pub struct Board {
    cells: Vec<Pos>,
    width: i32,
    height: i32,
}

impl Board {
    /// The live cells, in the order the board keeps them.
    pub closed spec fn spec_cells(&self) -> Seq<Pos> {
        self.cells@
    }

    pub closed spec fn spec_width(&self) -> int {
        self.width as int
    }

    pub closed spec fn spec_height(&self) -> int {
        self.height as int
    }

    /// The set of live cells.
    pub open spec fn live(&self) -> Set<Pos> {
        self.spec_cells().to_set()
    }

    /// Positive dimensions; every cell on the grid; no cell twice.
    pub open spec fn wf(&self) -> bool {
        &&& valid_dims(self.spec_width(), self.spec_height())
        &&& self.spec_cells().no_duplicates()
        &&& forall|i: int|
            0 <= i < self.spec_cells().len() ==> #[trigger] in_grid(
                self.spec_width(),
                self.spec_height(),
                self.spec_cells()[i],
            )
    }

    /// A board of the given size whose live cells are `cells`, each wrapped
    /// onto the grid and kept once.
    pub fn new(width: i32, height: i32, cells: &Vec<Pos>) -> (r: Board)
        requires
            1 <= width,
            1 <= height,
        ensures
            r.wf(),
            r.spec_width() == width,
            r.spec_height() == height,
            r.spec_cells() == normalise(width as int, height as int, cells@),
    {
        let ghost w = width as int;
        let ghost h = height as int;
        let mut out: Vec<Pos> = Vec::new();
        let mut i: usize = 0;
        while i < cells.len()
            invariant
                valid_dims(w, h),
                w == width,
                h == height,
                0 <= i <= cells@.len(),
                out@ == normalise(w, h, cells@.take(i as int)),
            decreases cells@.len() - i,
        {
            let c = cells[i];
            let p = wrap_wide(width, height, c.0 as i64, c.1 as i64);
            proof {
                assert(cells@.take(i + 1).drop_last() =~= cells@.take(i as int));
                assert(cells@.take(i + 1).last() == c);
            }
            if !contains_pos(&out, &p) {
                out.push(p);
            }
            i += 1;
        }
        proof {
            assert(cells@.take(cells@.len() as int) =~= cells@);
            lemma_normalise(w, h, cells@);
        }
        Board { cells: out, width, height }
    }

    /// Whether no cell is alive.
    pub fn is_extinct(&self) -> (r: bool)
        ensures
            r == (self.live() =~= Set::<Pos>::empty()),
    {
        proof {
            if self.spec_cells().len() > 0 {
                assert(self.live().contains(self.spec_cells()[0]));
            }
        }
        self.cells.len() == 0
    }

    /// The next generation, on a board of the same size: the survivors in this
    /// board's order, followed by the births in position order.
    pub fn next_gen(&self) -> (r: Board)
        requires
            self.wf(),
        ensures
            r.wf(),
            r.spec_width() == self.spec_width(),
            r.spec_height() == self.spec_height(),
            r.live() == next_live(self.spec_width(), self.spec_height(), self.live()),
            r.spec_cells().take(
                surviving_cells(self.spec_width(), self.spec_height(), self.live(), self.spec_cells()).len() as int,
            ) == surviving_cells(self.spec_width(), self.spec_height(), self.live(), self.spec_cells()),
            strictly_sorted(
                r.spec_cells().skip(
                    surviving_cells(self.spec_width(), self.spec_height(), self.live(), self.spec_cells()).len() as int,
                ),
            ),
    {
        let ghost w = self.spec_width();
        let ghost h = self.spec_height();
        let mut survivors = self.survivors();
        let mut births = self.births();
        let ghost sv = survivors@;
        let ghost bs = births@;
        survivors.append(&mut births);
        let r = Board { cells: survivors, width: self.width, height: self.height };
        proof {
            let all = r.spec_cells();
            assert(all == sv + bs);
            assert(all.take(sv.len() as int) =~= sv);
            assert(all.skip(sv.len() as int) =~= bs);
            assert forall|i: int, j: int| 0 <= i < j < all.len() implies all[i] != all[j] by {
                if j < sv.len() {
                } else if i >= sv.len() {
                    assert(all[i] == bs[i - sv.len()]);
                    assert(all[j] == bs[j - sv.len()]);
                } else {
                    assert(all[i] == sv[i]);
                    assert(all[j] == bs[j - sv.len()]);
                    assert(self.live().contains(sv[i]));
                    assert(!self.live().contains(bs[j - sv.len()]));
                }
            }
            assert forall|i: int| 0 <= i < all.len() implies #[trigger] in_grid(w, h, all[i]) by {
                if i < sv.len() {
                    assert(all[i] == sv[i]);
                    assert(self.live().contains(sv[i]));
                    let j = choose|j: int| 0 <= j < self.spec_cells().len() && self.spec_cells()[j] == sv[i];
                    assert(in_grid(w, h, self.spec_cells()[j]));
                } else {
                    assert(all[i] == bs[i - sv.len()]);
                    assert(in_grid(w, h, bs[i - sv.len()]));
                }
            }
            assert forall|p: Pos| r.live().contains(p) <==> next_live(w, h, self.live()).contains(p) by {
                if all.contains(p) {
                    let k = choose|k: int| 0 <= k < all.len() && all[k] == p;
                    if k < sv.len() {
                        assert(sv[k] == p);
                        assert(sv.contains(p));
                    } else {
                        assert(bs[k - sv.len()] == p);
                        assert(bs.contains(p));
                    }
                }
                if sv.contains(p) {
                    let k = choose|k: int| 0 <= k < sv.len() && sv[k] == p;
                    assert(all[k] == p);
                }
                if bs.contains(p) {
                    let k = choose|k: int| 0 <= k < bs.len() && bs[k] == p;
                    assert(all[k + sv.len()] == p);
                }
            }
            assert(r.live() =~= next_live(w, h, self.live()));
        }
        r
    }

    /// Hands each live cell to `callback`, once, in the board's order.
    pub fn walk<F: Fn(Pos)>(&self, callback: F)
        requires
            forall|p: Pos| #[trigger] call_requires(callback, (p,)),
    {
        let mut i: usize = 0;
        while i < self.cells.len()
            invariant
                0 <= i <= self.cells@.len(),
                forall|p: Pos| #[trigger] call_requires(callback, (p,)),
            decreases self.cells@.len() - i,
        {
            callback(self.cells[i]);
            i += 1;
        }
    }

    pub fn width(&self) -> (r: i32)
        ensures
            r == self.spec_width(),
    {
        self.width
    }

    pub fn height(&self) -> (r: i32)
        ensures
            r == self.spec_height(),
    {
        self.height
    }

    /// Carries `pos` around the torus onto the grid.
    pub fn wrap(&self, pos: Pos) -> (r: Pos)
        requires
            self.wf(),
        ensures
            r == wrap_pos(self.spec_width(), self.spec_height(), pos.0 as int, pos.1 as int),
    {
        wrap_wide(self.width, self.height, pos.0 as i64, pos.1 as i64)
    }

    /// The eight wrapped Moore neighbours of `pos`.
    pub fn neighbs(&self, pos: &Pos) -> (r: Vec<Pos>)
        requires
            self.wf(),
        ensures
            r@ == neighbours(self.spec_width(), self.spec_height(), *pos),
    {
        let x = pos.0 as i64;
        let y = pos.1 as i64;
        let r = vec![
            wrap_wide(self.width, self.height, x - 1, y - 1),
            wrap_wide(self.width, self.height, x, y - 1),
            wrap_wide(self.width, self.height, x + 1, y - 1),
            wrap_wide(self.width, self.height, x - 1, y),
            wrap_wide(self.width, self.height, x + 1, y),
            wrap_wide(self.width, self.height, x - 1, y + 1),
            wrap_wide(self.width, self.height, x, y + 1),
            wrap_wide(self.width, self.height, x + 1, y + 1),
        ];
        assert(r@ =~= neighbours(self.spec_width(), self.spec_height(), *pos));
        r
    }

    /// `pos` is a live cell.
    fn is_alive(&self, pos: &Pos) -> (r: bool)
        ensures
            r == self.live().contains(*pos),
    {
        contains_pos(&self.cells, pos)
    }

    /// `pos` is not a live cell.
    fn is_empty(&self, pos: &Pos) -> (r: bool)
        ensures
            r == !self.live().contains(*pos),
    {
        !self.is_alive(pos)
    }

    /// The number of live neighbours of `pos`.
    fn live_neighbs(&self, pos: &Pos) -> (r: u32)
        requires
            self.wf(),
        ensures
            r == live_neighbours(self.spec_width(), self.spec_height(), self.live(), *pos),
    {
        let ns = self.neighbs(pos);
        let mut count: u32 = 0;
        let mut i: usize = 0;
        while i < ns.len()
            invariant
                ns@.len() == 8,
                0 <= i <= 8,
                count == count_live(self.live(), ns@.take(i as int)),
                count <= i,
            decreases 8 - i,
        {
            assert(ns@.take(i + 1).drop_last() =~= ns@.take(i as int));
            if self.is_alive(&ns[i]) {
                count += 1;
            }
            i += 1;
        }
        assert(ns@.take(8) =~= ns@);
        count
    }

    /// The live cells that stay alive, in the board's order.
    fn survivors(&self) -> (r: Vec<Pos>)
        requires
            self.wf(),
        ensures
            r@ == surviving_cells(self.spec_width(), self.spec_height(), self.live(), self.spec_cells()),
            r@.no_duplicates(),
            forall|p: Pos|
                r@.contains(p) <==> survives(self.spec_width(), self.spec_height(), self.live(), p),
            forall|i: int| 0 <= i < r@.len() ==> self.live().contains(#[trigger] r@[i]),
    {
        let ghost w = self.spec_width();
        let ghost h = self.spec_height();
        let mut out: Vec<Pos> = Vec::new();
        let mut i: usize = 0;
        while i < self.cells.len()
            invariant
                self.wf(),
                w == self.spec_width(),
                h == self.spec_height(),
                0 <= i <= self.cells@.len(),
                out@ == surviving_cells(w, h, self.live(), self.cells@.take(i as int)),
                out@.no_duplicates(),
                forall|k: int|
                    0 <= k < out@.len() ==> exists|j: int|
                        0 <= j < i && #[trigger] out@[k] == self.cells@[j],
                forall|k: int|
                    0 <= k < out@.len() ==> survives(w, h, self.live(), #[trigger] out@[k]),
                forall|j: int|
                    0 <= j < i && survives(w, h, self.live(), #[trigger] self.cells@[j])
                        ==> out@.contains(self.cells@[j]),
            decreases self.cells@.len() - i,
        {
            let c = self.cells[i];
            let n = self.live_neighbs(&c);
            let ghost before = out@;
            proof {
                reveal(Seq::filter);
                assert(self.cells@.take(i + 1).drop_last() =~= self.cells@.take(i as int));
                assert(self.cells@.take(i + 1).last() == c);
            }
            assert(self.live().contains(self.cells@[i as int]));
            if n == 2 || n == 3 {
                proof {
                    assert forall|k: int| 0 <= k < out@.len() implies out@[k] != c by {
                        let j = choose|j: int| 0 <= j < i && out@[k] == self.cells@[j];
                    }
                }
                out.push(c);
                proof {
                    assert forall|k: int| 0 <= k < out@.len() implies exists|j: int|
                        0 <= j < i + 1 && #[trigger] out@[k] == self.cells@[j] by {
                        if k == out@.len() - 1 {
                            assert(out@[k] == self.cells@[i as int]);
                        } else {
                            let j = choose|j: int| 0 <= j < i && out@[k] == self.cells@[j];
                        }
                    }
                    assert(out@[out@.len() - 1] == c);
                }
            }
            proof {
                assert forall|j: int|
                    0 <= j < i + 1 && survives(w, h, self.live(), #[trigger] self.cells@[j])
                        implies out@.contains(self.cells@[j]) by {
                    if j == i {
                        assert(out@[out@.len() - 1] == c);
                    } else {
                        let k = choose|k: int| 0 <= k < before.len() && before[k] == self.cells@[j];
                        assert(out@[k] == before[k]);
                    }
                }
            }
            i += 1;
        }
        proof {
            assert(self.cells@.take(self.cells@.len() as int) =~= self.cells@);
            assert forall|p: Pos|
                out@.contains(p) <==> survives(w, h, self.live(), p) by {
                if survives(w, h, self.live(), p) {
                    let j = choose|j: int| 0 <= j < self.cells@.len() && self.cells@[j] == p;
                }
            }
        }
        out
    }

    /// The dead cells next to live ones that come alive, in position order.
    fn births(&self) -> (r: Vec<Pos>)
        requires
            self.wf(),
        ensures
            strictly_sorted(r@),
            r@.no_duplicates(),
            forall|p: Pos|
                r@.contains(p) <==> is_born(self.spec_width(), self.spec_height(), self.live(), p),
            forall|i: int|
                0 <= i < r@.len() ==> !self.live().contains(#[trigger] r@[i]) && in_grid(
                    self.spec_width(),
                    self.spec_height(),
                    r@[i],
                ),
    {
        let ghost w = self.spec_width();
        let ghost h = self.spec_height();
        let mut cands: Vec<Pos> = Vec::new();
        let mut i: usize = 0;
        while i < self.cells.len()
            invariant
                self.wf(),
                w == self.spec_width(),
                h == self.spec_height(),
                0 <= i <= self.cells@.len(),
                strictly_sorted(cands@),
                forall|t: int|
                    0 <= t < cands@.len() ==> touches_live(w, h, self.live(), #[trigger] cands@[t]),
                forall|j: int, k: int|
                    0 <= j < i && 0 <= k < 8 ==> cands@.contains(
                        #[trigger] neighbours(w, h, self.cells@[j])[k],
                    ),
            decreases self.cells@.len() - i,
        {
            let c = self.cells[i];
            let ns = self.neighbs(&c);
            assert(self.live().contains(self.cells@[i as int]));
            let mut k: usize = 0;
            while k < ns.len()
                invariant
                    self.wf(),
                    w == self.spec_width(),
                    h == self.spec_height(),
                    0 <= i < self.cells@.len(),
                    c == self.cells@[i as int],
                    self.live().contains(c),
                    ns@ == neighbours(w, h, c),
                    0 <= k <= 8,
                    strictly_sorted(cands@),
                    forall|t: int|
                        0 <= t < cands@.len() ==> touches_live(w, h, self.live(), #[trigger] cands@[t]),
                    forall|j: int, k2: int|
                        0 <= j < i && 0 <= k2 < 8 ==> cands@.contains(
                            #[trigger] neighbours(w, h, self.cells@[j])[k2],
                        ),
                    forall|k2: int| 0 <= k2 < k ==> cands@.contains(#[trigger] ns@[k2]),
                decreases 8 - k,
            {
                let ghost before = cands@;
                insert_sorted(&mut cands, ns[k]);
                proof {
                    assert(ns@.contains(ns@[k as int]));
                    assert forall|t: int| 0 <= t < cands@.len() implies touches_live(
                        w,
                        h,
                        self.live(),
                        #[trigger] cands@[t],
                    ) by {
                        assert(cands@.contains(cands@[t]));
                        if cands@[t] != ns@[k as int] {
                            let u = choose|u: int| 0 <= u < before.len() && before[u] == cands@[t];
                            assert(touches_live(w, h, self.live(), before[u]));
                        }
                    }
                    assert forall|j: int, k2: int|
                        0 <= j < i && 0 <= k2 < 8 implies cands@.contains(
                        #[trigger] neighbours(w, h, self.cells@[j])[k2],
                    ) by {
                        assert(before.contains(neighbours(w, h, self.cells@[j])[k2]));
                    }
                    assert forall|k2: int| 0 <= k2 < k + 1 implies cands@.contains(
                        #[trigger] ns@[k2],
                    ) by {
                        if k2 < k {
                            assert(before.contains(ns@[k2]));
                        }
                    }
                }
                k += 1;
            }
            i += 1;
        }
        let mut out: Vec<Pos> = Vec::new();
        let mut t: usize = 0;
        while t < cands.len()
            invariant
                self.wf(),
                w == self.spec_width(),
                h == self.spec_height(),
                0 <= t <= cands@.len(),
                strictly_sorted(cands@),
                forall|u: int|
                    0 <= u < cands@.len() ==> touches_live(w, h, self.live(), #[trigger] cands@[u]),
                forall|j: int, k: int|
                    0 <= j < self.cells@.len() && 0 <= k < 8 ==> cands@.contains(
                        #[trigger] neighbours(w, h, self.cells@[j])[k],
                    ),
                strictly_sorted(out@),
                out@.no_duplicates(),
                forall|m: int|
                    0 <= m < out@.len() ==> exists|u: int|
                        0 <= u < t && #[trigger] out@[m] == cands@[u],
                forall|m: int| 0 <= m < out@.len() ==> is_born(w, h, self.live(), #[trigger] out@[m]),
                forall|u: int|
                    0 <= u < t && is_born(w, h, self.live(), #[trigger] cands@[u]) ==> out@.contains(
                        cands@[u],
                    ),
            decreases cands@.len() - t,
        {
            let c = cands[t];
            let ghost before = out@;
            if self.is_empty(&c) && self.live_neighbs(&c) == 3 {
                proof {
                    assert forall|m: int| 0 <= m < out@.len() implies out@[m] != c && pos_lt(
                        #[trigger] out@[m],
                        c,
                    ) by {
                        let u = choose|u: int| 0 <= u < t && out@[m] == cands@[u];
                        assert(pos_lt(cands@[u], cands@[t as int]));
                    }
                }
                out.push(c);
                proof {
                    assert forall|a: int, b: int| 0 <= a < b < out@.len() implies pos_lt(
                        #[trigger] out@[a],
                        #[trigger] out@[b],
                    ) by {
                        assert(out@[a] == before[a]);
                        if b < before.len() {
                            assert(out@[b] == before[b]);
                        } else {
                            assert(pos_lt(before[a], c));
                        }
                    }
                    assert(out@[out@.len() - 1] == c);
                    assert forall|m: int| 0 <= m < out@.len() implies exists|u: int|
                        0 <= u < t + 1 && #[trigger] out@[m] == cands@[u] by {
                        if m == out@.len() - 1 {
                            assert(out@[m] == cands@[t as int]);
                        } else {
                            let u = choose|u: int| 0 <= u < t && out@[m] == cands@[u];
                            assert(out@[m] == before[m]);
                        }
                    }
                }
            }
            proof {
                assert forall|u: int|
                    0 <= u < t + 1 && is_born(w, h, self.live(), #[trigger] cands@[u])
                        implies out@.contains(cands@[u]) by {
                    if u == t {
                        assert(out@[out@.len() - 1] == c);
                    } else {
                        let m = choose|m: int| 0 <= m < before.len() && before[m] == cands@[u];
                        assert(out@[m] == before[m]);
                    }
                }
            }
            t += 1;
        }
        proof {
            assert forall|p: Pos|
                out@.contains(p) <==> is_born(w, h, self.live(), p) by {
                if is_born(w, h, self.live(), p) {
                    let q = choose|q: Pos| self.live().contains(q) && #[trigger] neighbours(w, h, q).contains(p);
                    let j = choose|j: int| 0 <= j < self.cells@.len() && self.cells@[j] == q;
                    let k = choose|k: int| 0 <= k < neighbours(w, h, q).len() && neighbours(w, h, q)[k] == p;
                    assert(cands@.contains(neighbours(w, h, self.cells@[j])[k]));
                    let u = choose|u: int| 0 <= u < cands@.len() && cands@[u] == p;
                }
                if out@.contains(p) {
                    let m = choose|m: int| 0 <= m < out@.len() && out@[m] == p;
                }
            }
            assert forall|m: int| 0 <= m < out@.len() implies !self.live().contains(
                #[trigger] out@[m],
            ) && in_grid(w, h, out@[m]) by {
                assert(is_born(w, h, self.live(), out@[m]));
                let q = choose|q: Pos| self.live().contains(q) && #[trigger] neighbours(w, h, q).contains(out@[m]);
                let k = choose|k: int| 0 <= k < neighbours(w, h, q).len() && neighbours(w, h, q)[k] == out@[m];
                lemma_neighbours_in_grid(w, h, q);
                assert(in_grid(w, h, neighbours(w, h, q)[k]));
            }
        }
        out
    }
}

} // verus!
