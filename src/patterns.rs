//! Two classic patterns on the torus: the 2 x 2 block, which never changes,
//! and the three-cell blinker, which turns between a row and a column.

use vstd::prelude::*;
use vstd::arithmetic::div_mod::{lemma_fundamental_div_mod, lemma_mod_multiples_vanish, lemma_small_mod};

use crate::board::{
    count_live, in_grid, is_born, lemma_neighbours_in_grid, lemma_shift_changes_mod,
    lemma_wrap_in_grid, live_neighbours, neighbours, next_live, offset_x, offset_y, survives,
    touches_live, valid_dims, wrap_coord, wrap_pos, generations, Pos,
};

verus! {

/// The four cells of the 2 x 2 block whose corner with the least coordinates
/// is `(a, b)`, wrapped onto the grid.
pub open spec fn block(w: int, h: int, a: int, b: int) -> Set<Pos> {
    set![
        wrap_pos(w, h, a, b),
        wrap_pos(w, h, a + 1, b),
        wrap_pos(w, h, a, b + 1),
        wrap_pos(w, h, a + 1, b + 1),
    ]
}

/// How far `v` lies past `a` going round a circle of `n` cells.
spec fn rel(v: int, a: int, n: int) -> int {
    (v - a) % n
}

proof fn lemma_rel_shift(v: int, a: int, n: int, o: int)
    requires
        1 <= n,
    ensures
        rel(v + o, a, n) == (rel(v, a, n) + o) % n,
{
    lemma_fundamental_div_mod(v - a, n);
    let q = (v - a) / n;
    lemma_mod_multiples_vanish(q, rel(v, a, n) + o, n);
    assert(v + o - a == n * q + (rel(v, a, n) + o));
}

proof fn lemma_rel_wrap(t: int, a: int, n: int)
    requires
        1 <= n,
    ensures
        rel(wrap_coord(t, n), a, n) == rel(t, a, n),
{
    lemma_fundamental_div_mod(t - 1, n);
    let q = (t - 1) / n;
    lemma_mod_multiples_vanish(-q, t - a, n);
    assert(wrap_coord(t, n) - a == n * (-q) + (t - a)) by (nonlinear_arith)
        requires
            t - 1 == n * q + (t - 1) % n,
            wrap_coord(t, n) == (t - 1) % n + 1,
    ;
}

proof fn lemma_rel_injective(u: int, v: int, a: int, n: int)
    requires
        1 <= u <= n,
        1 <= v <= n,
        rel(u, a, n) == rel(v, a, n),
    ensures
        u == v,
{
    if u < v {
        lemma_shift_changes_mod(u - a, v - u, n);
        assert(v - a == (u - a) + (v - u));
    } else if v < u {
        lemma_shift_changes_mod(v - a, u - v, n);
        assert(u - a == (v - a) + (u - v));
    }
}

proof fn lemma_step_mod(d: int, o: int, n: int)
    requires
        2 <= n,
        0 <= d < n,
        -1 <= o <= 1,
    ensures
        (d + o) % n == if d + o < 0 {
            n - 1
        } else if d + o >= n {
            0
        } else {
            d + o
        },
{
    if d + o < 0 {
        lemma_mod_multiples_vanish(-1, n - 1, n);
        lemma_small_mod((n - 1) as nat, n as nat);
    } else if d + o >= n {
        lemma_mod_multiples_vanish(1, 0, n);
    } else {
        lemma_small_mod((d + o) as nat, n as nat);
    }
}

/// A cell on the grid is in the block exactly when it lies zero or one step
/// past the corner along each axis.
proof fn lemma_block_member(w: int, h: int, a: int, b: int, q: Pos)
    requires
        valid_dims(w, h),
        2 <= w,
        2 <= h,
        in_grid(w, h, q),
    ensures
        block(w, h, a, b).contains(q) <==> ((rel(q.0 as int, a, w) == 0 || rel(q.0 as int, a, w) == 1)
            && (rel(q.1 as int, b, h) == 0 || rel(q.1 as int, b, h) == 1)),
{
    lemma_wrap_in_grid(w, h, a, b);
    lemma_wrap_in_grid(w, h, a + 1, b);
    lemma_wrap_in_grid(w, h, a, b + 1);
    lemma_wrap_in_grid(w, h, a + 1, b + 1);
    lemma_rel_wrap(a, a, w);
    lemma_rel_wrap(a + 1, a, w);
    lemma_rel_wrap(b, b, h);
    lemma_rel_wrap(b + 1, b, h);
    lemma_small_mod(0, w as nat);
    lemma_small_mod(1, w as nat);
    lemma_small_mod(0, h as nat);
    lemma_small_mod(1, h as nat);
    let x0 = wrap_coord(a, w);
    let x1 = wrap_coord(a + 1, w);
    let y0 = wrap_coord(b, h);
    let y1 = wrap_coord(b + 1, h);
    assert(rel(x0, a, w) == 0);
    assert(rel(x1, a, w) == 1);
    assert(rel(y0, b, h) == 0);
    assert(rel(y1, b, h) == 1);
    let rx = rel(q.0 as int, a, w);
    let ry = rel(q.1 as int, b, h);
    if (rx == 0 || rx == 1) && (ry == 0 || ry == 1) {
        let xs = if rx == 0 { x0 } else { x1 };
        let ys = if ry == 0 { y0 } else { y1 };
        lemma_rel_injective(q.0 as int, xs, a, w);
        lemma_rel_injective(q.1 as int, ys, b, h);
        let e = (xs as i32, ys as i32);
        assert(q == e);
        assert(block(w, h, a, b).contains(e));
    }
}

proof fn lemma_count_eight(live: Set<Pos>, ns: Seq<Pos>)
    requires
        ns.len() == 8,
    ensures
        count_live(live, ns) == (if live.contains(ns[0]) { 1int } else { 0 }) + (if live.contains(
            ns[1],
        ) {
            1int
        } else {
            0
        }) + (if live.contains(ns[2]) { 1int } else { 0 }) + (if live.contains(ns[3]) {
            1int
        } else {
            0
        }) + (if live.contains(ns[4]) { 1int } else { 0 }) + (if live.contains(ns[5]) {
            1int
        } else {
            0
        }) + (if live.contains(ns[6]) { 1int } else { 0 }) + (if live.contains(ns[7]) {
            1int
        } else {
            0
        }),
{
    reveal_with_fuel(count_live, 9);
    assert(ns.drop_last() =~= ns.take(7));
    assert(ns.take(7).drop_last() =~= ns.take(6));
    assert(ns.take(6).drop_last() =~= ns.take(5));
    assert(ns.take(5).drop_last() =~= ns.take(4));
    assert(ns.take(4).drop_last() =~= ns.take(3));
    assert(ns.take(3).drop_last() =~= ns.take(2));
    assert(ns.take(2).drop_last() =~= ns.take(1));
    assert(ns.take(1).drop_last() =~= ns.take(0));
}

/// A 2 x 2 block on a grid at least four cells wide and high is a still life:
/// each of its cells has three live neighbours, and no other cell has three.
pub proof fn lemma_block_still_life(w: int, h: int, a: int, b: int)
    requires
        valid_dims(w, h),
        4 <= w,
        4 <= h,
    ensures
        next_live(w, h, block(w, h, a, b)) == block(w, h, a, b),
{
    let live = block(w, h, a, b);
    assert forall|p: Pos| #[trigger] next_live(w, h, live).contains(p) <==> live.contains(p) by {
        let ns = neighbours(w, h, p);
        let dx = rel(p.0 as int, a, w);
        let dy = rel(p.1 as int, b, h);
        lemma_neighbours_in_grid(w, h, p);
        lemma_count_eight(live, ns);
        assert forall|k: int| 0 <= k < 8 implies #[trigger] live.contains(ns[k]) == ((((dx
            + offset_x(k)) % w == 0) || ((dx + offset_x(k)) % w == 1)) && (((dy + offset_y(k)) % h
            == 0) || ((dy + offset_y(k)) % h == 1))) by {
            let t = ns[k];
            assert(t == wrap_pos(w, h, p.0 + offset_x(k), p.1 + offset_y(k)));
            lemma_wrap_in_grid(w, h, p.0 + offset_x(k), p.1 + offset_y(k));
            lemma_rel_wrap(p.0 + offset_x(k), a, w);
            lemma_rel_wrap(p.1 + offset_y(k), b, h);
            lemma_rel_shift(p.0 as int, a, w, offset_x(k));
            lemma_rel_shift(p.1 as int, b, h, offset_y(k));
            assert(in_grid(w, h, ns[k]));
            lemma_block_member(w, h, a, b, t);
        }
        lemma_step_mod(dx, -1, w);
        lemma_step_mod(dx, 0, w);
        lemma_step_mod(dx, 1, w);
        lemma_step_mod(dy, -1, h);
        lemma_step_mod(dy, 0, h);
        lemma_step_mod(dy, 1, h);
        let c = live_neighbours(w, h, live, p);
        if in_grid(w, h, p) {
            lemma_block_member(w, h, a, b, p);
        } else {
            lemma_wrap_in_grid(w, h, a, b);
            lemma_wrap_in_grid(w, h, a + 1, b);
            lemma_wrap_in_grid(w, h, a, b + 1);
            lemma_wrap_in_grid(w, h, a + 1, b + 1);
            assert(!live.contains(p));
            if touches_live(w, h, live, p) {
                let q = choose|q: Pos| live.contains(q) && #[trigger] neighbours(w, h, q).contains(p);
                lemma_neighbours_in_grid(w, h, q);
                let k = choose|k: int| 0 <= k < 8 && neighbours(w, h, q)[k] == p;
            }
        }
        if live.contains(p) {
            assert(c == 3);
            assert(survives(w, h, live, p));
        } else {
            assert(c != 3 || !touches_live(w, h, live, p));
            assert(!is_born(w, h, live, p));
        }
    }
    assert(next_live(w, h, live) =~= live);
}

/// The row of three cells centred on `(a, b)`, wrapped onto the grid.
pub open spec fn row_blinker(w: int, h: int, a: int, b: int) -> Set<Pos> {
    set![wrap_pos(w, h, a - 1, b), wrap_pos(w, h, a, b), wrap_pos(w, h, a + 1, b)]
}

/// The column of three cells centred on `(a, b)`, wrapped onto the grid.
pub open spec fn column_blinker(w: int, h: int, a: int, b: int) -> Set<Pos> {
    set![wrap_pos(w, h, a, b - 1), wrap_pos(w, h, a, b), wrap_pos(w, h, a, b + 1)]
}

proof fn lemma_line_member(w: int, h: int, a: int, b: int, q: Pos)
    requires
        valid_dims(w, h),
        3 <= w,
        3 <= h,
        in_grid(w, h, q),
    ensures
        row_blinker(w, h, a, b).contains(q) <==> (0 <= rel(q.0 as int, a - 1, w) <= 2 && rel(
            q.1 as int,
            b,
            h,
        ) == 0),
        column_blinker(w, h, a, b).contains(q) <==> (rel(q.0 as int, a, w) == 0 && 0 <= rel(
            q.1 as int,
            b - 1,
            h,
        ) <= 2),
{
    lemma_wrap_in_grid(w, h, a - 1, b);
    lemma_wrap_in_grid(w, h, a, b);
    lemma_wrap_in_grid(w, h, a + 1, b);
    lemma_wrap_in_grid(w, h, a, b - 1);
    lemma_wrap_in_grid(w, h, a, b + 1);
    lemma_rel_wrap(a - 1, a - 1, w);
    lemma_rel_wrap(a, a - 1, w);
    lemma_rel_wrap(a + 1, a - 1, w);
    lemma_rel_wrap(a, a, w);
    lemma_rel_wrap(b, b, h);
    lemma_rel_wrap(b - 1, b - 1, h);
    lemma_rel_wrap(b, b - 1, h);
    lemma_rel_wrap(b + 1, b - 1, h);
    lemma_small_mod(0, w as nat);
    lemma_small_mod(1, w as nat);
    lemma_small_mod(2, w as nat);
    lemma_small_mod(0, h as nat);
    lemma_small_mod(1, h as nat);
    lemma_small_mod(2, h as nat);
    let xs = seq![wrap_coord(a - 1, w), wrap_coord(a, w), wrap_coord(a + 1, w)];
    let ys = seq![wrap_coord(b - 1, h), wrap_coord(b, h), wrap_coord(b + 1, h)];
    assert(rel(xs[0], a - 1, w) == 0);
    assert(rel(xs[1], a - 1, w) == 1);
    assert(rel(xs[2], a - 1, w) == 2);
    assert(rel(ys[0], b - 1, h) == 0);
    assert(rel(ys[1], b - 1, h) == 1);
    assert(rel(ys[2], b - 1, h) == 2);
    assert(rel(xs[1], a, w) == 0);
    assert(rel(ys[1], b, h) == 0);
    let rx = rel(q.0 as int, a - 1, w);
    let ry = rel(q.1 as int, b, h);
    if 0 <= rx <= 2 && ry == 0 {
        lemma_rel_injective(q.0 as int, xs[rx], a - 1, w);
        lemma_rel_injective(q.1 as int, ys[1], b, h);
        let e = (xs[rx] as i32, ys[1] as i32);
        assert(q == e);
        assert(row_blinker(w, h, a, b).contains(e));
    }
    let cx = rel(q.0 as int, a, w);
    let cy = rel(q.1 as int, b - 1, h);
    if cx == 0 && 0 <= cy <= 2 {
        lemma_rel_injective(q.0 as int, xs[1], a, w);
        lemma_rel_injective(q.1 as int, ys[cy], b - 1, h);
        let e = (xs[1] as i32, ys[cy] as i32);
        assert(q == e);
        assert(column_blinker(w, h, a, b).contains(e));
    }
}

/// Each neighbour of a cell on the grid has that cell among its own neighbours.
proof fn lemma_neighbour_back(w: int, h: int, p: Pos, k: int)
    requires
        valid_dims(w, h),
        in_grid(w, h, p),
        0 <= k < 8,
    ensures
        neighbours(w, h, neighbours(w, h, p)[k]).contains(p),
{
    let ox = offset_x(k);
    let oy = offset_y(k);
    let q = neighbours(w, h, p)[k];
    assert(q == wrap_pos(w, h, p.0 + ox, p.1 + oy));
    lemma_wrap_in_grid(w, h, p.0 + ox, p.1 + oy);
    let back = neighbours(w, h, q)[7 - k];
    assert(back == wrap_pos(w, h, q.0 - ox, q.1 - oy));
    lemma_wrap_in_grid(w, h, q.0 - ox, q.1 - oy);
    lemma_rel_wrap(q.0 - ox, 0, w);
    lemma_rel_wrap(p.0 + ox, ox, w);
    lemma_rel_injective(back.0 as int, p.0 as int, 0, w);
    lemma_rel_wrap(q.1 - oy, 0, h);
    lemma_rel_wrap(p.1 + oy, oy, h);
    lemma_rel_injective(back.1 as int, p.1 as int, 0, h);
    assert(back == p);
}

/// A cell off the grid is neither live nor born.
proof fn lemma_off_grid_stays_dead(w: int, h: int, live: Set<Pos>, p: Pos)
    requires
        valid_dims(w, h),
        !in_grid(w, h, p),
        !live.contains(p),
    ensures
        !next_live(w, h, live).contains(p),
{
    if touches_live(w, h, live, p) {
        let q = choose|q: Pos| live.contains(q) && #[trigger] neighbours(w, h, q).contains(p);
        lemma_neighbours_in_grid(w, h, q);
        let k = choose|k: int| 0 <= k < 8 && neighbours(w, h, q)[k] == p;
    }
}

/// A row of three cells on a grid at least five cells wide and high turns into
/// the column of three with the same centre.
pub proof fn lemma_row_blinker_turns(w: int, h: int, a: int, b: int)
    requires
        valid_dims(w, h),
        5 <= w,
        5 <= h,
    ensures
        next_live(w, h, row_blinker(w, h, a, b)) == column_blinker(w, h, a, b),
{
    let live = row_blinker(w, h, a, b);
    let target = column_blinker(w, h, a, b);
    assert forall|p: Pos| #[trigger] next_live(w, h, live).contains(p) <==> target.contains(p) by {
        let ns = neighbours(w, h, p);
        let dx = rel(p.0 as int, a - 1, w);
        let dy = rel(p.1 as int, b, h);
        lemma_neighbours_in_grid(w, h, p);
        lemma_count_eight(live, ns);
        assert forall|k: int| 0 <= k < 8 implies #[trigger] live.contains(ns[k]) == (0 <= (dx
            + offset_x(k)) % w <= 2 && (dy + offset_y(k)) % h == 0) by {
            let t = ns[k];
            assert(t == wrap_pos(w, h, p.0 + offset_x(k), p.1 + offset_y(k)));
            lemma_wrap_in_grid(w, h, p.0 + offset_x(k), p.1 + offset_y(k));
            lemma_rel_wrap(p.0 + offset_x(k), a - 1, w);
            lemma_rel_wrap(p.1 + offset_y(k), b, h);
            lemma_rel_shift(p.0 as int, a - 1, w, offset_x(k));
            lemma_rel_shift(p.1 as int, b, h, offset_y(k));
            lemma_line_member(w, h, a, b, t);
        }
        lemma_step_mod(dx, -1, w);
        lemma_step_mod(dx, 0, w);
        lemma_step_mod(dx, 1, w);
        lemma_step_mod(dy, -1, h);
        lemma_step_mod(dy, 0, h);
        lemma_step_mod(dy, 1, h);
        lemma_rel_shift(p.0 as int, a - 1, w, -1);
        lemma_rel_shift(p.1 as int, b, h, 1);
        assert(rel(p.0 as int, a, w) == rel(p.0 - 1, a - 1, w));
        assert(rel(p.1 as int, b - 1, h) == rel(p.1 + 1, b, h));
        let c = live_neighbours(w, h, live, p);
        if in_grid(w, h, p) {
            lemma_line_member(w, h, a, b, p);
            if target.contains(p) {
                assert(c == 2 || c == 3);
                if !live.contains(p) {
                    let k: int = if dy == 1 { 1 } else { 6 };
                    let q = ns[k];
                    assert(live.contains(q));
                    lemma_neighbour_back(w, h, p, k);
                }
            } else {
                assert(!survives(w, h, live, p));
                assert(c != 3 || live.contains(p));
            }
        } else {
            lemma_wrap_in_grid(w, h, a, b - 1);
            lemma_wrap_in_grid(w, h, a, b);
            lemma_wrap_in_grid(w, h, a, b + 1);
            lemma_wrap_in_grid(w, h, a - 1, b);
            lemma_wrap_in_grid(w, h, a + 1, b);
            lemma_off_grid_stays_dead(w, h, live, p);
        }
    }
    assert(next_live(w, h, live) =~= target);
}

/// A column of three cells on a grid at least five cells wide and high turns
/// into the row of three with the same centre.
pub proof fn lemma_column_blinker_turns(w: int, h: int, a: int, b: int)
    requires
        valid_dims(w, h),
        5 <= w,
        5 <= h,
    ensures
        next_live(w, h, column_blinker(w, h, a, b)) == row_blinker(w, h, a, b),
{
    let live = column_blinker(w, h, a, b);
    let target = row_blinker(w, h, a, b);
    assert forall|p: Pos| #[trigger] next_live(w, h, live).contains(p) <==> target.contains(p) by {
        let ns = neighbours(w, h, p);
        let dx = rel(p.0 as int, a, w);
        let dy = rel(p.1 as int, b - 1, h);
        lemma_neighbours_in_grid(w, h, p);
        lemma_count_eight(live, ns);
        assert forall|k: int| 0 <= k < 8 implies #[trigger] live.contains(ns[k]) == ((dx
            + offset_x(k)) % w == 0 && 0 <= (dy + offset_y(k)) % h <= 2) by {
            let t = ns[k];
            assert(t == wrap_pos(w, h, p.0 + offset_x(k), p.1 + offset_y(k)));
            lemma_wrap_in_grid(w, h, p.0 + offset_x(k), p.1 + offset_y(k));
            lemma_rel_wrap(p.0 + offset_x(k), a, w);
            lemma_rel_wrap(p.1 + offset_y(k), b - 1, h);
            lemma_rel_shift(p.0 as int, a, w, offset_x(k));
            lemma_rel_shift(p.1 as int, b - 1, h, offset_y(k));
            lemma_line_member(w, h, a, b, t);
        }
        lemma_step_mod(dx, -1, w);
        lemma_step_mod(dx, 0, w);
        lemma_step_mod(dx, 1, w);
        lemma_step_mod(dy, -1, h);
        lemma_step_mod(dy, 0, h);
        lemma_step_mod(dy, 1, h);
        lemma_rel_shift(p.0 as int, a, w, 1);
        lemma_rel_shift(p.1 as int, b - 1, h, -1);
        assert(rel(p.0 as int, a - 1, w) == rel(p.0 + 1, a, w));
        assert(rel(p.1 as int, b, h) == rel(p.1 - 1, b - 1, h));
        let c = live_neighbours(w, h, live, p);
        if in_grid(w, h, p) {
            lemma_line_member(w, h, a, b, p);
            if target.contains(p) {
                assert(c == 2 || c == 3);
                if !live.contains(p) {
                    let k: int = if dx == 1 { 3 } else { 4 };
                    let q = ns[k];
                    assert(live.contains(q));
                    lemma_neighbour_back(w, h, p, k);
                }
            } else {
                assert(!survives(w, h, live, p));
                assert(c != 3 || live.contains(p));
            }
        } else {
            lemma_wrap_in_grid(w, h, a, b - 1);
            lemma_wrap_in_grid(w, h, a, b);
            lemma_wrap_in_grid(w, h, a, b + 1);
            lemma_wrap_in_grid(w, h, a - 1, b);
            lemma_wrap_in_grid(w, h, a + 1, b);
            lemma_off_grid_stays_dead(w, h, live, p);
        }
    }
    assert(next_live(w, h, live) =~= target);
}

/// A blinker has period two: a row of three turns into a column and back,
/// and a column into a row and back; neither comes back after one step.
pub proof fn lemma_blinker_period_two(w: int, h: int, a: int, b: int)
    requires
        valid_dims(w, h),
        5 <= w,
        5 <= h,
    ensures
        generations(w, h, row_blinker(w, h, a, b), 2) == row_blinker(w, h, a, b),
        generations(w, h, row_blinker(w, h, a, b), 1) != row_blinker(w, h, a, b),
        generations(w, h, column_blinker(w, h, a, b), 2) == column_blinker(w, h, a, b),
        generations(w, h, column_blinker(w, h, a, b), 1) != column_blinker(w, h, a, b),
{
    let row = row_blinker(w, h, a, b);
    let column = column_blinker(w, h, a, b);
    lemma_row_blinker_turns(w, h, a, b);
    lemma_column_blinker_turns(w, h, a, b);
    assert(generations(w, h, row, 1) == column) by {
        assert(generations(w, h, row, 0) == row);
    }
    assert(generations(w, h, column, 1) == row) by {
        assert(generations(w, h, column, 0) == column);
    }
    assert(generations(w, h, row, 2) == next_live(w, h, generations(w, h, row, 1)));
    assert(generations(w, h, column, 2) == next_live(w, h, generations(w, h, column, 1)));
    let q = wrap_pos(w, h, a - 1, b);
    lemma_wrap_in_grid(w, h, a - 1, b);
    lemma_rel_wrap(a - 1, a, w);
    lemma_step_mod(0, -1, w);
    lemma_small_mod(0, w as nat);
    assert(rel(a - 1, a, w) == (0 + -1) % w);
    lemma_line_member(w, h, a, b, q);
    assert(row.contains(q));
    assert(!column.contains(q));
}

} // verus!
