//! What holds of every fill.

use vstd::prelude::*;

use crate::cells::{
    connected, grown, in_world, lemma_pieces_partition, near, pieces, shrunk, Cells,
};
use crate::config::ShapeView;
use crate::fill::{
    alone, area_fills, fill_rects, fills_in, fits, gaps, grid_tiles, half, is_whole, kept, laid,
    lemma_no_advance, mask_of, numbered, opened, piece_tiles, pruned, room, round_area,
    round_fills, row_tiles, shape_at, Fill,
};
use crate::geometry::Rect;
use crate::rects::{covered, span};
use crate::region::{bounds_of, is_bounds, Region};

verus! {

/// Whether two rectangles are separated by `dx` columns or by `dy` rows.
pub open spec fn apart(a: Rect, b: Rect, dx: int, dy: int) -> bool {
    ||| a.x1 + dx <= b.x0
    ||| b.x1 + dx <= a.x0
    ||| a.y1 + dy <= b.y0
    ||| b.y1 + dy <= a.y0
}

/// Whether `r` is a whole `w` by `h` shape inside `p`.
pub open spec fn whole_in(r: Rect, p: Cells, w: int, h: int) -> bool {
    &&& r.x1 - r.x0 == w
    &&& r.y1 - r.y0 == h
    &&& r.cells().subset_of(p)
}

/// Whether every cell of `s` can be bounded by coordinates.
pub open spec fn bounded(s: Cells) -> bool {
    s.finite() && forall|p: (int, int)| s.contains(p) ==> in_world(p)
}

/// Rectangles no two of whose cells are near are apart.
pub proof fn lemma_apart(a: Rect, b: Rect, dx: int, dy: int)
    requires
        !a.empty(),
        !b.empty(),
        dx >= 0,
        dy >= 0,
        forall|p: (int, int), q: (int, int)|
            a.covers(p) && b.covers(q) ==> !#[trigger] near(p, q, dx, dy),
    ensures
        apart(a, b, dx, dy),
{
    let (px, qx): (int, int) = if a.x1 <= b.x0 {
        (a.x1 - 1, b.x0 as int)
    } else if b.x1 <= a.x0 {
        (a.x0 as int, b.x1 - 1)
    } else if a.x0 >= b.x0 {
        (a.x0 as int, a.x0 as int)
    } else {
        (b.x0 as int, b.x0 as int)
    };
    let (py, qy): (int, int) = if a.y1 <= b.y0 {
        (a.y1 - 1, b.y0 as int)
    } else if b.y1 <= a.y0 {
        (a.y0 as int, b.y1 - 1)
    } else if a.y0 >= b.y0 {
        (a.y0 as int, a.y0 as int)
    } else {
        (b.y0 as int, b.y0 as int)
    };
    assert(a.covers((px, py)) && b.covers((qx, qy)));
    assert(!near((px, py), (qx, qy), dx, dy));
}

/// A shape that fits lies where its coordinates say.
proof fn lemma_fits_whole(p: Cells, x: int, y: int, w: int, h: int)
    requires
        bounded(p),
        w > 0,
        h > 0,
        fits(p, x, y, w, h),
    ensures
        ({
            let r = shape_at(x, y, w, h);
            &&& r.x0 == x
            &&& r.y0 == y
            &&& whole_in(r, p, w, h)
        }),
{
    let s = span(x, y, x + w, y + h);
    assert(s.contains((x, y)));
    assert(s.contains((x + w - 1, y + h - 1)));
    assert(p.contains((x, y)) && p.contains((x + w - 1, y + h - 1)));
    assert(in_world((x, y)) && in_world((x + w - 1, y + h - 1)));
    let r = shape_at(x, y, w, h);
    assert(r.cells() =~= s);
}

/// Whether `x` is a step of the grid from `start`.
pub open spec fn on_grid(start: int, x: int, step: int) -> bool {
    exists|k: int| 0 <= k && x == #[trigger] step_at(start, k, step)
}

/// Where step `k` of the grid from `start` lies.
pub open spec fn step_at(start: int, k: int, step: int) -> int {
    start + k * step
}

/// Two different steps of a grid are a step apart at least.
proof fn lemma_steps(start: int, x: int, y: int, step: int)
    requires
        step > 0,
        on_grid(start, x, step),
        on_grid(start, y, step),
        x < y,
    ensures
        x + step <= y,
{
    let k = choose|k: int| 0 <= k && x == #[trigger] step_at(start, k, step);
    let l = choose|l: int| 0 <= l && y == #[trigger] step_at(start, l, step);
    assert(x + step <= y) by (nonlinear_arith)
        requires
            x == start + k * step,
            y == start + l * step,
            x < y,
            step > 0,
    ;
}

/// A step of the grid from the next step on is one from this step on.
proof fn lemma_next_step(start: int, x: int, step: int)
    requires
        on_grid(start + step, x, step),
    ensures
        on_grid(start, x, step),
{
    let k = choose|k: int| 0 <= k && x == #[trigger] step_at(start + step, k, step);
    assert(start + step + k * step == start + (k + 1) * step) by (nonlinear_arith);
    assert(x == step_at(start, k + 1, step));
}

/// Whether `t` is a tile of the grid from column `x` that is whole in `p`.
pub open spec fn grid_tile(
    t: Rect,
    p: Cells,
    x: int,
    w: int,
    h: int,
    dx: int,
    dy: int,
) -> bool {
    &&& whole_in(t, p, w, h)
    &&& alone(p, t.x0 as int, t.y0 as int, w, h, dx, dy)
    &&& on_grid(x, t.x0 as int, w + dx)
}

/// Two tiles of a grid keep the gaps.
proof fn lemma_two_tiles(
    a: Rect,
    b: Rect,
    p: Cells,
    x: int,
    w: int,
    h: int,
    dx: int,
    dy: int,
)
    requires
        w > 0,
        h > 0,
        w + dx > 0,
        h + dy > 0,
        grid_tile(a, p, x, w, h, dx, dy),
        grid_tile(b, p, x, w, h, dx, dy),
        (a.y0 == b.y0 && a.x0 < b.x0) || a.y0 + h + dy <= b.y0,
    ensures
        apart(a, b, kept(dx), kept(dy)),
{
    if a.x0 < b.x0 {
        lemma_steps(x, a.x0 as int, b.x0 as int, w + dx);
    } else if b.x0 < a.x0 {
        lemma_steps(x, b.x0 as int, a.x0 as int, w + dx);
    }
    if !apart(a, b, kept(dx), kept(dy)) {
        // The tiles share cells, and one of them reaches past a side of the other.
        if a.x0 < b.x0 {
            let c = (a.x1 as int, b.y0 as int);
            assert(b.cells().contains(c));
            assert(p.contains(c));
            assert(span(a.x1 as int, a.y0 as int, a.x1 + 1, a.y0 + h).contains(c));
        } else if b.x0 < a.x0 {
            let c = (a.x0 - 1, b.y0 as int);
            assert(b.cells().contains(c));
            assert(p.contains(c));
            assert(span(a.x0 - 1, a.y0 as int, a.x0 as int, a.y0 + h).contains(c));
        } else {
            let c = (a.x0 as int, a.y1 as int);
            assert(b.cells().contains(c));
            assert(p.contains(c));
            assert(span(a.x0 as int, a.y0 + h, a.x0 + w, a.y0 + h + 1).contains(c));
        }
        assert(false);
    }
}

/// The shapes of a row are tiles of the grid, lie in that row, and come from the left.
proof fn lemma_row(p: Cells, x: int, y: int, end: int, w: int, h: int, dx: int, dy: int)
    requires
        bounded(p),
        w > 0,
        h > 0,
        w + dx > 0,
    ensures
        ({
            let t = row_tiles(p, x, y, end, w, h, dx, dy);
            &&& forall|i: int|
                0 <= i < t.len() ==> grid_tile(#[trigger] t[i], p, x, w, h, dx, dy) && t[i].x0 >= x
                    && t[i].y0 == y
            &&& forall|i: int, j: int|
                0 <= i < j < t.len() ==> (#[trigger] t[i]).x0 < (#[trigger] t[j]).x0
        }),
    decreases room(x, end),
{
    if x < end {
        lemma_row(p, x + w + dx, y, end, w, h, dx, dy);
        let t = row_tiles(p, x, y, end, w, h, dx, dy);
        let rest = row_tiles(p, x + w + dx, y, end, w, h, dx, dy);
        assert forall|i: int| 0 <= i < rest.len() implies grid_tile(
            #[trigger] rest[i],
            p,
            x,
            w,
            h,
            dx,
            dy,
        ) && rest[i].x0 > x by {
            assert(x + w + dx == x + (w + dx));
            lemma_next_step(x, rest[i].x0 as int, w + dx);
        }
        if !is_whole(p, x, y, w, h, dx, dy) {
            assert(t == rest);
        } else {
            lemma_fits_whole(p, x, y, w, h);
            assert(x == step_at(x, 0, w + dx)) by (nonlinear_arith);
            assert(t =~= seq![shape_at(x, y, w, h)] + rest);
            assert forall|i: int| 0 <= i < t.len() implies grid_tile(
                #[trigger] t[i],
                p,
                x,
                w,
                h,
                dx,
                dy,
            ) && t[i].x0 >= x && t[i].y0 == y by {
                if i > 0 {
                    assert(t[i] == rest[i - 1]);
                }
            }
            assert forall|i: int, j: int| 0 <= i < j < t.len() implies (#[trigger] t[i]).x0 < (
            #[trigger] t[j]).x0 by {
                assert(t[j] == rest[j - 1]);
                if i > 0 {
                    assert(t[i] == rest[i - 1]);
                }
            }
        }
    }
}

/// The shapes of a grid are tiles of it, lie from row `y` on, and keep the gaps.
proof fn lemma_grid(p: Cells, b: Rect, y: int, w: int, h: int, dx: int, dy: int)
    requires
        bounded(p),
        w > 0,
        h > 0,
    ensures
        ({
            let t = grid_tiles(p, b, y, w, h, dx, dy);
            &&& forall|i: int|
                0 <= i < t.len() ==> grid_tile(#[trigger] t[i], p, b.x0 as int, w, h, dx, dy)
                    && t[i].y0 >= y && on_grid(y, t[i].y0 as int, h + dy)
            &&& forall|i: int, j: int|
                0 <= i < j < t.len() ==> apart(
                    #[trigger] t[i],
                    #[trigger] t[j],
                    kept(dx),
                    kept(dy),
                )
            &&& forall|i: int, j: int|
                0 <= i < j < t.len() ==> (#[trigger] t[i]).y0 < (#[trigger] t[j]).y0 || (t[i].y0
                    == t[j].y0 && t[i].x0 < t[j].x0)
        }),
    decreases room(y, b.y1 as int),
{
    if h + dy > 0 && y < b.y1 {
        lemma_grid(p, b, y + h + dy, w, h, dx, dy);
        let row = row_tiles(p, b.x0 as int, y, b.x1 as int, w, h, dx, dy);
        let rest = grid_tiles(p, b, y + h + dy, w, h, dx, dy);
        let t = grid_tiles(p, b, y, w, h, dx, dy);
        let n = row.len() as int;
        if w + dx > 0 {
            lemma_row(p, b.x0 as int, y, b.x1 as int, w, h, dx, dy);
        } else {
            lemma_no_advance(p, b, y + h + dy, w, h, dx, dy);
        }
        assert(t =~= row + rest);
        assert forall|i: int| 0 <= i < t.len() implies grid_tile(
            #[trigger] t[i],
            p,
            b.x0 as int,
            w,
            h,
            dx,
            dy,
        ) && t[i].y0 >= y && on_grid(y, t[i].y0 as int, h + dy) by {
            if i < n {
                assert(t[i] == row[i]);
                assert(y == step_at(y, 0, h + dy)) by (nonlinear_arith);
            } else {
                assert(t[i] == rest[i - n]);
                assert(y + h + dy == y + (h + dy));
                lemma_next_step(y, rest[i - n].y0 as int, h + dy);
            }
        }
        assert forall|i: int, j: int| 0 <= i < j < t.len() implies apart(
            #[trigger] t[i],
            #[trigger] t[j],
            kept(dx),
            kept(dy),
        ) && (t[i].y0 < t[j].y0 || (t[i].y0 == t[j].y0 && t[i].x0 < t[j].x0)) by {
            if j < n {
                assert(t[i] == row[i] && t[j] == row[j]);
                lemma_two_tiles(t[i], t[j], p, b.x0 as int, w, h, dx, dy);
            } else if i < n {
                assert(t[i] == row[i] && t[j] == rest[j - n]);
                lemma_two_tiles(t[i], t[j], p, b.x0 as int, w, h, dx, dy);
            } else {
                assert(t[i] == rest[i - n] && t[j] == rest[j - n]);
            }
        }
    }
}

/// Every shape placed in a piece is a whole shape inside it, any two keep the gaps, and they come
/// row by row from the bottom, each row from the left.
pub proof fn law_piece_tiles(p: Cells, w: int, h: int, dx: int, dy: int)
    requires
        bounded(p),
        w > 0,
        h > 0,
    ensures
        ({
            let t = piece_tiles(p, w, h, dx, dy);
            &&& forall|i: int| 0 <= i < t.len() ==> whole_in(#[trigger] t[i], p, w, h)
            &&& forall|i: int, j: int|
                0 <= i < j < t.len() ==> apart(
                    #[trigger] t[i],
                    #[trigger] t[j],
                    kept(dx),
                    kept(dy),
                )
            &&& forall|i: int, j: int|
                0 <= i < j < t.len() ==> (#[trigger] t[i]).y0 < (#[trigger] t[j]).y0 || (t[i].y0
                    == t[j].y0 && t[i].x0 < t[j].x0)
        }),
{
    let b = bounds_of(p);
    lemma_grid(p, b, b.y0 as int, w, h, dx, dy);
    assert forall|i: int| 0 <= i < piece_tiles(p, w, h, dx, dy).len() implies whole_in(
        #[trigger] piece_tiles(p, w, h, dx, dy)[i],
        p,
        w,
        h,
    ) by {
        assert(grid_tile(piece_tiles(p, w, h, dx, dy)[i], p, b.x0 as int, w, h, dx, dy));
    }
}

/// A bounded set of cells has bounds.
pub proof fn lemma_bounds_exist(p: Cells)
    requires
        bounded(p),
        p.len() > 0,
    ensures
        is_bounds(p, bounds_of(p)),
    decreases p.len(),
{
    let c = p.choose();
    let rest = p.remove(c);
    assert(p.contains(c) && in_world(c));
    let one = Rect {
        x0: c.0 as i32,
        y0: c.1 as i32,
        x1: (c.0 + 1) as i32,
        y1: (c.1 + 1) as i32,
    };
    if rest.len() == 0 {
        assert forall|q: (int, int)| p.contains(q) implies one.covers(q) by {
            if q != c {
                assert(rest.contains(q));
            }
        }
        assert(p.contains(c) && c.0 == one.x0 && c.1 == one.y0 && c.0 == one.x1 - 1 && c.1
            == one.y1 - 1);
        assert(is_bounds(p, one));
    } else {
        lemma_bounds_exist(rest);
        let b = bounds_of(rest);
        let all = Rect {
            x0: if one.x0 < b.x0 {
                one.x0
            } else {
                b.x0
            },
            y0: if one.y0 < b.y0 {
                one.y0
            } else {
                b.y0
            },
            x1: if one.x1 > b.x1 {
                one.x1
            } else {
                b.x1
            },
            y1: if one.y1 > b.y1 {
                one.y1
            } else {
                b.y1
            },
        };
        let qx0 = choose|q: (int, int)| rest.contains(q) && q.0 == b.x0;
        let qy0 = choose|q: (int, int)| rest.contains(q) && q.1 == b.y0;
        let qx1 = choose|q: (int, int)| rest.contains(q) && q.0 == b.x1 - 1;
        let qy1 = choose|q: (int, int)| rest.contains(q) && q.1 == b.y1 - 1;
        assert(p.contains(qx0) && p.contains(qy0) && p.contains(qx1) && p.contains(qy1));
        assert forall|q: (int, int)| p.contains(q) implies all.covers(q) by {
            if q != c {
                assert(rest.contains(q));
            }
        }
        assert(exists|q: (int, int)| p.contains(q) && q.0 == all.x0) by {
            if all.x0 == one.x0 {
                assert(p.contains(c) && c.0 == all.x0);
            }
        }
        assert(exists|q: (int, int)| p.contains(q) && q.1 == all.y0) by {
            if all.y0 == one.y0 {
                assert(p.contains(c) && c.1 == all.y0);
            }
        }
        assert(exists|q: (int, int)| p.contains(q) && q.0 == all.x1 - 1) by {
            if all.x1 == one.x1 {
                assert(p.contains(c) && c.0 == all.x1 - 1);
            }
        }
        assert(exists|q: (int, int)| p.contains(q) && q.1 == all.y1 - 1) by {
            if all.y1 == one.y1 {
                assert(p.contains(c) && c.1 == all.y1 - 1);
            }
        }
        assert(is_bounds(p, all));
    }
}

/// Whether `r` is a tile of the grid in the corner of `p` that is whole in `p`.
pub open spec fn sits(r: Rect, p: Cells, w: int, h: int, dx: int, dy: int) -> bool {
    let b = bounds_of(p);
    &&& w + dx > 0
    &&& h + dy > 0
    &&& grid_tile(r, p, b.x0 as int, w, h, dx, dy)
    &&& on_grid(b.y0 as int, r.y0 as int, h + dy)
}

/// The shapes placed in a piece are exactly the whole tiles of the grid in its corner.
pub proof fn law_whole_tiles_are_placed(p: Cells, w: int, h: int, dx: int, dy: int, r: Rect)
    requires
        bounded(p),
        w > 0,
        h > 0,
    ensures
        piece_tiles(p, w, h, dx, dy).contains(r) <==> sits(r, p, w, h, dx, dy),
{
    let b = bounds_of(p);
    let t = piece_tiles(p, w, h, dx, dy);
    lemma_grid(p, b, b.y0 as int, w, h, dx, dy);
    if t.contains(r) {
        let i = choose|i: int| 0 <= i < t.len() && t[i] == r;
        assert(t[i] == r);
        if w + dx <= 0 {
            lemma_no_advance(p, b, b.y0 as int, w, h, dx, dy);
        }
    }
    if sits(r, p, w, h, dx, dy) {
        assert(r.cells().contains((r.x0 as int, r.y0 as int)));
        assert(p.contains((r.x0 as int, r.y0 as int)));
        if p.len() == 0 {
            vstd::set_lib::lemma_set_empty_equivalency_len(p);
        }
        lemma_bounds_exist(p);
        assert(b.covers((r.x0 as int, r.y0 as int)));
        let k = choose|k: int| 0 <= k && r.x0 == #[trigger] step_at(b.x0 as int, k, w + dx);
        let l = choose|l: int| 0 <= l && r.y0 == #[trigger] step_at(b.y0 as int, l, h + dy);
        assert(span(r.x0 as int, r.y0 as int, r.x0 + w, r.y0 + h) =~= r.cells());
        law_every_position_used(p, w, h, dx, dy, k as nat, l as nat);
        assert(shape_at(r.x0 as int, r.y0 as int, w, h) == r);
    }
}

/// The mask that a fill of a layer may have.
pub open spec fn mask_allowed(mask: u32, num_masks: u32) -> bool {
    if num_masks <= 1 {
        mask == 0
    } else {
        1 <= mask <= num_masks
    }
}

/// Whether `f` is a whole shape of this size in some piece of `ps`, with an allowed mask.
pub open spec fn placed_in(
    f: Fill,
    ps: Seq<Cells>,
    w: int,
    h: int,
    num_masks: u32,
    needs_opc: bool,
) -> bool {
    &&& exists|k: int| 0 <= k < ps.len() && whole_in(f.rect, #[trigger] ps[k], w, h)
    &&& mask_allowed(f.mask, num_masks)
    &&& f.needs_opc == needs_opc
}

/// Whether `a` and `b` lie in two different pieces of `ps`.
pub open spec fn in_two(ps: Seq<Cells>, a: Rect, b: Rect) -> bool {
    exists|i: int, j: int|
        0 <= i < ps.len() && 0 <= j < ps.len() && i != j && a.cells().subset_of(#[trigger] ps[i])
            && b.cells().subset_of(#[trigger] ps[j])
}

/// The fills of one size are whole shapes in the pieces; two of one piece keep the gaps.
proof fn lemma_round(
    ps: Seq<Cells>,
    w: int,
    h: int,
    dx: int,
    dy: int,
    num_masks: u32,
    needs_opc: bool,
)
    requires
        forall|k: int| 0 <= k < ps.len() ==> bounded(#[trigger] ps[k]),
        w > 0,
        h > 0,
    ensures
        ({
            let f = round_fills(ps, w, h, dx, dy, num_masks, needs_opc);
            &&& forall|i: int|
                0 <= i < f.len() ==> placed_in(#[trigger] f[i], ps, w, h, num_masks, needs_opc)
            &&& forall|i: int, j: int|
                0 <= i < j < f.len() ==> apart(
                    (#[trigger] f[i]).rect,
                    (#[trigger] f[j]).rect,
                    kept(dx),
                    kept(dy),
                ) || in_two(ps, f[i].rect, f[j].rect)
        }),
    decreases ps.len(),
{
    if ps.len() > 0 {
        let init = ps.drop_last();
        let last = ps.last();
        let n = ps.len() - 1;
        assert forall|k: int| 0 <= k < init.len() implies bounded(#[trigger] init[k]) by {
            assert(init[k] == ps[k]);
        }
        assert(bounded(ps[n]));
        lemma_round(init, w, h, dx, dy, num_masks, needs_opc);
        law_piece_tiles(last, w, h, dx, dy);
        let a = round_fills(init, w, h, dx, dy, num_masks, needs_opc);
        let tiles = piece_tiles(last, w, h, dx, dy);
        let b = numbered(tiles, num_masks, needs_opc);
        let f = round_fills(ps, w, h, dx, dy, num_masks, needs_opc);
        let m = a.len() as int;
        assert(f =~= a + b);
        assert forall|i: int| 0 <= i < f.len() implies placed_in(
            #[trigger] f[i],
            ps,
            w,
            h,
            num_masks,
            needs_opc,
        ) by {
            if i < m {
                assert(f[i] == a[i]);
                assert(placed_in(a[i], init, w, h, num_masks, needs_opc));
                let k = choose|k: int|
                    0 <= k < init.len() && whole_in(f[i].rect, #[trigger] init[k], w, h);
                assert(init[k] == ps[k]);
            } else {
                assert(f[i] == b[i - m]);
                assert(whole_in(tiles[i - m], ps[n], w, h));
                lemma_mask(i - m, num_masks);
            }
        }
        assert forall|i: int, j: int| 0 <= i < j < f.len() implies apart(
            (#[trigger] f[i]).rect,
            (#[trigger] f[j]).rect,
            kept(dx),
            kept(dy),
        ) || in_two(ps, f[i].rect, f[j].rect) by {
            if j < m {
                assert(f[i] == a[i] && f[j] == a[j]);
                if in_two(init, f[i].rect, f[j].rect) {
                    let (x, y) = choose|x: int, y: int|
                        0 <= x < init.len() && 0 <= y < init.len() && x != y
                            && f[i].rect.cells().subset_of(#[trigger] init[x])
                            && f[j].rect.cells().subset_of(#[trigger] init[y]);
                    assert(init[x] == ps[x] && init[y] == ps[y]);
                }
            } else if i < m {
                assert(f[i] == a[i] && f[j] == b[j - m]);
                assert(placed_in(a[i], init, w, h, num_masks, needs_opc));
                let k = choose|k: int|
                    0 <= k < init.len() && whole_in(f[i].rect, #[trigger] init[k], w, h);
                assert(init[k] == ps[k]);
                assert(whole_in(tiles[j - m], ps[n], w, h));
            } else {
                assert(f[i] == b[i - m] && f[j] == b[j - m]);
                assert(apart(tiles[i - m], tiles[j - m], kept(dx), kept(dy)));
            }
        }
    }
}

proof fn lemma_mask(k: int, num_masks: u32)
    requires
        k >= 0,
    ensures
        mask_allowed(mask_of(k, num_masks), num_masks),
{
    if num_masks > 1 {
        let c = k % 0x1_0000_0000;
        assert(0 <= c % (num_masks as int) < num_masks) by (nonlinear_arith)
            requires
                num_masks > 1,
                c >= 0,
        ;
    }
}

/// Opening removes cells and adds none.
pub proof fn lemma_opened_inside(rem: Cells, w: int, h: int)
    ensures
        opened(rem, w, h).subset_of(rem),
{
    let inner = shrunk(rem, half(w), half(h));
    assert forall|p: (int, int)| opened(rem, w, h).contains(p) implies rem.contains(p) by {
        let q = choose|q: (int, int)| inner.contains(q) && near(p, q, half(w), half(h));
        assert(near(q, p, half(w), half(h)));
    }
}

/// What a size is tiled into is bounded, lies in the remaining area, and so do its pieces.
pub proof fn lemma_round_area(rem: Cells, w: int, h: int, dx: int, dy: int)
    requires
        bounded(rem),
    ensures
        bounded(opened(rem, w, h)),
        bounded(round_area(rem, w, h, dx, dy)),
        round_area(rem, w, h, dx, dy).subset_of(opened(rem, w, h)),
        opened(rem, w, h).subset_of(rem),
        ({
            let ps = pieces(round_area(rem, w, h, dx, dy));
            forall|k: int|
                0 <= k < ps.len() ==> bounded(#[trigger] ps[k]) && ps[k].subset_of(
                    round_area(rem, w, h, dx, dy),
                )
        }),
{
    let s = opened(rem, w, h);
    let t = round_area(rem, w, h, dx, dy);
    lemma_opened_inside(rem, w, h);
    vstd::set_lib::lemma_set_subset_finite(rem, s);
    assert(t.subset_of(s));
    vstd::set_lib::lemma_set_subset_finite(s, t);
    lemma_pieces_partition(t);
    let ps = pieces(t);
    assert forall|k: int| 0 <= k < ps.len() implies bounded(#[trigger] ps[k]) && ps[k].subset_of(
        t,
    ) by {
        assert forall|p: (int, int)| ps[k].contains(p) implies t.contains(p) by {}
        assert(ps[k].finite());
    }
}

/// Whether `r` has the size of a declared shape, its long side along the routing direction.
pub open spec fn declared(r: Rect, is_horiz: bool, shapes: Seq<(i32, i32)>) -> bool {
    &&& !r.empty()
    &&& exists|n: int|
        0 <= n < shapes.len() && laid(is_horiz, #[trigger] shapes[n]) == (
            (r.x1 - r.x0) as i32,
            (r.y1 - r.y0) as i32,
        ) && r.x1 - r.x0 <= i32::MAX && r.y1 - r.y0 <= i32::MAX
    &&& if is_horiz {
        r.x1 - r.x0 >= r.y1 - r.y0
    } else {
        r.y1 - r.y0 >= r.x1 - r.x0
    }
}

/// Whether, for every size, the fills of two pieces that pruning cut out of one piece keep the gaps
/// between each other.
///
/// Pruning takes cells out of a piece, which can leave it in parts. Each part is tiled on a grid of
/// its own, and nothing moves one grid clear of the other.
pub open spec fn parts_keep_gaps(
    rem: Cells,
    shapes: Seq<(i32, i32)>,
    is_horiz: bool,
    dx: int,
    dy: int,
    num_masks: u32,
    needs_opc: bool,
) -> bool
    decreases shapes.len(),
{
    if shapes.len() == 0 {
        true
    } else {
        let (w, h) = laid(is_horiz, shapes[0]);
        if w <= 0 || h <= 0 {
            parts_keep_gaps(rem, shapes.skip(1), is_horiz, dx, dy, num_masks, needs_opc)
        } else {
            let s = opened(rem, w as int, h as int);
            let ps = pieces(pruned(s, kept(dx), kept(dy)));
            let fills = round_fills(ps, w as int, h as int, dx, dy, num_masks, needs_opc);
            let left = rem.difference(grown(covered(fill_rects(fills)), kept(dx), kept(dy)));
            &&& forall|i: int, j: int|
                0 <= i < j < fills.len() && one_parent(
                    s,
                    (#[trigger] fills[i]).rect,
                    (#[trigger] fills[j]).rect,
                ) && in_two(ps, fills[i].rect, fills[j].rect) ==> apart(
                    fills[i].rect,
                    fills[j].rect,
                    kept(dx),
                    kept(dy),
                )
            &&& parts_keep_gaps(left, shapes.skip(1), is_horiz, dx, dy, num_masks, needs_opc)
        }
    }
}

/// Whether some cell of `a` is connected in `s` to some cell of `b`.
pub open spec fn one_parent(s: Cells, a: Rect, b: Rect) -> bool {
    exists|p: (int, int), q: (int, int)|
        a.covers(p) && b.covers(q) && #[trigger] connected(s, p, q)
}

/// Fills of one size in pieces of different parents keep the gaps.
proof fn lemma_other_parent(s: Cells, dx: int, dy: int, a: Rect, b: Rect)
    requires
        dx >= 0,
        dy >= 0,
        !a.empty(),
        !b.empty(),
        a.cells().subset_of(pruned(s, dx, dy)),
        b.cells().subset_of(pruned(s, dx, dy)),
        !one_parent(s, a, b),
    ensures
        apart(a, b, dx, dy),
{
    assert forall|p: (int, int), q: (int, int)| a.covers(p) && b.covers(q) implies !#[trigger] near(
        p,
        q,
        dx,
        dy,
    ) by {
        assert(a.cells().contains(p) && b.cells().contains(q));
        assert(pruned(s, dx, dy).contains(p) && pruned(s, dx, dy).contains(q));
        if near(p, q, dx, dy) {
            assert(connected(s, p, q));
        }
    }
    lemma_apart(a, b, dx, dy);
}

/// Rectangles in two different pieces share no cell.
proof fn lemma_two_pieces(t: Cells, a: Rect, b: Rect)
    requires
        t.finite(),
        !a.empty(),
        !b.empty(),
        in_two(pieces(t), a, b),
    ensures
        apart(a, b, 0, 0),
{
    let ps = pieces(t);
    lemma_pieces_partition(t);
    let (i, j) = choose|i: int, j: int|
        0 <= i < ps.len() && 0 <= j < ps.len() && i != j && a.cells().subset_of(#[trigger] ps[i])
            && b.cells().subset_of(#[trigger] ps[j]);
    crate::cells::lemma_connected_equivalence(t);
    assert forall|p: (int, int), q: (int, int)| a.covers(p) && b.covers(q) implies !#[trigger] near(
        p,
        q,
        0,
        0,
    ) by {
        assert(a.cells().contains(p) && b.cells().contains(q));
        assert(ps[i].contains(p) && ps[j].contains(q));
        if near(p, q, 0, 0) {
            assert(p == q);
            assert(t.contains(p));
            assert(connected(t, p, p));
        }
    }
    lemma_apart(a, b, 0, 0);
}

/// A rectangle inside what is left keeps the gaps from every fill taken out.
proof fn lemma_left_clear(rem: Cells, fills: Seq<Fill>, dx: int, dy: int, i: int, r: Rect)
    requires
        bounded(rem),
        dx >= 0,
        dy >= 0,
        0 <= i < fills.len(),
        !r.empty(),
        !fills[i].rect.empty(),
        r.cells().subset_of(rem.difference(grown(covered(fill_rects(fills)), dx, dy))),
    ensures
        apart(fills[i].rect, r, dx, dy),
{
    let a = fills[i].rect;
    let placed = covered(fill_rects(fills));
    assert forall|p: (int, int), q: (int, int)| a.covers(p) && r.covers(q) implies !#[trigger] near(
        p,
        q,
        dx,
        dy,
    ) by {
        assert(fill_rects(fills)[i] == a);
        assert(fill_rects(fills)[i].covers(p));
        assert(placed.contains(p));
        assert(r.cells().contains(q));
        assert(rem.contains(q));
        if near(p, q, dx, dy) {
            assert(near(q, p, dx, dy));
            assert(grown(placed, dx, dy).contains(q));
        }
    }
    lemma_apart(a, r, dx, dy);
}

/// The fills of `rem` are whole declared shapes inside it with allowed masks, no two share a cell,
/// and where the parts of cut pieces keep the gaps, all do.
pub proof fn lemma_fills_in(
    rem: Cells,
    shapes: Seq<(i32, i32)>,
    is_horiz: bool,
    dx: int,
    dy: int,
    num_masks: u32,
    needs_opc: bool,
)
    requires
        bounded(rem),
    ensures
        ({
            let f = fills_in(rem, shapes, is_horiz, dx, dy, num_masks, needs_opc);
            &&& forall|i: int|
                0 <= i < f.len() ==> declared((#[trigger] f[i]).rect, is_horiz, shapes)
                    && f[i].rect.cells().subset_of(rem) && mask_allowed(f[i].mask, num_masks)
                    && f[i].needs_opc == needs_opc
            &&& forall|i: int, j: int|
                0 <= i < j < f.len() ==> apart((#[trigger] f[i]).rect, (#[trigger] f[j]).rect, 0, 0)
            &&& parts_keep_gaps(rem, shapes, is_horiz, dx, dy, num_masks, needs_opc) ==> forall|
                i: int,
                j: int,
            |
                0 <= i < j < f.len() ==> apart(
                    (#[trigger] f[i]).rect,
                    (#[trigger] f[j]).rect,
                    kept(dx),
                    kept(dy),
                )
        }),
    decreases shapes.len(),
{
    if shapes.len() > 0 {
        let (w, h) = laid(is_horiz, shapes[0]);
        let tail = shapes.skip(1);
        let f = fills_in(rem, shapes, is_horiz, dx, dy, num_masks, needs_opc);
        if w <= 0 || h <= 0 {
            lemma_fills_in(rem, tail, is_horiz, dx, dy, num_masks, needs_opc);
            let g = fills_in(rem, tail, is_horiz, dx, dy, num_masks, needs_opc);
            assert(f == g);
            assert forall|i: int| 0 <= i < f.len() implies declared(
                (#[trigger] f[i]).rect,
                is_horiz,
                shapes,
            ) by {
                assert(declared(g[i].rect, is_horiz, tail));
                lemma_declared_tail(f[i].rect, is_horiz, shapes);
            }
        } else {
            let (iw, ih) = (w as int, h as int);
            let s = opened(rem, iw, ih);
            let t = round_area(rem, iw, ih, dx, dy);
            let ps = pieces(t);
            lemma_round_area(rem, iw, ih, dx, dy);
            lemma_round(ps, iw, ih, dx, dy, num_masks, needs_opc);
            let a = round_fills(ps, iw, ih, dx, dy, num_masks, needs_opc);
            let left = rem.difference(grown(covered(fill_rects(a)), kept(dx), kept(dy)));
            assert(left.subset_of(rem));
            vstd::set_lib::lemma_set_subset_finite(rem, left);
            lemma_fills_in(left, tail, is_horiz, dx, dy, num_masks, needs_opc);
            let b = fills_in(left, tail, is_horiz, dx, dy, num_masks, needs_opc);
            let m = a.len() as int;
            assert(f =~= a + b);
            assert forall|i: int| 0 <= i < a.len() implies declared(
                (#[trigger] a[i]).rect,
                is_horiz,
                shapes,
            ) && a[i].rect.cells().subset_of(t) by {
                assert(placed_in(a[i], ps, iw, ih, num_masks, needs_opc));
                let k = choose|k: int|
                    0 <= k < ps.len() && whole_in(a[i].rect, #[trigger] ps[k], iw, ih);
                assert(ps[k].subset_of(t));
                assert(laid(is_horiz, shapes[0]) == (w, h));
            }
            assert forall|i: int| 0 <= i < f.len() implies declared(
                (#[trigger] f[i]).rect,
                is_horiz,
                shapes,
            ) && f[i].rect.cells().subset_of(rem) && mask_allowed(f[i].mask, num_masks)
                && f[i].needs_opc == needs_opc by {
                if i < m {
                    assert(f[i] == a[i]);
                    assert(placed_in(a[i], ps, iw, ih, num_masks, needs_opc));
                    assert(a[i].rect.cells().subset_of(t));
                } else {
                    assert(f[i] == b[i - m]);
                    lemma_declared_tail(f[i].rect, is_horiz, shapes);
                }
            }
            assert forall|i: int, j: int| 0 <= i < j < f.len() implies apart(
                (#[trigger] f[i]).rect,
                (#[trigger] f[j]).rect,
                0,
                0,
            ) by {
                if j < m {
                    assert(f[i] == a[i] && f[j] == a[j]);
                    assert(declared(a[i].rect, is_horiz, shapes) && declared(
                        a[j].rect,
                        is_horiz,
                        shapes,
                    ));
                    if in_two(ps, a[i].rect, a[j].rect) {
                        lemma_two_pieces(t, a[i].rect, a[j].rect);
                    }
                } else if i < m {
                    assert(f[i] == a[i] && f[j] == b[j - m]);
                    lemma_left_clear(rem, a, kept(dx), kept(dy), i, b[j - m].rect);
                } else {
                    assert(f[i] == b[i - m] && f[j] == b[j - m]);
                }
            }
            if parts_keep_gaps(rem, shapes, is_horiz, dx, dy, num_masks, needs_opc) {
                assert forall|i: int, j: int| 0 <= i < j < f.len() implies apart(
                    (#[trigger] f[i]).rect,
                    (#[trigger] f[j]).rect,
                    kept(dx),
                    kept(dy),
                ) by {
                    if j < m {
                        assert(f[i] == a[i] && f[j] == a[j]);
                        assert(declared(a[i].rect, is_horiz, shapes) && declared(
                            a[j].rect,
                            is_horiz,
                            shapes,
                        ));
                        if !apart(a[i].rect, a[j].rect, kept(dx), kept(dy)) {
                            assert(in_two(ps, a[i].rect, a[j].rect));
                            if !one_parent(s, a[i].rect, a[j].rect) {
                                lemma_other_parent(s, kept(dx), kept(dy), a[i].rect, a[j].rect);
                            }
                        }
                    } else if i < m {
                        assert(f[i] == a[i] && f[j] == b[j - m]);
                        lemma_left_clear(rem, a, kept(dx), kept(dy), i, b[j - m].rect);
                    } else {
                        assert(f[i] == b[i - m] && f[j] == b[j - m]);
                    }
                }
            }
        }
    }
}

proof fn lemma_declared_tail(r: Rect, is_horiz: bool, shapes: Seq<(i32, i32)>)
    requires
        shapes.len() > 0,
        declared(r, is_horiz, shapes.skip(1)),
    ensures
        declared(r, is_horiz, shapes),
{
    let tail = shapes.skip(1);
    let n = choose|n: int|
        0 <= n < tail.len() && laid(is_horiz, #[trigger] tail[n]) == (
            (r.x1 - r.x0) as i32,
            (r.y1 - r.y0) as i32,
        ) && r.x1 - r.x0 <= i32::MAX && r.y1 - r.y0 <= i32::MAX;
    assert(tail[n] == shapes[n + 1]);
}

/// Every fill is a whole shape of a declared size, its long side along the routing direction.
pub proof fn law_whole_shapes(
    area: Region,
    is_horiz: bool,
    cfg: ShapeView,
    num_masks: u32,
    needs_opc: bool,
)
    ensures
        ({
            let f = area_fills(area@, is_horiz, cfg, num_masks, needs_opc);
            forall|i: int|
                0 <= i < f.len() ==> declared((#[trigger] f[i]).rect, is_horiz, cfg.shapes)
        }),
{
    area.lemma_finite();
    let (dx, dy) = gaps(is_horiz, cfg);
    lemma_fills_in(area@, cfg.shapes, is_horiz, dx as int, dy as int, num_masks, needs_opc);
}

/// No fill reaches outside the area it was given.
pub proof fn law_inside_area(
    area: Region,
    is_horiz: bool,
    cfg: ShapeView,
    num_masks: u32,
    needs_opc: bool,
)
    ensures
        ({
            let f = area_fills(area@, is_horiz, cfg, num_masks, needs_opc);
            forall|i: int| 0 <= i < f.len() ==> (#[trigger] f[i]).rect.cells().subset_of(area@)
        }),
{
    area.lemma_finite();
    let (dx, dy) = gaps(is_horiz, cfg);
    lemma_fills_in(area@, cfg.shapes, is_horiz, dx as int, dy as int, num_masks, needs_opc);
}

/// No two fills of an area overlap.
pub proof fn law_no_overlap(
    area: Region,
    is_horiz: bool,
    cfg: ShapeView,
    num_masks: u32,
    needs_opc: bool,
)
    ensures
        ({
            let f = area_fills(area@, is_horiz, cfg, num_masks, needs_opc);
            forall|i: int, j: int|
                0 <= i < j < f.len() ==> apart((#[trigger] f[i]).rect, (#[trigger] f[j]).rect, 0, 0)
        }),
{
    area.lemma_finite();
    let (dx, dy) = gaps(is_horiz, cfg);
    lemma_fills_in(area@, cfg.shapes, is_horiz, dx as int, dy as int, num_masks, needs_opc);
}

/// Two fills are never closer than the spacing, unless pruning cut their piece in two and the two
/// parts' own fills are.
pub proof fn law_spacing(
    area: Region,
    is_horiz: bool,
    cfg: ShapeView,
    num_masks: u32,
    needs_opc: bool,
)
    requires
        ({
            let (dx, dy) = gaps(is_horiz, cfg);
            parts_keep_gaps(
                area@,
                cfg.shapes,
                is_horiz,
                dx as int,
                dy as int,
                num_masks,
                needs_opc,
            )
        }),
    ensures
        ({
            let f = area_fills(area@, is_horiz, cfg, num_masks, needs_opc);
            let (dx, dy) = gaps(is_horiz, cfg);
            forall|i: int, j: int|
                0 <= i < j < f.len() ==> apart(
                    (#[trigger] f[i]).rect,
                    (#[trigger] f[j]).rect,
                    kept(dx as int),
                    kept(dy as int),
                )
        }),
{
    area.lemma_finite();
    let (dx, dy) = gaps(is_horiz, cfg);
    lemma_fills_in(area@, cfg.shapes, is_horiz, dx as int, dy as int, num_masks, needs_opc);
}

/// Whether pruning leaves no two cells of a piece of `s` in different parts.
pub open spec fn uncut(s: Cells, dx: int, dy: int) -> bool {
    forall|p: (int, int), q: (int, int)|
        pruned(s, dx, dy).contains(p) && pruned(s, dx, dy).contains(q) && #[trigger] connected(
            s,
            p,
            q,
        ) ==> connected(pruned(s, dx, dy), p, q)
}

/// Whether pruning cuts no piece, for any size.
pub open spec fn pieces_uncut(
    rem: Cells,
    shapes: Seq<(i32, i32)>,
    is_horiz: bool,
    dx: int,
    dy: int,
    num_masks: u32,
    needs_opc: bool,
) -> bool
    decreases shapes.len(),
{
    if shapes.len() == 0 {
        true
    } else {
        let (w, h) = laid(is_horiz, shapes[0]);
        if w <= 0 || h <= 0 {
            pieces_uncut(rem, shapes.skip(1), is_horiz, dx, dy, num_masks, needs_opc)
        } else {
            let s = opened(rem, w as int, h as int);
            let ps = pieces(pruned(s, kept(dx), kept(dy)));
            let fills = round_fills(ps, w as int, h as int, dx, dy, num_masks, needs_opc);
            let left = rem.difference(grown(covered(fill_rects(fills)), kept(dx), kept(dy)));
            &&& uncut(s, kept(dx), kept(dy))
            &&& pieces_uncut(left, shapes.skip(1), is_horiz, dx, dy, num_masks, needs_opc)
        }
    }
}

/// Where no piece is cut, no two parts of one are there to come close.
proof fn lemma_uncut(
    rem: Cells,
    shapes: Seq<(i32, i32)>,
    is_horiz: bool,
    dx: int,
    dy: int,
    num_masks: u32,
    needs_opc: bool,
)
    requires
        bounded(rem),
        pieces_uncut(rem, shapes, is_horiz, dx, dy, num_masks, needs_opc),
    ensures
        parts_keep_gaps(rem, shapes, is_horiz, dx, dy, num_masks, needs_opc),
    decreases shapes.len(),
{
    if shapes.len() > 0 {
        let (w, h) = laid(is_horiz, shapes[0]);
        let tail = shapes.skip(1);
        if w <= 0 || h <= 0 {
            lemma_uncut(rem, tail, is_horiz, dx, dy, num_masks, needs_opc);
        } else {
            let (iw, ih) = (w as int, h as int);
            let s = opened(rem, iw, ih);
            let t = pruned(s, kept(dx), kept(dy));
            let ps = pieces(t);
            let fills = round_fills(ps, iw, ih, dx, dy, num_masks, needs_opc);
            let left = rem.difference(grown(covered(fill_rects(fills)), kept(dx), kept(dy)));
            lemma_round_area(rem, iw, ih, dx, dy);
            lemma_pieces_partition(t);
            vstd::set_lib::lemma_set_subset_finite(rem, left);
            lemma_uncut(left, tail, is_horiz, dx, dy, num_masks, needs_opc);
            assert forall|i: int, j: int|
                0 <= i < j < fills.len() && one_parent(
                    s,
                    (#[trigger] fills[i]).rect,
                    (#[trigger] fills[j]).rect,
                ) && in_two(ps, fills[i].rect, fills[j].rect) implies apart(
                fills[i].rect,
                fills[j].rect,
                kept(dx),
                kept(dy),
            ) by {
                let (a, b) = (fills[i].rect, fills[j].rect);
                let (p, q) = choose|p: (int, int), q: (int, int)|
                    a.covers(p) && b.covers(q) && #[trigger] connected(s, p, q);
                let (k, l) = choose|k: int, l: int|
                    0 <= k < ps.len() && 0 <= l < ps.len() && k != l && a.cells().subset_of(
                        #[trigger] ps[k],
                    ) && b.cells().subset_of(#[trigger] ps[l]);
                assert(a.cells().contains(p) && b.cells().contains(q));
                assert(ps[k].contains(p) && ps[l].contains(q));
                assert(t.contains(p) && t.contains(q));
                assert(connected(t, p, q));
            }
        }
    }
}

/// Where pruning cuts no piece in two, two fills are never closer than the spacing.
pub proof fn law_spacing_of_uncut_pieces(
    area: Region,
    is_horiz: bool,
    cfg: ShapeView,
    num_masks: u32,
    needs_opc: bool,
)
    requires
        ({
            let (dx, dy) = gaps(is_horiz, cfg);
            pieces_uncut(
                area@,
                cfg.shapes,
                is_horiz,
                dx as int,
                dy as int,
                num_masks,
                needs_opc,
            )
        }),
    ensures
        ({
            let f = area_fills(area@, is_horiz, cfg, num_masks, needs_opc);
            let (dx, dy) = gaps(is_horiz, cfg);
            forall|i: int, j: int|
                0 <= i < j < f.len() ==> apart(
                    (#[trigger] f[i]).rect,
                    (#[trigger] f[j]).rect,
                    kept(dx as int),
                    kept(dy as int),
                )
        }),
{
    area.lemma_finite();
    let (dx, dy) = gaps(is_horiz, cfg);
    lemma_uncut(area@, cfg.shapes, is_horiz, dx as int, dy as int, num_masks, needs_opc);
    law_spacing(area, is_horiz, cfg, num_masks, needs_opc);
}

/// The masks of a piece cycle from 1 through the layer's masks, and a single-mask layer writes none.
///
/// The count starts over at two to the 32nd, which breaks the cycle where that is no multiple of the
/// number of masks.
pub proof fn law_masks_cycle(k: int, num_masks: u32)
    requires
        k >= 0,
        num_masks > 1 && (k + 1) % 0x1_0000_0000 == 0 ==> 0x1_0000_0000int % num_masks as int == 0,
    ensures
        num_masks <= 1 ==> mask_of(k, num_masks) == 0,
        num_masks > 1 ==> mask_of(0, num_masks) == 1,
        num_masks > 1 ==> mask_of(k + 1, num_masks) == if mask_of(k, num_masks) == num_masks {
            1
        } else {
            mask_of(k, num_masks) + 1
        },
{
    if num_masks > 1 {
        let n = num_masks as int;
        let c = k % 0x1_0000_0000;
        let m = c % n;
        assert(0int % n == 0) by (nonlinear_arith)
            requires
                n > 1,
        ;
        assert(0 <= m < n) by (nonlinear_arith)
            requires
                n > 1,
                m == c % n,
        ;
        assert((c + 1) % n == if m == n - 1 {
            0
        } else {
            m + 1
        }) by (nonlinear_arith)
            requires
                n > 1,
                m == c % n,
        ;
        if (k + 1) % 0x1_0000_0000 == 0 {
            assert(c + 1 == 0x1_0000_0000);
        } else {
            assert((k + 1) % 0x1_0000_0000 == c + 1);
        }
    }
}

/// A single-mask layer writes no mask; on others every fill has one of the layer's masks. The pass
/// decides the OPC flag.
pub proof fn law_masks(
    area: Region,
    is_horiz: bool,
    cfg: ShapeView,
    num_masks: u32,
    needs_opc: bool,
)
    ensures
        ({
            let f = area_fills(area@, is_horiz, cfg, num_masks, needs_opc);
            forall|i: int|
                0 <= i < f.len() ==> mask_allowed((#[trigger] f[i]).mask, num_masks)
                    && f[i].needs_opc == needs_opc
        }),
{
    area.lemma_finite();
    let (dx, dy) = gaps(is_horiz, cfg);
    lemma_fills_in(area@, cfg.shapes, is_horiz, dx as int, dy as int, num_masks, needs_opc);
}

/// Sizes added at the end of the list fill what the earlier ones left: every fill of the shorter
/// list is still there, in its place.
pub proof fn law_more_shapes(
    area: Region,
    is_horiz: bool,
    cfg: ShapeView,
    more: Seq<(i32, i32)>,
    num_masks: u32,
    needs_opc: bool,
)
    ensures
        ({
            let longer = ShapeView { shapes: cfg.shapes + more, ..cfg };
            area_fills(area@, is_horiz, cfg, num_masks, needs_opc).is_prefix_of(
                area_fills(area@, is_horiz, longer, num_masks, needs_opc),
            )
        }),
{
    let (dx, dy) = gaps(is_horiz, cfg);
    lemma_more_shapes(
        area@,
        cfg.shapes,
        more,
        is_horiz,
        dx as int,
        dy as int,
        num_masks,
        needs_opc,
    );
}

proof fn lemma_more_shapes(
    rem: Cells,
    shapes: Seq<(i32, i32)>,
    more: Seq<(i32, i32)>,
    is_horiz: bool,
    dx: int,
    dy: int,
    num_masks: u32,
    needs_opc: bool,
)
    ensures
        fills_in(rem, shapes, is_horiz, dx, dy, num_masks, needs_opc).is_prefix_of(
            fills_in(rem, shapes + more, is_horiz, dx, dy, num_masks, needs_opc),
        ),
    decreases shapes.len(),
{
    let all = shapes + more;
    if shapes.len() > 0 {
        let tail = shapes.skip(1);
        assert(all.skip(1) =~= tail + more);
        assert(all[0] == shapes[0]);
        let (w, h) = laid(is_horiz, shapes[0]);
        if w <= 0 || h <= 0 {
            lemma_more_shapes(rem, tail, more, is_horiz, dx, dy, num_masks, needs_opc);
        } else {
            let ps = pieces(round_area(rem, w as int, h as int, dx, dy));
            let a = round_fills(ps, w as int, h as int, dx, dy, num_masks, needs_opc);
            let left = rem.difference(grown(covered(fill_rects(a)), kept(dx), kept(dy)));
            lemma_more_shapes(left, tail, more, is_horiz, dx, dy, num_masks, needs_opc);
            let b = fills_in(left, tail, is_horiz, dx, dy, num_masks, needs_opc);
            let c = fills_in(left, tail + more, is_horiz, dx, dy, num_masks, needs_opc);
            assert((a + b) =~= (a + c).subrange(0, (a + b).len() as int)) by {
                assert(b =~= c.subrange(0, b.len() as int));
            }
        }
    } else {
        assert(fills_in(rem, shapes, is_horiz, dx, dy, num_masks, needs_opc) =~= Seq::empty());
    }
}

/// An area with no room for any declared shape gets no fill.
pub proof fn law_too_small(
    area: Region,
    is_horiz: bool,
    cfg: ShapeView,
    num_masks: u32,
    needs_opc: bool,
)
    requires
        forall|r: Rect| declared(r, is_horiz, cfg.shapes) ==> !r.cells().subset_of(area@),
    ensures
        area_fills(area@, is_horiz, cfg, num_masks, needs_opc).len() == 0,
{
    law_whole_shapes(area, is_horiz, cfg, num_masks, needs_opc);
    law_inside_area(area, is_horiz, cfg, num_masks, needs_opc);
    let f = area_fills(area@, is_horiz, cfg, num_masks, needs_opc);
    if f.len() > 0 {
        assert(declared(f[0].rect, is_horiz, cfg.shapes));
    }
}

/// Every grid position of a piece that holds a whole shape gets one.
pub proof fn law_every_position_used(
    p: Cells,
    w: int,
    h: int,
    dx: int,
    dy: int,
    column: nat,
    row: nat,
)
    requires
        w + dx > 0,
        h + dy > 0,
        ({
            let b = bounds_of(p);
            let x = b.x0 + column * (w + dx);
            let y = b.y0 + row * (h + dy);
            x < b.x1 && y < b.y1 && is_whole(p, x, y, w, h, dx, dy)
        }),
    ensures
        ({
            let b = bounds_of(p);
            piece_tiles(p, w, h, dx, dy).contains(
                shape_at(b.x0 + column * (w + dx), b.y0 + row * (h + dy), w, h),
            )
        }),
{
    let b = bounds_of(p);
    lemma_grid_position(p, b, b.y0 as int, w, h, dx, dy, column, row);
}

proof fn lemma_grid_position(
    p: Cells,
    b: Rect,
    y: int,
    w: int,
    h: int,
    dx: int,
    dy: int,
    column: nat,
    row: nat,
)
    requires
        w + dx > 0,
        h + dy > 0,
        b.x0 + column * (w + dx) < b.x1,
        y + row * (h + dy) < b.y1,
        is_whole(p, b.x0 + column * (w + dx), y + row * (h + dy), w, h, dx, dy),
    ensures
        grid_tiles(p, b, y, w, h, dx, dy).contains(
            shape_at(b.x0 + column * (w + dx), y + row * (h + dy), w, h),
        ),
    decreases row,
{
    let t = shape_at(b.x0 + column * (w + dx), y + row * (h + dy), w, h);
    let first = row_tiles(p, b.x0 as int, y, b.x1 as int, w, h, dx, dy);
    let rest = grid_tiles(p, b, y + h + dy, w, h, dx, dy);
    assert(row * (h + dy) >= 0) by (nonlinear_arith)
        requires
            row >= 0,
            h + dy > 0,
    ;
    assert(grid_tiles(p, b, y, w, h, dx, dy) =~= first + rest);
    if row == 0 {
        assert(row * (h + dy) == 0) by (nonlinear_arith)
            requires
                row == 0,
        ;
        lemma_row_position(p, b.x0 as int, y, b.x1 as int, w, h, dx, dy, column);
        let k = choose|k: int| 0 <= k < first.len() && first[k] == t;
        assert((first + rest)[k] == t);
    } else {
        let above = (row - 1) as nat;
        assert(row * (h + dy) == (h + dy) + above * (h + dy)) by (nonlinear_arith)
            requires
                above == row - 1,
        ;
        lemma_grid_position(p, b, y + h + dy, w, h, dx, dy, column, above);
        let k = choose|k: int| 0 <= k < rest.len() && rest[k] == t;
        assert((first + rest)[first.len() + k] == t);
    }
}

proof fn lemma_row_position(
    p: Cells,
    x: int,
    y: int,
    end: int,
    w: int,
    h: int,
    dx: int,
    dy: int,
    column: nat,
)
    requires
        w + dx > 0,
        x + column * (w + dx) < end,
        is_whole(p, x + column * (w + dx), y, w, h, dx, dy),
    ensures
        row_tiles(p, x, y, end, w, h, dx, dy).contains(shape_at(x + column * (w + dx), y, w, h)),
    decreases column,
{
    let t = shape_at(x + column * (w + dx), y, w, h);
    let all = row_tiles(p, x, y, end, w, h, dx, dy);
    let rest = row_tiles(p, x + w + dx, y, end, w, h, dx, dy);
    assert(column * (w + dx) >= 0) by (nonlinear_arith)
        requires
            column >= 0,
            w + dx > 0,
    ;
    if column == 0 {
        assert(column * (w + dx) == 0) by (nonlinear_arith)
            requires
                column == 0,
        ;
        assert(all =~= seq![t] + rest);
        assert(all[0] == t);
    } else {
        let right = (column - 1) as nat;
        assert(column * (w + dx) == (w + dx) + right * (w + dx)) by (nonlinear_arith)
            requires
                right == column - 1,
        ;
        lemma_row_position(p, x + w + dx, y, end, w, h, dx, dy, right);
        let k = choose|k: int| 0 <= k < rest.len() && rest[k] == t;
        if is_whole(p, x, y, w, h, dx, dy) {
            assert(all =~= seq![shape_at(x, y, w, h)] + rest);
            assert(all[k + 1] == t);
        } else {
            assert(all == rest);
        }
    }
}

/// Two cells that pruning leaves, of different pieces of the area, are farther apart than the
/// spacing; and an area of one piece is left as it is.
pub proof fn law_prune(area: Region, dx: int, dy: int)
    ensures
        pruned(area@, kept(dx), kept(dy)).subset_of(area@),
        forall|p: (int, int), q: (int, int)|
            pruned(area@, kept(dx), kept(dy)).contains(p) && pruned(area@, kept(dx), kept(dy)).contains(q) && !connected(
                area@,
                p,
                q,
            ) ==> !#[trigger] near(p, q, kept(dx), kept(dy)),
        pieces(area@).len() <= 1 ==> pruned(area@, kept(dx), kept(dy)) =~= area@,
{
    area.lemma_finite();
    lemma_pieces_partition(area@);
    let ps = pieces(area@);
    if ps.len() <= 1 {
        assert forall|p: (int, int)| area@.contains(p) implies pruned(area@, kept(dx), kept(dy)).contains(p) by {
            assert forall|q: (int, int)|
                area@.contains(q) && #[trigger] near(p, q, kept(dx), kept(dy)) implies connected(area@, p, q) by {
                let i = choose|k: int| 0 <= k < ps.len() && #[trigger] ps[k].contains(p);
                let j = choose|k: int| 0 <= k < ps.len() && #[trigger] ps[k].contains(q);
                assert(ps[i].contains(p) && ps[j].contains(q));
            }
        }
    }
}

/// The sizes that shapes come down to: laid along the routing direction, without those that have no
/// area.
pub open spec fn sizes(is_horiz: bool, shapes: Seq<(i32, i32)>) -> Seq<(i32, i32)>
    decreases shapes.len(),
{
    if shapes.len() == 0 {
        Seq::empty()
    } else {
        let (w, h) = laid(is_horiz, shapes[0]);
        let rest = sizes(is_horiz, shapes.skip(1));
        if w <= 0 || h <= 0 {
            rest
        } else {
            seq![(w, h)] + rest
        }
    }
}

/// The sizes decide the fills.
proof fn lemma_sizes_decide(
    rem: Cells,
    shapes: Seq<(i32, i32)>,
    is_horiz: bool,
    dx: int,
    dy: int,
    num_masks: u32,
    needs_opc: bool,
)
    ensures
        fills_in(rem, shapes, is_horiz, dx, dy, num_masks, needs_opc) == fills_in(
            rem,
            sizes(is_horiz, shapes),
            is_horiz,
            dx,
            dy,
            num_masks,
            needs_opc,
        ),
    decreases shapes.len(),
{
    if shapes.len() > 0 {
        let (w, h) = laid(is_horiz, shapes[0]);
        let tail = shapes.skip(1);
        if w <= 0 || h <= 0 {
            lemma_sizes_decide(rem, tail, is_horiz, dx, dy, num_masks, needs_opc);
        } else {
            let all = sizes(is_horiz, shapes);
            assert(all.skip(1) =~= sizes(is_horiz, tail));
            assert(laid(is_horiz, all[0]) == (w, h));
            let ps = pieces(round_area(rem, w as int, h as int, dx, dy));
            let fills = round_fills(ps, w as int, h as int, dx, dy, num_masks, needs_opc);
            let left = rem.difference(grown(covered(fill_rects(fills)), kept(dx), kept(dy)));
            lemma_sizes_decide(left, tail, is_horiz, dx, dy, num_masks, needs_opc);
        }
    }
}

/// Two lists of shapes that come down to the same sizes give the same fills.
pub proof fn law_sizes_decide(
    area: Region,
    is_horiz: bool,
    cfg: ShapeView,
    shapes: Seq<(i32, i32)>,
    num_masks: u32,
    needs_opc: bool,
)
    requires
        sizes(is_horiz, cfg.shapes) == sizes(is_horiz, shapes),
    ensures
        ({
            let other = ShapeView { shapes, ..cfg };
            area_fills(area@, is_horiz, other, num_masks, needs_opc) == area_fills(
                area@,
                is_horiz,
                cfg,
                num_masks,
                needs_opc,
            )
        }),
{
    let (dx, dy) = gaps(is_horiz, cfg);
    lemma_sizes_decide(area@, cfg.shapes, is_horiz, dx as int, dy as int, num_masks, needs_opc);
    lemma_sizes_decide(area@, shapes, is_horiz, dx as int, dy as int, num_masks, needs_opc);
}

/// A pair turned round comes down to the same size.
proof fn lemma_turned(is_horiz: bool, shapes: Seq<(i32, i32)>, i: int)
    requires
        0 <= i < shapes.len(),
    ensures
        sizes(is_horiz, shapes.update(i, (shapes[i].1, shapes[i].0))) == sizes(is_horiz, shapes),
    decreases shapes.len(),
{
    let turned = shapes.update(i, (shapes[i].1, shapes[i].0));
    if i == 0 {
        assert(turned.skip(1) =~= shapes.skip(1));
    } else {
        lemma_turned(is_horiz, shapes.skip(1), i - 1);
        assert(turned.skip(1) =~= shapes.skip(1).update(i - 1, (shapes[i].1, shapes[i].0)));
    }
}

/// A pair with a side of zero or less adds no size.
proof fn lemma_no_area(is_horiz: bool, shapes: Seq<(i32, i32)>, i: int, pair: (i32, i32))
    requires
        0 <= i <= shapes.len(),
        pair.0 <= 0 || pair.1 <= 0,
    ensures
        sizes(is_horiz, shapes.insert(i, pair)) == sizes(is_horiz, shapes),
    decreases shapes.len(),
{
    let more = shapes.insert(i, pair);
    if i == 0 {
        assert(more.skip(1) =~= shapes);
    } else {
        lemma_no_area(is_horiz, shapes.skip(1), i - 1, pair);
        assert(more.skip(1) =~= shapes.skip(1).insert(i - 1, pair));
    }
}

/// Which side of a shape is stated as its width and which as its height changes no fill: turning a
/// pair round gives the same fills.
pub proof fn law_turned_pair(
    area: Region,
    is_horiz: bool,
    cfg: ShapeView,
    i: int,
    num_masks: u32,
    needs_opc: bool,
)
    requires
        0 <= i < cfg.shapes.len(),
    ensures
        ({
            let shapes = cfg.shapes.update(i, (cfg.shapes[i].1, cfg.shapes[i].0));
            area_fills(area@, is_horiz, ShapeView { shapes, ..cfg }, num_masks, needs_opc)
                == area_fills(area@, is_horiz, cfg, num_masks, needs_opc)
        }),
{
    let shapes = cfg.shapes.update(i, (cfg.shapes[i].1, cfg.shapes[i].0));
    lemma_turned(is_horiz, cfg.shapes, i);
    law_sizes_decide(area, is_horiz, cfg, shapes, num_masks, needs_opc);
}

/// A shape with no area is passed over: adding a pair with a side of zero or less, anywhere in the
/// list, gives the same fills.
pub proof fn law_no_area_no_fill(
    area: Region,
    is_horiz: bool,
    cfg: ShapeView,
    i: int,
    pair: (i32, i32),
    num_masks: u32,
    needs_opc: bool,
)
    requires
        0 <= i <= cfg.shapes.len(),
        pair.0 <= 0 || pair.1 <= 0,
    ensures
        ({
            let shapes = cfg.shapes.insert(i, pair);
            area_fills(area@, is_horiz, ShapeView { shapes, ..cfg }, num_masks, needs_opc)
                == area_fills(area@, is_horiz, cfg, num_masks, needs_opc)
        }),
{
    lemma_no_area(is_horiz, cfg.shapes, i, pair);
    law_sizes_decide(area, is_horiz, cfg, cfg.shapes.insert(i, pair), num_masks, needs_opc);
}

} // verus!
