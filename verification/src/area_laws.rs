//! What the fills of an area are, told from the area: size by size, and on one rectangle.

use vstd::prelude::*;

use crate::cells::{
    connected, first_cell, grown, in_world, is_first, near, piece_of, pieces, shrunk, Cells,
};
use crate::config::ShapeView;
use crate::fill::{
    area_fills, fill_rects, fills_in, fits, gaps, grid_tiles, half, kept, laid, numbered, opened,
    piece_tiles, pruned, room, round_area, round_fills, row_tiles, shape_at, Fill,
};
use crate::fill_laws::{bounded, declared, lemma_fills_in, lemma_opened_inside, step_at};
use crate::geometry::Rect;
use crate::rects::{covered, lemma_rect_connected, lemma_rect_finite, span};
use crate::region::{bounds_of, is_bounds, lemma_bounds_unique, lemma_grown_union};

verus! {

/// How many columns and rows fills keep between each other: the fill spacing, and along the routing
/// direction the line-end spacing where that is larger; never less than none.
pub open spec fn clearance(is_horiz: bool, cfg: ShapeView) -> (int, int) {
    let across = if cfg.space_to_fill < 0 {
        0
    } else {
        cfg.space_to_fill as int
    };
    let along = if cfg.space_line_end > across {
        cfg.space_line_end as int
    } else {
        across
    };
    if is_horiz {
        (along, across)
    } else {
        (across, along)
    }
}

/// The clearance is the gaps as they are kept.
pub proof fn lemma_clearance(is_horiz: bool, cfg: ShapeView)
    ensures
        ({
            let (dx, dy) = gaps(is_horiz, cfg);
            clearance(is_horiz, cfg) == (kept(dx as int), kept(dy as int))
        }),
{
}

/// The cells of fills.
pub open spec fn fill_cells(fills: Seq<Fill>) -> Cells {
    Set::new(
        |p: (int, int)|
            exists|i: int| 0 <= i < fills.len() && (#[trigger] fills[i]).rect.covers(p),
    )
}

/// The cells of fills are those of their rectangles.
pub proof fn lemma_fill_cells(fills: Seq<Fill>)
    ensures
        fill_cells(fills) =~= covered(fill_rects(fills)),
{
    let rects = fill_rects(fills);
    assert forall|p: (int, int)| fill_cells(fills).contains(p) <==> covered(rects).contains(p) by {
        if fill_cells(fills).contains(p) {
            let i = choose|i: int| 0 <= i < fills.len() && (#[trigger] fills[i]).rect.covers(p);
            assert(rects[i].covers(p));
        }
        if covered(rects).contains(p) {
            let i = choose|i: int| 0 <= i < rects.len() && #[trigger] rects[i].covers(p);
            assert(fills[i].rect.covers(p));
        }
    }
}

/// Sizes in turn, on the remaining area.
proof fn lemma_in_turn(
    rem: Cells,
    first: Seq<(i32, i32)>,
    rest: Seq<(i32, i32)>,
    is_horiz: bool,
    dx: int,
    dy: int,
    num_masks: u32,
    needs_opc: bool,
)
    ensures
        ({
            let a = fills_in(rem, first, is_horiz, dx, dy, num_masks, needs_opc);
            let left = rem.difference(grown(fill_cells(a), kept(dx), kept(dy)));
            fills_in(rem, first + rest, is_horiz, dx, dy, num_masks, needs_opc) == a + fills_in(
                left,
                rest,
                is_horiz,
                dx,
                dy,
                num_masks,
                needs_opc,
            )
        }),
    decreases first.len(),
{
    let a = fills_in(rem, first, is_horiz, dx, dy, num_masks, needs_opc);
    let left = rem.difference(grown(fill_cells(a), kept(dx), kept(dy)));
    let all = first + rest;
    if first.len() == 0 {
        assert(all =~= rest);
        assert(a =~= Seq::empty());
        assert(grown(fill_cells(a), kept(dx), kept(dy)) =~= Set::<(int, int)>::empty());
        assert(left =~= rem);
        assert(a + fills_in(rem, rest, is_horiz, dx, dy, num_masks, needs_opc) =~= fills_in(
            rem,
            rest,
            is_horiz,
            dx,
            dy,
            num_masks,
            needs_opc,
        ));
    } else {
        let tail = first.skip(1);
        assert(all.skip(1) =~= tail + rest);
        assert(all[0] == first[0]);
        let (w, h) = laid(is_horiz, first[0]);
        if w <= 0 || h <= 0 {
            lemma_in_turn(rem, tail, rest, is_horiz, dx, dy, num_masks, needs_opc);
        } else {
            let ps = pieces(round_area(rem, w as int, h as int, dx, dy));
            let f = round_fills(ps, w as int, h as int, dx, dy, num_masks, needs_opc);
            let mid = rem.difference(grown(covered(fill_rects(f)), kept(dx), kept(dy)));
            lemma_in_turn(mid, tail, rest, is_horiz, dx, dy, num_masks, needs_opc);
            let b = fills_in(mid, tail, is_horiz, dx, dy, num_masks, needs_opc);
            let last = mid.difference(grown(fill_cells(b), kept(dx), kept(dy)));
            assert(a == f + b);
            lemma_fill_cells(f);
            assert(fill_cells(a) =~= fill_cells(f).union(fill_cells(b))) by {
                assert forall|p: (int, int)| fill_cells(a).contains(p) <==> fill_cells(f).union(
                    fill_cells(b),
                ).contains(p) by {
                    if fill_cells(a).contains(p) {
                        let i = choose|i: int|
                            0 <= i < a.len() && (#[trigger] a[i]).rect.covers(p);
                        if i < f.len() {
                            assert(f[i].rect.covers(p));
                        } else {
                            assert(b[i - f.len()].rect.covers(p));
                        }
                    }
                    if fill_cells(f).contains(p) {
                        let i = choose|i: int|
                            0 <= i < f.len() && (#[trigger] f[i]).rect.covers(p);
                        assert(a[i].rect.covers(p));
                    }
                    if fill_cells(b).contains(p) {
                        let i = choose|i: int|
                            0 <= i < b.len() && (#[trigger] b[i]).rect.covers(p);
                        assert(a[i + f.len()].rect.covers(p));
                    }
                }
            }
            lemma_grown_union(fill_cells(f), fill_cells(b), kept(dx), kept(dy));
            assert(last =~= left);
            let c = fills_in(left, rest, is_horiz, dx, dy, num_masks, needs_opc);
            assert(f + (b + c) =~= a + c);
        }
    }
}

/// Every size is tried, in the order given and in either routing direction: the fills of `first` and
/// `rest` together are those of `first` alone, and then those that `rest` alone gives in the area
/// less the first fills and their clearance.
pub proof fn law_sizes_in_turn(
    area: Cells,
    is_horiz: bool,
    cfg: ShapeView,
    first: Seq<(i32, i32)>,
    rest: Seq<(i32, i32)>,
    num_masks: u32,
    needs_opc: bool,
)
    requires
        cfg.shapes == first + rest,
    ensures
        ({
            let (dx, dy) = clearance(is_horiz, cfg);
            let a = area_fills(
                area,
                is_horiz,
                ShapeView { shapes: first, ..cfg },
                num_masks,
                needs_opc,
            );
            let left = area.difference(grown(fill_cells(a), dx, dy));
            area_fills(area, is_horiz, cfg, num_masks, needs_opc) == a + area_fills(
                left,
                is_horiz,
                ShapeView { shapes: rest, ..cfg },
                num_masks,
                needs_opc,
            )
        }),
{
    let (dx, dy) = gaps(is_horiz, cfg);
    lemma_clearance(is_horiz, cfg);
    lemma_in_turn(area, first, rest, is_horiz, dx as int, dy as int, num_masks, needs_opc);
}

/// A shape as it lies: its long side along the routing direction.
pub open spec fn lying(is_horiz: bool, shape: (i32, i32)) -> (int, int) {
    let (long, short) = if shape.0 > shape.1 {
        (shape.0 as int, shape.1 as int)
    } else {
        (shape.1 as int, shape.0 as int)
    };
    if is_horiz {
        (long, short)
    } else {
        (short, long)
    }
}

/// Opening keeps every place that holds the shape: a `w` by `h` rectangle inside the area is inside
/// the opened area.
pub proof fn law_opening_keeps_room(area: Cells, x: int, y: int, w: int, h: int)
    requires
        bounded(area),
        w > 0,
        h > 0,
        span(x, y, x + w, y + h).subset_of(area),
    ensures
        span(x, y, x + w, y + h).subset_of(opened(area, w, h)),
        opened(area, w, h).subset_of(area),
{
    lemma_opened_inside(area, w, h);
    let (ew, eh) = (half(w), half(h));
    let s = span(x, y, x + w, y + h);
    assert forall|p: (int, int)| s.contains(p) implies opened(area, w, h).contains(p) by {
        let cx = if p.0 < x + ew {
            x + ew
        } else if p.0 > x + w - 1 - ew {
            x + w - 1 - ew
        } else {
            p.0
        };
        let cy = if p.1 < y + eh {
            y + eh
        } else if p.1 > y + h - 1 - eh {
            y + h - 1 - eh
        } else {
            p.1
        };
        let c = (cx, cy);
        assert forall|q: (int, int)| near(c, q, ew, eh) implies area.contains(q) by {
            assert(s.contains(q));
        }
        assert(shrunk(area, ew, eh).contains(c));
        assert(near(p, c, ew, eh));
        assert(area.contains(p));
        assert(in_world(p));
    }
}

/// A rectangle is one piece.
proof fn lemma_one_piece(r: Rect)
    requires
        !r.empty(),
    ensures
        pieces(r.cells()) == seq![r.cells()],
{
    let s = r.cells();
    lemma_rect_finite(r);
    assert(s.contains((r.x0 as int, r.y0 as int)));
    let c0 = (r.x0 as int, r.y0 as int);
    assert(is_first(s, c0));
    let c = first_cell(s);
    assert(is_first(s, c));
    assert forall|q: (int, int)| s.contains(q) implies connected(s, c, q) by {
        lemma_rect_connected(s, r, c, q);
    }
    assert(piece_of(s, c) =~= s);
    let rest = s.difference(piece_of(s, c));
    assert(rest =~= Set::<(int, int)>::empty());
    assert(pieces(rest) =~= Seq::empty());
    assert(pieces(s) =~= seq![s]);
}

/// The bounds of a rectangle are the rectangle.
proof fn lemma_bounds_of_rect(r: Rect)
    requires
        !r.empty(),
    ensures
        bounds_of(r.cells()) == r,
{
    let s = r.cells();
    assert(s.contains((r.x0 as int, r.y0 as int)));
    assert(s.contains((r.x1 - 1, r.y1 - 1)));
    assert(is_bounds(s, r)) by {
        let a = (r.x0 as int, r.y0 as int);
        let b = (r.x1 - 1, r.y1 - 1);
        assert(s.contains(a) && a.0 == r.x0);
        assert(s.contains(a) && a.1 == r.y0);
        assert(s.contains(b) && b.0 == r.x1 - 1);
        assert(s.contains(b) && b.1 == r.y1 - 1);
    }
    lemma_bounds_unique(s, bounds_of(s), r);
}

/// A rectangle with room for the shape is tiled as it is.
proof fn lemma_rect_area(r: Rect, w: int, h: int, dx: int, dy: int)
    requires
        0 < w <= r.x1 - r.x0,
        0 < h <= r.y1 - r.y0,
    ensures
        round_area(r.cells(), w, h, dx, dy) == r.cells(),
{
    let s = r.cells();
    lemma_rect_finite(r);
    let o = opened(s, w, h);
    lemma_opened_inside(s, w, h);
    assert forall|p: (int, int)| s.contains(p) implies o.contains(p) by {
        let x = if p.0 + w <= r.x1 {
            p.0
        } else {
            r.x1 - w
        };
        let y = if p.1 + h <= r.y1 {
            p.1
        } else {
            r.y1 - h
        };
        law_opening_keeps_room(s, x, y, w, h);
        assert(span(x, y, x + w, y + h).contains(p));
    }
    assert(o =~= s);
    assert forall|p: (int, int)| s.contains(p) implies pruned(s, kept(dx), kept(dy)).contains(p) by {
        assert forall|q: (int, int)|
            s.contains(q) && #[trigger] near(p, q, kept(dx), kept(dy)) implies connected(s, p, q) by {
            lemma_rect_connected(s, r, p, q);
        }
    }
    assert(pruned(s, kept(dx), kept(dy)) =~= s);
}

/// Whether `n` tiles of this length, a step apart, fit between `x` and `end`, and no more.
pub open spec fn holds_tiles(n: int, x: int, end: int, length: int, step: int) -> bool {
    &&& n >= 0
    &&& n > 0 ==> x + (n - 1) * step + length <= end
    &&& x + n * step + length > end
}

/// One tile less fits from the next step on.
proof fn lemma_holds_less(n: int, x: int, end: int, length: int, step: int)
    requires
        holds_tiles(n, x, end, length, step),
        step > 0,
    ensures
        n > 0 ==> holds_tiles(n - 1, x + step, end, length, step) && x + length <= end,
        n == 0 ==> holds_tiles(0, x + step, end, length, step) && x + length > end,
{
    assert((n - 1) * step == n * step - step) by (nonlinear_arith);
    assert((n - 2) * step == n * step - 2 * step) by (nonlinear_arith);
    assert(0int * step == 0) by (nonlinear_arith);
    if n == 0 {
        assert(n * step == 0) by (nonlinear_arith)
            requires
                n == 0,
        ;
    } else {
        assert((n - 1) * step >= 0) by (nonlinear_arith)
            requires
                n >= 1,
                step > 0,
        ;
    }
}

/// A row of tiles in a rectangle.
proof fn lemma_rect_row(r: Rect, n: int, x: int, y: int, w: int, h: int, dx: int, dy: int)
    requires
        w > 0,
        h > 0,
        dx >= 0,
        dy >= 0,
        r.x0 <= x,
        r.y0 <= y,
        y + h <= r.y1,
        holds_tiles(n, x, r.x1 as int, w, w + dx),
    ensures
        ({
            let t = row_tiles(r.cells(), x, y, r.x1 as int, w, h, dx, dy);
            &&& t.len() == n
            &&& forall|i: int|
                0 <= i < n ==> #[trigger] t[i] == shape_at(x + i * (w + dx), y, w, h)
        }),
    decreases room(x, r.x1 as int),
{
    let p = r.cells();
    let t = row_tiles(p, x, y, r.x1 as int, w, h, dx, dy);
    lemma_holds_less(n, x, r.x1 as int, w, w + dx);
    if x < r.x1 {
        let rest = row_tiles(p, x + w + dx, y, r.x1 as int, w, h, dx, dy);
        assert(x + (w + dx) == x + w + dx);
        if n > 0 {
            lemma_rect_row(r, n - 1, x + w + dx, y, w, h, dx, dy);
            assert(fits(p, x, y, w, h)) by {
                assert(span(x, y, x + w, y + h).subset_of(p));
            }
            assert(t =~= seq![shape_at(x, y, w, h)] + rest);
            assert forall|i: int| 0 <= i < n implies #[trigger] t[i] == shape_at(
                x + i * (w + dx),
                y,
                w,
                h,
            ) by {
                if i == 0 {
                    assert(0int * (w + dx) == 0) by (nonlinear_arith);
                } else {
                    assert(t[i] == rest[i - 1]);
                    assert(x + w + dx + (i - 1) * (w + dx) == x + i * (w + dx)) by (nonlinear_arith);
                }
            }
        } else {
            lemma_rect_row(r, 0, x + w + dx, y, w, h, dx, dy);
            assert(!fits(p, x, y, w, h)) by {
                let c = (x + w - 1, y);
                assert(span(x, y, x + w, y + h).contains(c));
                assert(!p.contains(c));
            }
        }
    }
}

/// A row that does not lie in a rectangle has no tiles.
proof fn lemma_no_row(r: Rect, x: int, y: int, w: int, h: int, dx: int, dy: int)
    requires
        w > 0,
        h > 0,
        y + h > r.y1,
    ensures
        row_tiles(r.cells(), x, y, r.x1 as int, w, h, dx, dy).len() == 0,
    decreases room(x, r.x1 as int),
{
    if w + dx > 0 && x < r.x1 {
        lemma_no_row(r, x + w + dx, y, w, h, dx, dy);
        let c = (x, y + h - 1);
        assert(span(x, y, x + w, y + h).contains(c));
        assert(!r.cells().contains(c));
    }
}

/// The tiles of a rectangle, row by row.
proof fn lemma_rect_grid(
    r: Rect,
    n: int,
    m: int,
    y: int,
    w: int,
    h: int,
    dx: int,
    dy: int,
)
    requires
        w > 0,
        h > 0,
        dx >= 0,
        dy >= 0,
        r.y0 <= y,
        holds_tiles(n, r.x0 as int, r.x1 as int, w, w + dx),
        holds_tiles(m, y, r.y1 as int, h, h + dy),
    ensures
        ({
            let t = grid_tiles(r.cells(), r, y, w, h, dx, dy);
            &&& t.len() == n * m
            &&& forall|i: int, j: int|
                0 <= i < n && 0 <= j < m ==> 0 <= #[trigger] place(i, j, n) < t.len() && t[place(
                    i,
                    j,
                    n,
                )] == shape_at(
                    step_at(r.x0 as int, i, w + dx),
                    step_at(y, j, h + dy),
                    w,
                    h,
                )
        }),
    decreases room(y, r.y1 as int),
{
    let p = r.cells();
    let t = grid_tiles(p, r, y, w, h, dx, dy);
    lemma_holds_less(m, y, r.y1 as int, h, h + dy);
    assert(n * 0 == 0) by (nonlinear_arith);
    if y < r.y1 {
        let row = row_tiles(p, r.x0 as int, y, r.x1 as int, w, h, dx, dy);
        let rest = grid_tiles(p, r, y + h + dy, w, h, dx, dy);
        assert(y + (h + dy) == y + h + dy);
        assert(t =~= row + rest);
        if m > 0 {
            lemma_rect_row(r, n, r.x0 as int, y, w, h, dx, dy);
            lemma_rect_grid(r, n, m - 1, y + h + dy, w, h, dx, dy);
            assert(n * m == n + n * (m - 1)) by (nonlinear_arith);
            assert forall|i: int, j: int| 0 <= i < n && 0 <= j < m implies 0 <= #[trigger] place(
                i,
                j,
                n,
            ) < t.len() && t[place(i, j, n)] == shape_at(
                step_at(r.x0 as int, i, w + dx),
                step_at(y, j, h + dy),
                w,
                h,
            ) by {
                if j == 0 {
                    assert(0 * n == 0) by (nonlinear_arith);
                    assert(0int * (h + dy) == 0) by (nonlinear_arith);
                    assert(place(i, j, n) == i);
                    assert(t[i] == row[i]);
                    assert(n * (m - 1) >= 0) by (nonlinear_arith)
                        requires
                            n >= 0,
                            m >= 1,
                    ;
                } else {
                    assert(place(i, j, n) == n + place(i, j - 1, n)) by {
                        assert(j * n == n + (j - 1) * n) by (nonlinear_arith);
                    }
                    assert(0 <= place(i, j - 1, n) < rest.len());
                    assert(t[place(i, j, n)] == rest[place(i, j - 1, n)]);
                    assert(y + h + dy + (j - 1) * (h + dy) == y + j * (h + dy)) by (nonlinear_arith);
                }
            }
        } else {
            lemma_no_row(r, r.x0 as int, y, w, h, dx, dy);
            lemma_rect_grid(r, n, 0, y + h + dy, w, h, dx, dy);
        }
    }
}

/// The place of column `i` and row `j` among rows of `n`.
pub open spec fn place(i: int, j: int, n: int) -> int {
    j * n + i
}

/// On one rectangle and one size the fills are known: as many columns and rows as fit, the lower left
/// one in the corner, each as far from the next as the clearance asks, row by row from the bottom; and
/// masks in turn, counted with 32 bits.
pub proof fn law_one_rectangle(
    r: Rect,
    is_horiz: bool,
    cfg: ShapeView,
    shape: (i32, i32),
    columns: int,
    rows: int,
    num_masks: u32,
    needs_opc: bool,
)
    requires
        cfg.shapes == seq![shape],
        shape.0 > 0,
        shape.1 > 0,
        cfg.space_to_fill >= 0,
        !r.empty(),
        ({
            let (w, h) = lying(is_horiz, shape);
            let (dx, dy) = clearance(is_horiz, cfg);
            &&& holds_tiles(columns, r.x0 as int, r.x1 as int, w, w + dx)
            &&& holds_tiles(rows, r.y0 as int, r.y1 as int, h, h + dy)
        }),
    ensures
        ({
            let (w, h) = lying(is_horiz, shape);
            let (dx, dy) = clearance(is_horiz, cfg);
            let f = area_fills(r.cells(), is_horiz, cfg, num_masks, needs_opc);
            &&& f.len() == columns * rows
            &&& forall|i: int, j: int|
                0 <= i < columns && 0 <= j < rows ==> {
                    let k = #[trigger] place(i, j, columns);
                    let x = r.x0 + i * (w + dx);
                    let y = r.y0 + j * (h + dy);
                    &&& 0 <= k < f.len()
                    &&& f[k].rect.x0 == x && f[k].rect.x1 == x + w
                    &&& f[k].rect.y0 == y && f[k].rect.y1 == y + h
                    &&& f[k].needs_opc == needs_opc
                    &&& f[k].mask == if num_masks <= 1 {
                        0
                    } else {
                        k % 0x1_0000_0000 % num_masks as int + 1
                    }
                }
        }),
{
    let (w, h) = lying(is_horiz, shape);
    let (dx, dy) = clearance(is_horiz, cfg);
    lemma_clearance(is_horiz, cfg);
    let p = r.cells();
    lemma_rect_finite(r);
    assert(bounded(p));
    let (lw, lh) = laid(is_horiz, shape);
    assert((lw as int, lh as int) == (w, h));
    let (gx, gy) = gaps(is_horiz, cfg);
    let f = area_fills(p, is_horiz, cfg, num_masks, needs_opc);
    let ps = pieces(round_area(p, w, h, gx as int, gy as int));
    let round = round_fills(ps, w, h, gx as int, gy as int, num_masks, needs_opc);
    let left = p.difference(grown(covered(fill_rects(round)), kept(gx as int), kept(gy as int)));
    let none = cfg.shapes.skip(1);
    assert(fills_in(left, none, is_horiz, gx as int, gy as int, num_masks, needs_opc)
        =~= Seq::empty());
    assert(f =~= round);
    lemma_holds_less(columns, r.x0 as int, r.x1 as int, w, w + dx);
    lemma_holds_less(rows, r.y0 as int, r.y1 as int, h, h + dy);
    if columns > 0 && rows > 0 {
        lemma_rect_area(r, w, h, gx as int, gy as int);
        lemma_one_piece(r);
        lemma_bounds_of_rect(r);
        lemma_rect_grid(r, columns, rows, r.y0 as int, w, h, dx, dy);
        let tiles = piece_tiles(p, w, h, dx, dy);
        assert(round_fills(ps.drop_last(), w, h, dx, dy, num_masks, needs_opc) =~= Seq::empty());
        assert(ps.last() == p);
        assert(round =~= numbered(tiles, num_masks, needs_opc));
        assert forall|i: int, j: int| 0 <= i < columns && 0 <= j < rows implies {
            let k = #[trigger] place(i, j, columns);
            let x = r.x0 + i * (w + dx);
            let y = r.y0 + j * (h + dy);
            &&& 0 <= k < f.len()
            &&& f[k].rect.x0 == x && f[k].rect.x1 == x + w
            &&& f[k].rect.y0 == y && f[k].rect.y1 == y + h
            &&& f[k].needs_opc == needs_opc
            &&& f[k].mask == if num_masks <= 1 {
                0
            } else {
                k % 0x1_0000_0000 % num_masks as int + 1
            }
        } by {
            let k = place(i, j, columns);
            let (x, y) = (r.x0 + i * (w + dx), r.y0 + j * (h + dy));
            assert(tiles[k] == shape_at(x, y, w, h));
            assert(0 <= i * (w + dx) <= (columns - 1) * (w + dx)) by (nonlinear_arith)
                requires
                    0 <= i < columns,
                    w + dx > 0,
            ;
            assert(0 <= j * (h + dy) <= (rows - 1) * (h + dy)) by (nonlinear_arith)
                requires
                    0 <= j < rows,
                    h + dy > 0,
            ;
            assert(f[k] == numbered(tiles, num_masks, needs_opc)[k]);
            if num_masks > 1 {
                let c = k % 0x1_0000_0000;
                assert(0 <= c % (num_masks as int) < num_masks) by (nonlinear_arith)
                    requires
                        num_masks > 1,
                        c >= 0,
                ;
            }
        }
    } else {
        assert(columns * rows == 0) by (nonlinear_arith)
            requires
                columns == 0 || rows == 0,
        ;
        lemma_fills_in(p, cfg.shapes, is_horiz, gx as int, gy as int, num_masks, needs_opc);
        if f.len() > 0 {
            let q = f[0].rect;
            assert(declared(q, is_horiz, cfg.shapes));
            assert(q.cells().subset_of(p));
            assert(q.cells().contains((q.x0 as int, q.y0 as int)));
            assert(q.cells().contains((q.x1 - 1, q.y1 - 1)));
            let n = choose|n: int|
                0 <= n < cfg.shapes.len() && laid(is_horiz, #[trigger] cfg.shapes[n]) == (
                    (q.x1 - q.x0) as i32,
                    (q.y1 - q.y0) as i32,
                ) && q.x1 - q.x0 <= i32::MAX && q.y1 - q.y0 <= i32::MAX;
            assert(cfg.shapes[n] == shape);
            assert(q.x1 - q.x0 == w && q.y1 - q.y0 == h);
        }
    }
}

} // verus!
