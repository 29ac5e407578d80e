//! Where the fills of one size are: the whole tiles of the pieces that are wide enough and keep the
//! gaps.

use vstd::prelude::*;

use crate::apart_laws::{has_fill, lemma_piece_fills};
use crate::area_laws::{clearance, fill_cells, law_sizes_in_turn, lemma_clearance, lying};
use crate::cells::{connected, grown, in_world, near, piece_of, pieces, shrunk, Cells};
use crate::config::ShapeView;
use crate::fill::{
    area_fills, fill_rects, fills_in, gaps, half, kept, laid, numbered, opened, piece_tiles, pruned,
    round_area, round_fills, Fill,
};
use crate::fill_laws::{
    bounded, law_whole_tiles_are_placed, lemma_bounds_exist, lemma_round_area, on_grid, sits,
};
use crate::geometry::Rect;
use crate::rects::{covered, span};
use crate::region::{bounds_of, is_bounds, lemma_bounds_unique};

verus! {

/// Whether some fill has this rectangle.
pub open spec fn has_rect(fills: Seq<Fill>, r: Rect) -> bool {
    exists|i: int| 0 <= i < fills.len() && (#[trigger] fills[i]).rect == r
}

/// The rectangles of one size's fills are the whole tiles of the pieces.
pub proof fn lemma_round_rects(
    t: Cells,
    w: int,
    h: int,
    dx: int,
    dy: int,
    num_masks: u32,
    needs_opc: bool,
    r: Rect,
)
    requires
        bounded(t),
        w > 0,
        h > 0,
    ensures
        has_rect(round_fills(pieces(t), w, h, dx, dy, num_masks, needs_opc), r) <==> exists|
            c: (int, int),
        | #[trigger] t.contains(c) && sits(r, piece_of(t, c), w, h, dx, dy),
{
    let all = round_fills(pieces(t), w, h, dx, dy, num_masks, needs_opc);
    assert forall|c: (int, int)| #[trigger] t.contains(c) implies bounded(piece_of(t, c)) by {
        assert(piece_of(t, c).subset_of(t));
        vstd::set_lib::lemma_set_subset_finite(t, piece_of(t, c));
    }
    if has_rect(all, r) {
        let i = choose|i: int| 0 <= i < all.len() && (#[trigger] all[i]).rect == r;
        let f = all[i];
        assert(all.contains(f));
        lemma_piece_fills(t, w, h, dx, dy, num_masks, needs_opc, f);
        let c = choose|c: (int, int)| #[trigger]
            has_fill(t, c, w, h, dx, dy, num_masks, needs_opc, f);
        let tiles = piece_tiles(piece_of(t, c), w, h, dx, dy);
        let fills = numbered(tiles, num_masks, needs_opc);
        let k = choose|k: int| 0 <= k < fills.len() && fills[k] == f;
        assert(tiles[k] == r);
        law_whole_tiles_are_placed(piece_of(t, c), w, h, dx, dy, r);
        assert(t.contains(c));
    }
    if exists|c: (int, int)| #[trigger] t.contains(c) && sits(r, piece_of(t, c), w, h, dx, dy) {
        let c = choose|c: (int, int)| #[trigger]
            t.contains(c) && sits(r, piece_of(t, c), w, h, dx, dy);
        law_whole_tiles_are_placed(piece_of(t, c), w, h, dx, dy, r);
        let tiles = piece_tiles(piece_of(t, c), w, h, dx, dy);
        let fills = numbered(tiles, num_masks, needs_opc);
        let k = choose|k: int| 0 <= k < tiles.len() && tiles[k] == r;
        let f = fills[k];
        assert(f.rect == r);
        assert(fills.contains(f));
        assert(has_fill(t, c, w, h, dx, dy, num_masks, needs_opc, f));
        lemma_piece_fills(t, w, h, dx, dy, num_masks, needs_opc, f);
        let i = choose|i: int| 0 <= i < all.len() && all[i] == f;
        assert(all[i].rect == r);
    }
}

/// The rectangles of fills in a row.
pub proof fn lemma_joined_rects(a: Seq<Fill>, b: Seq<Fill>, r: Rect)
    ensures
        has_rect(a + b, r) <==> has_rect(a, r) || has_rect(b, r),
{
    let c = a + b;
    if has_rect(c, r) {
        let i = choose|i: int| 0 <= i < c.len() && (#[trigger] c[i]).rect == r;
        if i < a.len() {
            assert(a[i].rect == r);
        } else {
            assert(b[i - a.len()].rect == r);
        }
    }
    if has_rect(a, r) {
        let i = choose|i: int| 0 <= i < a.len() && (#[trigger] a[i]).rect == r;
        assert(c[i].rect == r);
    }
    if has_rect(b, r) {
        let i = choose|i: int| 0 <= i < b.len() && (#[trigger] b[i]).rect == r;
        assert(c[a.len() + i].rect == r);
    }
}

/// The side of the window that must fit for a shape's side: the largest odd number below it, and one
/// at least.
pub open spec fn window(side: int) -> int {
    if side < 4 {
        1
    } else if side % 2 == 0 {
        side - 1
    } else {
        side - 2
    }
}

/// The cells of the area that a window inside the area covers.
pub open spec fn wide(area: Cells, w: int, h: int) -> Cells {
    Set::new(
        |p: (int, int)|
            exists|x: int, y: int|
                #![trigger span(x, y, x + w, y + h)]
                span(x, y, x + w, y + h).contains(p) && span(x, y, x + w, y + h).subset_of(area),
    )
}

/// Shrinking and bloating keeps what is wide enough, and nothing else: the cells that lie in a window
/// inside the area, a little smaller than the shape.
pub proof fn law_opened_is_wide(area: Cells, w: int, h: int)
    requires
        bounded(area),
        w > 0,
        h > 0,
    ensures
        opened(area, w, h) == wide(area, window(w), window(h)),
{
    let (ew, eh) = (half(w), half(h));
    let (ow, oh) = (window(w), window(h));
    assert(ow == 2 * ew + 1 && oh == 2 * eh + 1);
    assert forall|p: (int, int)| opened(area, w, h).contains(p) <==> wide(area, ow, oh).contains(p) by {
        if opened(area, w, h).contains(p) {
            let c = choose|c: (int, int)| shrunk(area, ew, eh).contains(c) && near(p, c, ew, eh);
            let (x, y) = (c.0 - ew, c.1 - eh);
            let s = span(x, y, x + ow, y + oh);
            assert forall|q: (int, int)| s.contains(q) implies area.contains(q) by {
                assert(near(c, q, ew, eh));
            }
            assert(s.contains(p) && s.subset_of(area));
        }
        if wide(area, ow, oh).contains(p) {
            let (x, y) = choose|x: int, y: int|
                #![trigger span(x, y, x + ow, y + oh)]
                span(x, y, x + ow, y + oh).contains(p) && span(x, y, x + ow, y + oh).subset_of(area);
            let s = span(x, y, x + ow, y + oh);
            let c = (x + ew, y + eh);
            assert forall|q: (int, int)| near(c, q, ew, eh) implies area.contains(q) by {
                assert(s.contains(q));
            }
            assert(shrunk(area, ew, eh).contains(c) && near(p, c, ew, eh));
            assert(area.contains(p) && in_world(p));
        }
    }
    assert(opened(area, w, h) =~= wide(area, ow, oh));
}

/// The cells of `s` whose neighbours in `s`, within `dx` columns and `dy` rows, are all of their own
/// piece.
pub open spec fn well_apart(s: Cells, dx: int, dy: int) -> Cells {
    Set::new(
        |p: (int, int)|
            s.contains(p) && forall|q: (int, int)|
                #![trigger connected(s, p, q)]
                s.contains(q) && -dx <= q.0 - p.0 <= dx && -dy <= q.1 - p.1 <= dy ==> connected(s, p, q),
    )
}

/// Pruning takes the cells near another piece, and no others.
pub proof fn law_pruned_is_well_apart(s: Cells, dx: int, dy: int)
    ensures
        pruned(s, dx, dy) == well_apart(s, dx, dy),
{
    assert forall|p: (int, int)| pruned(s, dx, dy).contains(p) <==> well_apart(s, dx, dy).contains(p) by {
        if pruned(s, dx, dy).contains(p) {
            assert forall|q: (int, int)|
                s.contains(q) && -dx <= q.0 - p.0 <= dx && -dy <= q.1 - p.1 <= dy implies connected(
                s,
                p,
                q,
            ) by {
                assert(near(p, q, dx, dy));
            }
        }
        if well_apart(s, dx, dy).contains(p) {
            assert forall|q: (int, int)|
                s.contains(q) && #[trigger] near(p, q, dx, dy) implies connected(s, p, q) by {
                assert(well_apart(s, dx, dy).contains(p));
            }
        }
    }
    assert(pruned(s, dx, dy) =~= well_apart(s, dx, dy));
}

/// How far apart the rules put tiles side by side: the clearance, and where the rules state negative
/// spacings the overlap that they ask for.
pub open spec fn step_gaps(is_horiz: bool, cfg: ShapeView) -> (int, int) {
    let across = cfg.space_to_fill as int;
    let along = if cfg.space_line_end > cfg.space_to_fill {
        cfg.space_line_end as int
    } else {
        across
    };
    if is_horiz {
        (along, across)
    } else {
        (across, along)
    }
}

/// Whether `r` is a `w` by `h` rectangle of cells of `p` on the grid of the steps from the lower left
/// corner of the box around `p`; and, where a step is shorter than the shape, with nothing of `p`
/// beside it on that side.
pub open spec fn on_corner_grid(r: Rect, p: Cells, w: int, h: int, dx: int, dy: int) -> bool {
    exists|b: Rect| #[trigger]
        is_bounds(p, b) && r.x1 - r.x0 == w && r.y1 - r.y0 == h && w + dx > 0 && h + dy > 0
            && r.cells().subset_of(p) && on_grid(b.x0 as int, r.x0 as int, w + dx) && on_grid(
            b.y0 as int,
            r.y0 as int,
            h + dy,
        ) && (dx < 0 ==> forall|q: (int, int)|
            p.contains(q) && r.y0 <= q.1 < r.y1 ==> q.0 != r.x0 - 1 && q.0 != r.x1) && (dy < 0
            ==> forall|q: (int, int)|
            p.contains(q) && r.x0 <= q.0 < r.x1 ==> q.1 != r.y0 - 1 && q.1 != r.y1)
}

/// A tile sits in a piece where it is on the grid of its corner.
proof fn lemma_sits(r: Rect, p: Cells, w: int, h: int, dx: int, dy: int)
    requires
        bounded(p),
        w > 0,
        h > 0,
    ensures
        sits(r, p, w, h, dx, dy) <==> on_corner_grid(r, p, w, h, dx, dy),
{
    let (x, y) = (r.x0 as int, r.y0 as int);
    if sits(r, p, w, h, dx, dy) {
        assert(r.cells().contains((x, y)));
        assert(p.contains((x, y)));
        if p.len() == 0 {
            vstd::set_lib::lemma_set_empty_equivalency_len(p);
        }
        lemma_bounds_exist(p);
        assert forall|q: (int, int)| dx < 0 && p.contains(q) && r.y0 <= q.1 < r.y1 implies q.0 != r.x0
            - 1 && q.0 != r.x1 by {
            assert(!span(x - 1, y, x, y + h).contains(q));
            assert(!span(x + w, y, x + w + 1, y + h).contains(q));
        }
        assert forall|q: (int, int)| dy < 0 && p.contains(q) && r.x0 <= q.0 < r.x1 implies q.1 != r.y0
            - 1 && q.1 != r.y1 by {
            assert(!span(x, y - 1, x + w, y).contains(q));
            assert(!span(x, y + h, x + w, y + h + 1).contains(q));
        }
        assert(is_bounds(p, bounds_of(p)));
    }
    if on_corner_grid(r, p, w, h, dx, dy) {
        let b = choose|b: Rect| #[trigger]
            is_bounds(p, b) && r.x1 - r.x0 == w && r.y1 - r.y0 == h && w + dx > 0 && h + dy > 0
                && r.cells().subset_of(p) && on_grid(b.x0 as int, r.x0 as int, w + dx) && on_grid(
                b.y0 as int,
                r.y0 as int,
                h + dy,
            ) && (dx < 0 ==> forall|q: (int, int)|
                p.contains(q) && r.y0 <= q.1 < r.y1 ==> q.0 != r.x0 - 1 && q.0 != r.x1) && (dy < 0
                ==> forall|q: (int, int)|
                p.contains(q) && r.x0 <= q.0 < r.x1 ==> q.1 != r.y0 - 1 && q.1 != r.y1);
        assert(is_bounds(p, bounds_of(p)));
        lemma_bounds_unique(p, b, bounds_of(p));
    }
}

/// The fills of one size are those of the pieces of what is wide enough and well apart.
pub proof fn lemma_one_size(
    area: Cells,
    is_horiz: bool,
    cfg: ShapeView,
    shape: (i32, i32),
    num_masks: u32,
    needs_opc: bool,
)
    requires
        bounded(area),
        cfg.shapes == seq![shape],
        shape.0 > 0,
        shape.1 > 0,
    ensures
        ({
            let (w, h) = lying(is_horiz, shape);
            let (kx, ky) = clearance(is_horiz, cfg);
            let (dx, dy) = step_gaps(is_horiz, cfg);
            let t = well_apart(wide(area, window(w), window(h)), kx, ky);
            &&& bounded(t)
            &&& w > 0
            &&& h > 0
            &&& area_fills(area, is_horiz, cfg, num_masks, needs_opc) == round_fills(
                pieces(t),
                w,
                h,
                dx,
                dy,
                num_masks,
                needs_opc,
            )
        }),
{
    let (w, h) = lying(is_horiz, shape);
    let (lw, lh) = laid(is_horiz, shape);
    assert((lw as int, lh as int) == (w, h));
    let (kx, ky) = clearance(is_horiz, cfg);
    lemma_clearance(is_horiz, cfg);
    let (dx, dy) = step_gaps(is_horiz, cfg);
    let (gx, gy) = gaps(is_horiz, cfg);
    assert((gx as int, gy as int) == (dx, dy));
    law_opened_is_wide(area, w, h);
    law_pruned_is_well_apart(opened(area, w, h), kx, ky);
    let t = well_apart(wide(area, window(w), window(h)), kx, ky);
    assert(round_area(area, w, h, dx, dy) == t);
    lemma_round_area(area, w, h, dx, dy);
    let all = area_fills(area, is_horiz, cfg, num_masks, needs_opc);
    let fills = round_fills(pieces(t), w, h, dx, dy, num_masks, needs_opc);
    assert(all =~= fills) by {
        let left = area.difference(
            grown(covered(fill_rects(fills)), kept(dx), kept(dy)),
        );
        let none = cfg.shapes.skip(1);
        assert(none.len() == 0);
        assert(fills_in(left, none, is_horiz, dx, dy, num_masks, needs_opc) =~= Seq::empty());
        assert(cfg.shapes[0] == shape);
    }
}

/// A shape of one size is placed where it fits, and nowhere else: the area without what is too narrow
/// for the shape and without what is too near another part of it falls into pieces, and the shapes
/// placed are exactly the whole ones on the grid in the corner of a piece. That holds in either
/// routing direction, the long side along it.
pub proof fn law_one_size(
    area: Cells,
    is_horiz: bool,
    cfg: ShapeView,
    shape: (i32, i32),
    num_masks: u32,
    needs_opc: bool,
    r: Rect,
)
    requires
        bounded(area),
        cfg.shapes == seq![shape],
        shape.0 > 0,
        shape.1 > 0,
    ensures
        ({
            let (w, h) = lying(is_horiz, shape);
            let (kx, ky) = clearance(is_horiz, cfg);
            let (dx, dy) = step_gaps(is_horiz, cfg);
            let t = well_apart(wide(area, window(w), window(h)), kx, ky);
            has_rect(area_fills(area, is_horiz, cfg, num_masks, needs_opc), r) <==> exists|
                c: (int, int),
            | #[trigger] t.contains(c) && on_corner_grid(r, piece_of(t, c), w, h, dx, dy)
        }),
{
    let (w, h) = lying(is_horiz, shape);
    let (kx, ky) = clearance(is_horiz, cfg);
    let (dx, dy) = step_gaps(is_horiz, cfg);
    let t = well_apart(wide(area, window(w), window(h)), kx, ky);
    lemma_one_size(area, is_horiz, cfg, shape, num_masks, needs_opc);
    lemma_round_rects(t, w, h, dx, dy, num_masks, needs_opc, r);
    assert forall|c: (int, int)| #[trigger] t.contains(c) implies (sits(
        r,
        piece_of(t, c),
        w,
        h,
        dx,
        dy,
    ) <==> on_corner_grid(r, piece_of(t, c), w, h, dx, dy)) by {
        assert(piece_of(t, c).subset_of(t));
        vstd::set_lib::lemma_set_subset_finite(t, piece_of(t, c));
        lemma_sits(r, piece_of(t, c), w, h, dx, dy);
    }
}

/// A size with a side of nothing or less places nothing, and takes nothing from the sizes after it.
pub proof fn law_no_size(
    area: Cells,
    is_horiz: bool,
    cfg: ShapeView,
    shape: (i32, i32),
    rest: Seq<(i32, i32)>,
    num_masks: u32,
    needs_opc: bool,
)
    requires
        cfg.shapes == seq![shape] + rest,
        shape.0 <= 0 || shape.1 <= 0,
    ensures
        area_fills(area, is_horiz, cfg, num_masks, needs_opc) == area_fills(
            area,
            is_horiz,
            ShapeView { shapes: rest, ..cfg },
            num_masks,
            needs_opc,
        ),
{
    assert(cfg.shapes[0] == shape);
    assert(cfg.shapes.skip(1) =~= rest);
}

/// What the first `n` sizes leave of the area: all that is clear of their fills by the spacing.
pub open spec fn left_by(
    area: Cells,
    is_horiz: bool,
    cfg: ShapeView,
    n: int,
    num_masks: u32,
    needs_opc: bool,
) -> Cells {
    let (dx, dy) = clearance(is_horiz, cfg);
    let before = area_fills(
        area,
        is_horiz,
        ShapeView { shapes: cfg.shapes.take(n), ..cfg },
        num_masks,
        needs_opc,
    );
    area.difference(grown(fill_cells(before), dx, dy))
}

/// Whether size `n` has a whole shape at `r`: on the grid in the corner of a piece of what the sizes
/// before it leave, without what is too narrow for it or too near another part.
pub open spec fn has_room(
    area: Cells,
    is_horiz: bool,
    cfg: ShapeView,
    n: int,
    num_masks: u32,
    needs_opc: bool,
    r: Rect,
) -> bool {
    let (w, h) = lying(is_horiz, cfg.shapes[n]);
    let (kx, ky) = clearance(is_horiz, cfg);
    let (dx, dy) = step_gaps(is_horiz, cfg);
    let left = left_by(area, is_horiz, cfg, n, num_masks, needs_opc);
    let t = well_apart(wide(left, window(w), window(h)), kx, ky);
    &&& w > 0
    &&& h > 0
    &&& exists|c: (int, int)| #[trigger]
        t.contains(c) && on_corner_grid(r, piece_of(t, c), w, h, dx, dy)
}

/// Every size is tried in its turn and in either routing direction: a shape is placed exactly where
/// one of the sizes has room for it in what the sizes before it leave.
pub proof fn law_every_size_is_tried(
    area: Cells,
    is_horiz: bool,
    cfg: ShapeView,
    num_masks: u32,
    needs_opc: bool,
    r: Rect,
)
    requires
        bounded(area),
    ensures
        has_rect(area_fills(area, is_horiz, cfg, num_masks, needs_opc), r) <==> exists|n: int|
            0 <= n < cfg.shapes.len() && #[trigger] has_room(
                area,
                is_horiz,
                cfg,
                n,
                num_masks,
                needs_opc,
                r,
            ),
{
    let all = cfg.shapes.len() as int;
    assert(cfg.shapes.take(all) =~= cfg.shapes);
    lemma_sizes_tried(area, is_horiz, cfg, num_masks, needs_opc, r, all);
}

/// The same of the first sizes.
proof fn lemma_sizes_tried(
    area: Cells,
    is_horiz: bool,
    cfg: ShapeView,
    num_masks: u32,
    needs_opc: bool,
    r: Rect,
    m: int,
)
    requires
        bounded(area),
        0 <= m <= cfg.shapes.len(),
    ensures
        has_rect(
            area_fills(
                area,
                is_horiz,
                ShapeView { shapes: cfg.shapes.take(m), ..cfg },
                num_masks,
                needs_opc,
            ),
            r,
        ) <==> exists|n: int|
            0 <= n < m && #[trigger] has_room(area, is_horiz, cfg, n, num_masks, needs_opc, r),
    decreases m,
{
    let now = ShapeView { shapes: cfg.shapes.take(m), ..cfg };
    if m > 0 {
        let k = m - 1;
        let shape = cfg.shapes[k];
        let before = ShapeView { shapes: cfg.shapes.take(k), ..cfg };
        let one = ShapeView { shapes: seq![shape], ..cfg };
        assert(now.shapes =~= before.shapes + one.shapes);
        lemma_sizes_tried(area, is_horiz, cfg, num_masks, needs_opc, r, k);
        law_sizes_in_turn(
            area,
            is_horiz,
            now,
            before.shapes,
            one.shapes,
            num_masks,
            needs_opc,
        );
        let left = left_by(area, is_horiz, cfg, k, num_masks, needs_opc);
        let a = area_fills(area, is_horiz, before, num_masks, needs_opc);
        let b = area_fills(left, is_horiz, one, num_masks, needs_opc);
        assert(area_fills(area, is_horiz, now, num_masks, needs_opc) == a + b);
        lemma_joined_rects(a, b, r);
        vstd::set_lib::lemma_set_subset_finite(area, left);
        assert(clearance(is_horiz, one) == clearance(is_horiz, cfg));
        assert(step_gaps(is_horiz, one) == step_gaps(is_horiz, cfg));
        if shape.0 > 0 && shape.1 > 0 {
            let (w, h) = lying(is_horiz, shape);
            assert(w > 0 && h > 0);
            law_one_size(left, is_horiz, one, shape, num_masks, needs_opc, r);
        } else {
            let none = Seq::<(i32, i32)>::empty();
            assert(one.shapes =~= seq![shape] + none);
            law_no_size(left, is_horiz, one, shape, none, num_masks, needs_opc);
            assert(b.len() == 0);
        }
        assert(has_rect(b, r) <==> has_room(area, is_horiz, cfg, k, num_masks, needs_opc, r));
    } else {
        assert(now.shapes.len() == 0);
        assert(area_fills(area, is_horiz, now, num_masks, needs_opc).len() == 0);
    }
}

} // verus!
