//! Deciding where the fill shapes of one area go.
//!
//! The algorithm is a loop over shape sizes, largest first: shrink the remaining area by half the
//! shape, bloat it back (which deletes anything too small to hold the shape and breaks big regions
//! into pieces), tile each piece on a fixed grid, keep only whole shapes, and subtract what was
//! placed before trying the next size down.

use vstd::prelude::*;

use crate::cells::{
    connected, grown, in_world, lemma_pieces_partition, near, pieces, shrunk, Cells,
};
use crate::config::{ShapeCfg, ShapeView};
use crate::geometry::Rect;
use crate::rects::{covered, span};
use crate::region::{bounds_of, is_bounds, Region};

verus! {

/// One fill shape to create.
#[derive(Debug, Clone, Copy, PartialEq, Eq, Structural)]
pub struct Fill {
    pub rect: Rect,
    pub mask: u32,
    pub needs_opc: bool,
}

/// The gaps between fill shapes, across columns and across rows: the line-end gap counts along the
/// routing direction only.
pub open spec fn gaps(is_horiz: bool, cfg: ShapeView) -> (i32, i32) {
    let s = cfg.space_to_fill;
    let e = if cfg.space_line_end > s {
        cfg.space_line_end
    } else {
        s
    };
    if is_horiz {
        (e, s)
    } else {
        (s, e)
    }
}

/// The spacing between fill shapes, which is anisotropic.
///
/// The line-end spacing applies along the routing direction only: two fills end to end along a
/// horizontal layer need more room than two side by side.
pub fn spacing(is_horiz: bool, cfg: &ShapeCfg) -> (r: (i32, i32))
    ensures
        r == gaps(is_horiz, cfg@),
{
    let mut sx = cfg.space_to_fill;
    let mut sy = cfg.space_to_fill;
    if is_horiz {
        if cfg.space_line_end > sx {
            sx = cfg.space_line_end;
        }
    } else {
        if cfg.space_line_end > sy {
            sy = cfg.space_line_end;
        }
    }
    (sx, sy)
}

/// A minimum gap as it is kept: a negative one asks for no gap.
pub open spec fn kept(gap: int) -> int {
    if gap < 0 {
        0
    } else {
        gap
    }
}

/// A minimum gap as it is kept.
pub(crate) fn kept_gap(gap: i32) -> (r: i32)
    ensures
        r == kept(gap as int),
        r >= 0,
{
    if gap < 0 {
        0
    } else {
        gap
    }
}

/// The cells of `s` with no cell of another piece of `s` within `dx` columns and `dy` rows.
pub open spec fn pruned(s: Cells, dx: int, dy: int) -> Cells {
    Set::new(
        |p: (int, int)|
            s.contains(p) && forall|q: (int, int)|
                s.contains(q) && #[trigger] near(p, q, dx, dy) ==> connected(s, p, q),
    )
}

/// The cells that two of the first pairs of `gs` share: all pairs whose first index is below `a`,
/// and those of index `a` whose second is below `b`.
spec fn shared_by_pairs(gs: Seq<Cells>, a: int, b: int) -> Cells {
    Set::new(
        |p: (int, int)|
            exists|i: int, j: int|
                0 <= i < j < gs.len() && (i < a || (i == a && j < b)) && #[trigger] gs[i].contains(
                    p,
                ) && #[trigger] gs[j].contains(p),
    )
}

/// Removes the places where two separate pieces are closer than the fill spacing.
///
/// Filling two nearly touching pieces independently can put two fills less than the spacing apart.
/// Bloating each piece separately and keeping only the overlaps that the bloat introduced finds
/// exactly those places; subtracting them keeps the two fills apart. It may forbid a fill that
/// would have been legal. A negative spacing asks for no gap.
pub fn prune(area: &Region, space_x: i32, space_y: i32) -> (r: Region)
    ensures
        r@ == pruned(area@, kept(space_x as int), kept(space_y as int)),
{
    let gap_x = kept_gap(space_x);
    let gap_y = kept_gap(space_y);
    let parts = area.pieces();
    let ghost ps = pieces(area@);
    let ghost dx = gap_x as int;
    let ghost dy = gap_y as int;
    let mut wide: Vec<Region> = Vec::new();
    let mut k: usize = 0;
    while k < parts.len()
        invariant
            k <= parts.len(),
            gap_x >= 0,
            gap_y >= 0,
            dx == gap_x,
            dy == gap_y,
            parts@.len() == ps.len(),
            forall|i: int| 0 <= i < ps.len() ==> (#[trigger] parts@[i])@ == ps[i],
            wide@.len() == k,
            forall|i: int| 0 <= i < k ==> (#[trigger] wide@[i])@ == grown(ps[i], dx, dy),
        decreases parts.len() - k,
    {
        wide.push(parts[k].bloat(gap_x, gap_y));
        k = k + 1;
    }
    let ghost gs = Seq::new(ps.len(), |i: int| grown(ps[i], dx, dy));
    let mut overlaps = Region::new();
    let mut i: usize = 0;
    assert(shared_by_pairs(gs, 0, 0) =~= Set::<(int, int)>::empty());
    while i < wide.len()
        invariant
            i <= wide.len(),
            wide@.len() == gs.len(),
            forall|n: int| 0 <= n < gs.len() ==> (#[trigger] wide@[n])@ == gs[n],
            overlaps@ =~= shared_by_pairs(gs, i as int, 0),
        decreases wide.len() - i,
    {
        let mut j: usize = i + 1;
        assert(shared_by_pairs(gs, i as int, i + 1) =~= shared_by_pairs(gs, i as int, 0));
        while j < wide.len()
            invariant
                i < j <= wide.len(),
                wide@.len() == gs.len(),
                forall|n: int| 0 <= n < gs.len() ==> (#[trigger] wide@[n])@ == gs[n],
                overlaps@ =~= shared_by_pairs(gs, i as int, j as int),
            decreases wide.len() - j,
        {
            let both = wide[i].intersection(&wide[j]);
            let ghost before = overlaps@;
            if !both.is_empty() {
                overlaps = overlaps.union(&both);
            }
            proof {
                let next = shared_by_pairs(gs, i as int, j + 1);
                assert(wide@[i as int]@ == gs[i as int] && wide@[j as int]@ == gs[j as int]);
                assert forall|p: (int, int)| next.contains(p) <==> before.union(both@).contains(p) by {
                    if both@.contains(p) {
                        assert(gs[i as int].contains(p) && gs[j as int].contains(p));
                    }
                    if before.contains(p) {
                        let (a, b) = choose|a: int, b: int|
                            0 <= a < b < gs.len() && (a < i || (a == i && b < j))
                                && #[trigger] gs[a].contains(p) && #[trigger] gs[b].contains(p);
                        assert(gs[a].contains(p) && gs[b].contains(p));
                    }
                }
                assert(next =~= before.union(both@));
                assert(overlaps@ =~= before.union(both@));
            }
            j = j + 1;
        }
        assert(shared_by_pairs(gs, i as int, gs.len() as int) =~= shared_by_pairs(gs, i + 1, 0));
        i = i + 1;
    }
    let r = area.difference(&overlaps);
    proof {
        let s = area@;
        area.lemma_finite();
        lemma_pieces_partition(s);
        let shared = shared_by_pairs(gs, gs.len() as int, 0);
        assert forall|p: (int, int)| r@.contains(p) <==> pruned(s, dx, dy).contains(p) by {
            if s.contains(p) {
                let own = choose|k: int| 0 <= k < ps.len() && #[trigger] ps[k].contains(p);
                assert(near(p, p, dx, dy));
                assert(ps[own].contains(p));
                assert(gs[own].contains(p));
                if shared.contains(p) {
                    let (a, b) = choose|a: int, b: int|
                        0 <= a < b < gs.len() && (a < gs.len() || (a == gs.len() && b < 0))
                            && #[trigger] gs[a].contains(p) && #[trigger] gs[b].contains(p);
                    let other = if a == own { b } else { a };
                    assert(gs[other].contains(p));
                    let q = choose|q: (int, int)| ps[other].contains(q) && near(p, q, dx, dy);
                    assert(ps[other].contains(q) && near(p, q, dx, dy));
                    assert(!connected(s, p, q));
                    assert(s.contains(q));
                }
                if !pruned(s, dx, dy).contains(p) {
                    let q = choose|q: (int, int)|
                        s.contains(q) && #[trigger] near(p, q, dx, dy) && !connected(s, p, q);
                    assert(s.contains(q) && near(p, q, dx, dy) && !connected(s, p, q));
                    let other = choose|k: int| 0 <= k < ps.len() && #[trigger] ps[k].contains(q);
                    assert(ps[other].contains(q));
                    assert(other != own);
                    assert(gs[other].contains(p));
                    assert(shared.contains(p));
                }
            }
        }
        assert(r@ =~= pruned(s, dx, dy));
    }
    r
}

/// Whether the `w` by `h` shape with its lower left corner at `(x, y)` lies wholly in `p`.
pub open spec fn fits(p: Cells, x: int, y: int, w: int, h: int) -> bool {
    span(x, y, x + w, y + h).subset_of(p)
}

/// Whether nothing of `p` is beside the shape where neighbouring tiles run into each other: with a
/// negative gap they do, and make one larger shape together, which is no whole shape.
pub open spec fn alone(p: Cells, x: int, y: int, w: int, h: int, dx: int, dy: int) -> bool {
    &&& dx < 0 ==> span(x - 1, y, x, y + h).disjoint(p) && span(
        x + w,
        y,
        x + w + 1,
        y + h,
    ).disjoint(p)
    &&& dy < 0 ==> span(x, y - 1, x + w, y).disjoint(p) && span(
        x,
        y + h,
        x + w,
        y + h + 1,
    ).disjoint(p)
}

/// Whether the tile at `(x, y)` is a whole shape of the piece `p`.
pub open spec fn is_whole(p: Cells, x: int, y: int, w: int, h: int, dx: int, dy: int) -> bool {
    fits(p, x, y, w, h) && alone(p, x, y, w, h, dx, dy)
}

/// The `w` by `h` shape with its lower left corner at `(x, y)`.
pub open spec fn shape_at(x: int, y: int, w: int, h: int) -> Rect {
    Rect { x0: x as i32, y0: y as i32, x1: (x + w) as i32, y1: (y + h) as i32 }
}

/// How far `x` lies below `end`.
pub open spec fn room(x: int, end: int) -> nat {
    if x < end {
        (end - x) as nat
    } else {
        0
    }
}

/// The whole shapes of one grid row from column `x` on, left to right.
pub open spec fn row_tiles(
    p: Cells,
    x: int,
    y: int,
    end: int,
    w: int,
    h: int,
    dx: int,
    dy: int,
) -> Seq<Rect>
    decreases room(x, end),
{
    if w + dx <= 0 || x >= end {
        Seq::empty()
    } else {
        let rest = row_tiles(p, x + w + dx, y, end, w, h, dx, dy);
        if is_whole(p, x, y, w, h, dx, dy) {
            seq![shape_at(x, y, w, h)] + rest
        } else {
            rest
        }
    }
}

/// The whole shapes of the grid rows from row `y` on, bottom to top.
pub open spec fn grid_tiles(
    p: Cells,
    b: Rect,
    y: int,
    w: int,
    h: int,
    dx: int,
    dy: int,
) -> Seq<Rect>
    decreases room(y, b.y1 as int),
{
    if h + dy <= 0 || y >= b.y1 {
        Seq::empty()
    } else {
        row_tiles(p, b.x0 as int, y, b.x1 as int, w, h, dx, dy) + grid_tiles(
            p,
            b,
            y + h + dy,
            w,
            h,
            dx,
            dy,
        )
    }
}

/// The whole `w` by `h` shapes in the piece `p`, on the grid anchored at the lower left corner of
/// its bounding box, row by row from the bottom. A grid that does not advance holds none.
pub open spec fn piece_tiles(p: Cells, w: int, h: int, dx: int, dy: int) -> Seq<Rect> {
    let b = bounds_of(p);
    grid_tiles(p, b, b.y0 as int, w, h, dx, dy)
}

/// The mask of the `k`th shape of a piece: masks cycle from 1, and a single-mask layer writes none.
pub open spec fn mask_of(k: int, num_masks: u32) -> u32 {
    if num_masks <= 1 {
        0
    } else {
        ((k % 0x1_0000_0000) % num_masks as int + 1) as u32
    }
}

/// The shapes of one piece as fills.
pub open spec fn numbered(tiles: Seq<Rect>, num_masks: u32, needs_opc: bool) -> Seq<Fill> {
    Seq::new(
        tiles.len(),
        |k: int| Fill { rect: tiles[k], mask: mask_of(k, num_masks), needs_opc },
    )
}

proof fn lemma_empty_row(p: Cells, x: int, y: int, end: int, w: int, h: int, dx: int, dy: int)
    requires
        p =~= Set::<(int, int)>::empty(),
        w > 0,
        h > 0,
    ensures
        row_tiles(p, x, y, end, w, h, dx, dy) =~= Seq::empty(),
    decreases room(x, end),
{
    if w + dx > 0 && x < end {
        assert(span(x, y, x + w, y + h).contains((x, y)));
        lemma_empty_row(p, x + w + dx, y, end, w, h, dx, dy);
    }
}

proof fn lemma_empty_grid(p: Cells, b: Rect, y: int, w: int, h: int, dx: int, dy: int)
    requires
        p =~= Set::<(int, int)>::empty(),
        w > 0,
        h > 0,
    ensures
        grid_tiles(p, b, y, w, h, dx, dy) =~= Seq::empty(),
    decreases room(y, b.y1 as int),
{
    if h + dy > 0 && y < b.y1 {
        lemma_empty_row(p, b.x0 as int, y, b.x1 as int, w, h, dx, dy);
        lemma_empty_grid(p, b, y + h + dy, w, h, dx, dy);
    }
}

/// Rows that do not advance hold nothing.
pub proof fn lemma_no_advance(p: Cells, b: Rect, y: int, w: int, h: int, dx: int, dy: int)
    requires
        w + dx <= 0,
    ensures
        grid_tiles(p, b, y, w, h, dx, dy) =~= Seq::empty(),
    decreases room(y, b.y1 as int),
{
    if h + dy > 0 && y < b.y1 {
        lemma_no_advance(p, b, y + h + dy, w, h, dx, dy);
    }
}

/// Whether the region has a cell in these columns and rows.
fn has_cell(sub: &Region, x0: i64, y0: i64, x1: i64, y1: i64) -> (r: bool)
    requires
        i32::MIN - 1 <= x0 < x1 <= i32::MAX + 1,
        i32::MIN - 1 <= y0 < y1 <= i32::MAX + 1,
    ensures
        r == !span(x0 as int, y0 as int, x1 as int, y1 as int).disjoint(sub@),
{
    let low: i64 = i32::MIN as i64;
    let high: i64 = i32::MAX as i64;
    let r = Rect {
        x0: if x0 < low { i32::MIN } else { x0 as i32 },
        y0: if y0 < low { i32::MIN } else { y0 as i32 },
        x1: if x1 > high { i32::MAX } else { x1 as i32 },
        y1: if y1 > high { i32::MAX } else { y1 as i32 },
    };
    let both = sub.intersection(&Region::from_rect(r));
    let found = !both.is_empty();
    proof {
        let s = span(x0 as int, y0 as int, x1 as int, y1 as int);
        sub.lemma_finite();
        assert forall|c: (int, int)| sub@.contains(c) implies (s.contains(c) <==> r.cells().contains(
            c,
        )) by {
            assert(in_world(c));
        }
        assert forall|c: (int, int)| both@.contains(c) <==> sub@.contains(c) && s.contains(c) by {}
        if found {
            assert(exists|c: (int, int)| both@.contains(c)) by {
                if forall|c: (int, int)| !both@.contains(c) {
                    assert(both@ =~= Set::<(int, int)>::empty());
                }
            }
            let c = choose|c: (int, int)| both@.contains(c);
            assert(s.contains(c) && sub@.contains(c));
        } else {
            assert forall|c: (int, int)| s.contains(c) implies !sub@.contains(c) by {
                assert(!both@.contains(c));
            }
        }
    }
    found
}

/// Whether nothing of the piece is beside the tile where tiles run into each other.
fn stands_alone(sub: &Region, t: Rect, space_x: i32, space_y: i32) -> (r: bool)
    requires
        !t.empty(),
    ensures
        r == alone(
            sub@,
            t.x0 as int,
            t.y0 as int,
            t.x1 - t.x0,
            t.y1 - t.y0,
            space_x as int,
            space_y as int,
        ),
{
    let (x0, y0, x1, y1): (i64, i64, i64, i64) = (
        t.x0 as i64,
        t.y0 as i64,
        t.x1 as i64,
        t.y1 as i64,
    );
    if space_x < 0 && (has_cell(sub, x0 - 1, y0, x0, y1) || has_cell(sub, x1, y0, x1 + 1, y1)) {
        return false;
    }
    if space_y < 0 && (has_cell(sub, x0, y0 - 1, x1, y0) || has_cell(sub, x0, y1, x1, y1 + 1)) {
        return false;
    }
    true
}

/// The whole shapes of one piece.
fn tile_piece(sub: &Region, w: i32, h: i32, space_x: i32, space_y: i32) -> (tiles: Vec<Rect>)
    requires
        w > 0,
        h > 0,
    ensures
        tiles@ == piece_tiles(sub@, w as int, h as int, space_x as int, space_y as int),
{
    let mut tiles: Vec<Rect> = Vec::new();
    let b = match sub.bounds() {
        Some(b) => b,
        None => {
            proof {
                let b = bounds_of(sub@);
                lemma_empty_grid(
                    sub@,
                    b,
                    b.y0 as int,
                    w as int,
                    h as int,
                    space_x as int,
                    space_y as int,
                );
            }
            return tiles;
        },
    };
    let ghost p = sub@;
    let ghost (iw, ih, dx, dy) = (w as int, h as int, space_x as int, space_y as int);
    let ghost all = piece_tiles(p, iw, ih, dx, dy);
    if w as i64 + space_x as i64 <= 0 || h as i64 + space_y as i64 <= 0 {
        proof {
            if iw + dx <= 0 {
                lemma_no_advance(p, b, b.y0 as int, iw, ih, dx, dy);
            }
        }
        return tiles;
    }
    let mut y: i64 = b.y0 as i64;
    while y < b.y1 as i64
        invariant
            w > 0,
            h > 0,
            iw == w,
            ih == h,
            dx == space_x,
            dy == space_y,
            iw + dx > 0,
            ih + dy > 0,
            p == sub@,
            is_bounds(p, b),
            b.y0 <= y,
            y < b.y1 || y <= b.y1 + ih + dy,
            tiles@ + grid_tiles(p, b, y as int, iw, ih, dx, dy) == all,
        decreases room(y as int, b.y1 as int),
    {
        let ghost done = tiles@;
        let ghost row = row_tiles(p, b.x0 as int, y as int, b.x1 as int, iw, ih, dx, dy);
        let mut x: i64 = b.x0 as i64;
        assert(Seq::<Rect>::empty() + row =~= row);
        assert(done + row =~= done + Seq::<Rect>::empty() + row);
        while x < b.x1 as i64
            invariant
                w > 0,
                h > 0,
                iw == w,
                ih == h,
                dx == space_x,
                dy == space_y,
                iw + dx > 0,
                p == sub@,
                is_bounds(p, b),
                b.y0 <= y < b.y1,
                b.x0 <= x,
                x < b.x1 || x <= b.x1 + iw + dx,
                tiles@ + row_tiles(p, x as int, y as int, b.x1 as int, iw, ih, dx, dy) == done
                    + row,
            decreases room(x as int, b.x1 as int),
        {
            let ghost rest = row_tiles(p, x + iw + dx, y as int, b.x1 as int, iw, ih, dx, dy);
            let ghost before = tiles@;
            let inside = if x + w as i64 <= b.x1 as i64 && y + h as i64 <= b.y1 as i64 {
                let t = Rect {
                    x0: x as i32,
                    y0: y as i32,
                    x1: (x + w as i64) as i32,
                    y1: (y + h as i64) as i32,
                };
                let whole = sub.covers_rect(t) && stands_alone(sub, t, space_x, space_y);
                assert(t.cells() =~= span(x as int, y as int, x + iw, y + ih));
                if whole {
                    tiles.push(t);
                }
                whole
            } else {
                proof {
                    let c = (x + iw - 1, y + ih - 1);
                    assert(span(x as int, y as int, x + iw, y + ih).contains(c));
                    if p.contains(c) {
                        assert(b.covers(c));
                    }
                }
                false
            };
            proof {
                assert(inside == is_whole(p, x as int, y as int, iw, ih, dx, dy));
                if inside {
                    let t = shape_at(x as int, y as int, iw, ih);
                    assert(tiles@ =~= before.push(t));
                    assert(before + (seq![t] + rest) =~= tiles@ + rest);
                }
            }
            x = x + w as i64 + space_x as i64;
        }
        proof {
            assert(row_tiles(p, x as int, y as int, b.x1 as int, iw, ih, dx, dy) =~= Seq::empty());
            assert(tiles@ =~= done + row);
            let below = grid_tiles(p, b, y + ih + dy, iw, ih, dx, dy);
            assert(done + (row + below) =~= done + row + below);
        }
        y = y + h as i64 + space_y as i64;
    }
    assert(grid_tiles(p, b, y as int, iw, ih, dx, dy) =~= Seq::empty());
    assert(tiles@ =~= all);
    tiles
}

/// The fills of one piece of one shape size.
///
/// The mask count starts again with every piece: it does not run across pieces, shape sizes or
/// passes.
pub fn fill_piece(
    sub: &Region,
    w: i32,
    h: i32,
    space_x: i32,
    space_y: i32,
    num_masks: u32,
    needs_opc: bool,
) -> (out: Vec<Fill>)
    requires
        w > 0,
        h > 0,
    ensures
        out@ == numbered(
            piece_tiles(sub@, w as int, h as int, space_x as int, space_y as int),
            num_masks,
            needs_opc,
        ),
{
    let tiles = tile_piece(sub, w, h, space_x, space_y);
    let mut out: Vec<Fill> = Vec::new();
    let mut cnt: u32 = 0;
    let mut k: usize = 0;
    while k < tiles.len()
        invariant
            k <= tiles.len(),
            cnt == (k as int) % 0x1_0000_0000,
            out@.len() == k,
            forall|i: int|
                0 <= i < k ==> #[trigger] out@[i] == (Fill {
                    rect: tiles@[i],
                    mask: mask_of(i, num_masks),
                    needs_opc,
                }),
        decreases tiles.len() - k,
    {
        let mask = if num_masks <= 1 {
            0
        } else {
            cnt % num_masks + 1
        };
        cnt = cnt.wrapping_add(1);
        out.push(Fill { rect: tiles[k], mask, needs_opc });
        k = k + 1;
    }
    assert(out@ =~= numbered(tiles@, num_masks, needs_opc));
    out
}

/// A shape laid with its long side along the routing direction.
pub open spec fn laid(is_horiz: bool, shape: (i32, i32)) -> (i32, i32) {
    if (is_horiz && shape.0 < shape.1) || (!is_horiz && shape.1 < shape.0) {
        (shape.1, shape.0)
    } else {
        shape
    }
}

/// How far the area is shrunk and bloated again for a side of this length: one less than half of it,
/// and not at all for a side of one unit.
pub open spec fn half(side: int) -> int {
    if side >= 2 {
        side / 2 - 1
    } else {
        0
    }
}

/// The remaining area without what is too small for a `w` by `h` shape.
pub open spec fn opened(rem: Cells, w: int, h: int) -> Cells {
    grown(shrunk(rem, half(w), half(h)), half(w), half(h))
}

/// What a shape size is tiled into: the opened area without the places where two of its pieces are
/// closer than the spacing.
pub open spec fn round_area(rem: Cells, w: int, h: int, dx: int, dy: int) -> Cells {
    pruned(opened(rem, w, h), kept(dx), kept(dy))
}

/// The fills of the pieces `ps`, piece by piece.
pub open spec fn round_fills(
    ps: Seq<Cells>,
    w: int,
    h: int,
    dx: int,
    dy: int,
    num_masks: u32,
    needs_opc: bool,
) -> Seq<Fill>
    decreases ps.len(),
{
    if ps.len() == 0 {
        Seq::empty()
    } else {
        round_fills(ps.drop_last(), w, h, dx, dy, num_masks, needs_opc) + numbered(
            piece_tiles(ps.last(), w, h, dx, dy),
            num_masks,
            needs_opc,
        )
    }
}

/// The rectangles of `fills`.
pub open spec fn fill_rects(fills: Seq<Fill>) -> Seq<Rect> {
    fills.map_values(|f: Fill| f.rect)
}

/// The fills of `rem` for the shapes in turn, each size clear of the fills of the sizes before it.
pub open spec fn fills_in(
    rem: Cells,
    shapes: Seq<(i32, i32)>,
    is_horiz: bool,
    dx: int,
    dy: int,
    num_masks: u32,
    needs_opc: bool,
) -> Seq<Fill>
    decreases shapes.len(),
{
    if shapes.len() == 0 {
        Seq::empty()
    } else {
        let (w, h) = laid(is_horiz, shapes[0]);
        if w <= 0 || h <= 0 {
            fills_in(rem, shapes.skip(1), is_horiz, dx, dy, num_masks, needs_opc)
        } else {
            let ps = pieces(round_area(rem, w as int, h as int, dx, dy));
            let fills = round_fills(ps, w as int, h as int, dx, dy, num_masks, needs_opc);
            let left = rem.difference(grown(covered(fill_rects(fills)), kept(dx), kept(dy)));
            fills + fills_in(left, shapes.skip(1), is_horiz, dx, dy, num_masks, needs_opc)
        }
    }
}

/// The fills of `area` under `cfg`.
pub open spec fn area_fills(
    area: Cells,
    is_horiz: bool,
    cfg: ShapeView,
    num_masks: u32,
    needs_opc: bool,
) -> Seq<Fill> {
    let (dx, dy) = gaps(is_horiz, cfg);
    fills_in(area, cfg.shapes, is_horiz, dx as int, dy as int, num_masks, needs_opc)
}

/// The fills of one shape size: tile each piece of what is left, in the order of the pieces.
fn fill_round(
    remaining: &Region,
    w: i32,
    h: i32,
    space_x: i32,
    space_y: i32,
    num_masks: u32,
    needs_opc: bool,
) -> (out: Vec<Fill>)
    requires
        w > 0,
        h > 0,
    ensures
        out@ == round_fills(
            pieces(round_area(remaining@, w as int, h as int, space_x as int, space_y as int)),
            w as int,
            h as int,
            space_x as int,
            space_y as int,
            num_masks,
            needs_opc,
        ),
{
    let ew = if w >= 2 { w / 2 - 1 } else { 0 };
    let ns = if h >= 2 { h / 2 - 1 } else { 0 };
    let cut = prune(&remaining.shrink(ew, ns).bloat(ew, ns), space_x, space_y);
    let ghost (iw, ih, dx, dy) = (w as int, h as int, space_x as int, space_y as int);
    assert(cut@ == round_area(remaining@, iw, ih, dx, dy));
    let parts = cut.pieces();
    let ghost ps = pieces(cut@);
    let mut out: Vec<Fill> = Vec::new();
    let mut k: usize = 0;
    while k < parts.len()
        invariant
            k <= parts.len(),
            w > 0,
            h > 0,
            iw == w,
            ih == h,
            dx == space_x,
            dy == space_y,
            parts@.len() == ps.len(),
            forall|i: int| 0 <= i < ps.len() ==> (#[trigger] parts@[i])@ == ps[i],
            out@ == round_fills(ps.take(k as int), iw, ih, dx, dy, num_masks, needs_opc),
        decreases parts.len() - k,
    {
        let mut fills = fill_piece(&parts[k], w, h, space_x, space_y, num_masks, needs_opc);
        out.append(&mut fills);
        proof {
            let t = ps.take(k + 1);
            assert(t.drop_last() =~= ps.take(k as int));
            assert(t.last() == ps[k as int]);
            assert(parts@[k as int]@ == ps[k as int]);
        }
        k = k + 1;
    }
    assert(ps.take(ps.len() as int) =~= ps);
    out
}

/// The fill shapes for one area.
pub fn fill_area(
    area: &Region,
    is_horiz: bool,
    cfg: &ShapeCfg,
    num_masks: u32,
    needs_opc: bool,
) -> (out: Vec<Fill>)
    ensures
        out@ == area_fills(area@, is_horiz, cfg@, num_masks, needs_opc),
{
    let (space_x, space_y) = spacing(is_horiz, cfg);
    let ghost (dx, dy) = (space_x as int, space_y as int);
    let ghost all = area_fills(area@, is_horiz, cfg@, num_masks, needs_opc);
    let mut remaining = area.clone();
    let mut out: Vec<Fill> = Vec::new();
    let mut i: usize = 0;
    assert(cfg.shapes@.skip(0) =~= cfg.shapes@);
    assert(out@ + all =~= all);
    while i < cfg.shapes.len()
        invariant
            i <= cfg.shapes.len(),
            dx == space_x,
            dy == space_y,
            out@ + fills_in(
                remaining@,
                cfg.shapes@.skip(i as int),
                is_horiz,
                dx,
                dy,
                num_masks,
                needs_opc,
            ) == all,
        decreases cfg.shapes.len() - i,
    {
        let (w0, h0) = cfg.shapes[i];
        // The long side lies along the routing direction.
        let (w, h) = if (is_horiz && w0 < h0) || (!is_horiz && h0 < w0) {
            (h0, w0)
        } else {
            (w0, h0)
        };
        let ghost shapes = cfg.shapes@.skip(i as int);
        assert(shapes.skip(1) =~= cfg.shapes@.skip(i + 1));
        // A shape with no area cannot be placed.
        if w > 0 && h > 0 {
            let ghost before = out@;
            let mut fills = fill_round(
                &remaining,
                w,
                h,
                space_x,
                space_y,
                num_masks,
                needs_opc,
            );
            let ghost fs = fills@;
            let rects = rects_of(&fills);
            let placed = Region::from_rects(rects.as_slice());
            // Keep the next size down clear of what was just placed.
            remaining = remaining.difference(&placed.bloat(kept_gap(space_x), kept_gap(space_y)));
            out.append(&mut fills);
            proof {
                let rest = fills_in(
                    remaining@,
                    shapes.skip(1),
                    is_horiz,
                    dx,
                    dy,
                    num_masks,
                    needs_opc,
                );
                assert(before + (fs + rest) =~= before + fs + rest);
            }
        }
        i = i + 1;
    }
    assert(out@ =~= all);
    out
}

/// The rectangles of `fills`, in order.
pub(crate) fn rects_of(fills: &Vec<Fill>) -> (rects: Vec<Rect>)
    ensures
        rects@ == fill_rects(fills@),
{
    let mut rects: Vec<Rect> = Vec::new();
    let mut i: usize = 0;
    while i < fills.len()
        invariant
            i <= fills.len(),
            rects@.len() == i,
            forall|k: int| 0 <= k < i ==> #[trigger] rects@[k] == fills@[k].rect,
        decreases fills.len() - i,
    {
        rects.push(fills[i].rect);
        i = i + 1;
    }
    assert(rects@ =~= fill_rects(fills@));
    rects
}

} // verus!
