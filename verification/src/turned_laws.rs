//! What turning the plane round its diagonal does: a vertical layer is filled as a horizontal one is,
//! turned.

use vstd::prelude::*;

use crate::area_laws::{fill_cells, lemma_fill_cells};
use crate::cells::{adjacent, closed_in, connected, grown, in_world, near, piece_of, pieces, shrunk, Cells};
use crate::config::{LayerView, ShapeView};
use crate::fill::{
    area_fills, fill_rects, fills_in, gaps, half, kept, laid, opened, pruned, round_area, round_fills,
    Fill,
};
use crate::fill_laws::{bounded, lemma_bounds_exist, lemma_round_area, sits};
use crate::geometry::Rect;
use crate::layer::{free_area, layer_fills, non_opc_fills, opc_area, opc_fills};
use crate::layer_laws::{flagged, lemma_areas, lemma_passes, lemma_told_apart};
use crate::rects::{covered, span};
use crate::region::{bounds_of, is_bounds, lemma_bounds_unique};
use crate::size_laws::{has_rect, lemma_joined_rects, lemma_round_rects};

verus! {

/// A cell turned round the diagonal.
pub open spec fn flip(p: (int, int)) -> (int, int) {
    (p.1, p.0)
}

/// Cells turned round the diagonal.
pub open spec fn turned(s: Cells) -> Cells {
    Set::new(|p: (int, int)| s.contains(flip(p)))
}

/// A rectangle turned round the diagonal.
pub open spec fn turned_rect(r: Rect) -> Rect {
    Rect { x0: r.y0, y0: r.x0, x1: r.y1, y1: r.x1 }
}

/// Turned twice, cells are where they were.
proof fn lemma_turned_back(s: Cells)
    ensures
        turned(turned(s)) == s,
{
    assert forall|p: (int, int)| turned(turned(s)).contains(p) <==> s.contains(p) by {
        assert(flip(flip(p)) == p);
    }
    assert(turned(turned(s)) =~= s);
}

/// Turned cells are as many and as far from the ends.
proof fn lemma_turned_bounded(s: Cells)
    requires
        bounded(s),
    ensures
        bounded(turned(s)),
{
    let f = |p: (int, int)| flip(p);
    let image = s.map(f);
    s.lemma_map_finite(f);
    assert forall|p: (int, int)| turned(s).contains(p) <==> image.contains(p) by {
        if turned(s).contains(p) {
            assert(f(flip(p)) == p);
        }
        if image.contains(p) {
            let q = choose|q: (int, int)| s.contains(q) && p == f(q);
            assert(flip(p) == q);
        }
    }
    assert(turned(s) =~= image);
    assert forall|p: (int, int)| turned(s).contains(p) implies in_world(p) by {
        assert(in_world(flip(p)));
    }
}

/// Growing turned cells.
proof fn lemma_turned_grown(s: Cells, dx: int, dy: int)
    ensures
        grown(turned(s), dy, dx) == turned(grown(s, dx, dy)),
{
    assert forall|p: (int, int)| grown(turned(s), dy, dx).contains(p) <==> turned(
        grown(s, dx, dy),
    ).contains(p) by {
        if grown(turned(s), dy, dx).contains(p) {
            let q = choose|q: (int, int)| turned(s).contains(q) && near(p, q, dy, dx);
            assert(s.contains(flip(q)) && near(flip(p), flip(q), dx, dy));
        }
        if turned(grown(s, dx, dy)).contains(p) {
            let q = choose|q: (int, int)| s.contains(q) && near(flip(p), q, dx, dy);
            assert(flip(flip(q)) == q);
            assert(turned(s).contains(flip(q)) && near(p, flip(q), dy, dx));
        }
    }
    assert(grown(turned(s), dy, dx) =~= turned(grown(s, dx, dy)));
}

/// Shrinking turned cells.
proof fn lemma_turned_shrunk(s: Cells, dx: int, dy: int)
    ensures
        shrunk(turned(s), dy, dx) == turned(shrunk(s, dx, dy)),
{
    assert forall|p: (int, int)| shrunk(turned(s), dy, dx).contains(p) <==> turned(
        shrunk(s, dx, dy),
    ).contains(p) by {
        if shrunk(turned(s), dy, dx).contains(p) {
            assert forall|q: (int, int)| near(flip(p), q, dx, dy) implies s.contains(q) by {
                assert(near(p, flip(q), dy, dx));
                assert(turned(s).contains(flip(q)));
                assert(flip(flip(q)) == q);
            }
        }
        if turned(shrunk(s, dx, dy)).contains(p) {
            assert forall|q: (int, int)| near(p, q, dy, dx) implies turned(s).contains(q) by {
                assert(near(flip(p), flip(q), dx, dy));
            }
        }
    }
    assert(shrunk(turned(s), dy, dx) =~= turned(shrunk(s, dx, dy)));
}

/// Turned cells are connected as they were.
proof fn lemma_turned_connected(s: Cells, p: (int, int), q: (int, int))
    ensures
        connected(s, p, q) ==> connected(turned(s), flip(p), flip(q)),
{
    if connected(s, p, q) {
        let ts = turned(s);
        assert(flip(flip(p)) == p && flip(flip(q)) == q);
        assert forall|t: Cells| #[trigger] closed_in(ts, t) && t.contains(flip(p)) implies t.contains(
            flip(q),
        ) by {
            let back = turned(t);
            assert(closed_in(s, back)) by {
                assert forall|x: (int, int), y: (int, int)|
                    back.contains(x) && s.contains(y) && #[trigger] adjacent(x, y) implies back.contains(
                    y,
                ) by {
                    assert(flip(flip(y)) == y);
                    assert(t.contains(flip(x)) && ts.contains(flip(y)));
                    assert(adjacent(flip(x), flip(y)));
                }
            }
            assert(back.contains(p));
            assert(back.contains(q));
        }
    }
}

/// Turned cells are connected exactly as they were.
proof fn lemma_turned_connection(s: Cells, p: (int, int), q: (int, int))
    ensures
        connected(turned(s), flip(p), flip(q)) <==> connected(s, p, q),
{
    lemma_turned_connected(s, p, q);
    lemma_turned_connected(turned(s), flip(p), flip(q));
    lemma_turned_back(s);
    assert(flip(flip(p)) == p && flip(flip(q)) == q);
}

/// The piece around a turned cell.
proof fn lemma_turned_piece(s: Cells, c: (int, int))
    ensures
        piece_of(turned(s), flip(c)) == turned(piece_of(s, c)),
{
    assert forall|q: (int, int)| piece_of(turned(s), flip(c)).contains(q) <==> turned(
        piece_of(s, c),
    ).contains(q) by {
        lemma_turned_connection(s, c, flip(q));
        assert(flip(flip(q)) == q);
    }
    assert(piece_of(turned(s), flip(c)) =~= turned(piece_of(s, c)));
}

/// Pruning turned cells.
proof fn lemma_turned_pruned(s: Cells, dx: int, dy: int)
    ensures
        pruned(turned(s), dy, dx) == turned(pruned(s, dx, dy)),
{
    assert forall|p: (int, int)| pruned(turned(s), dy, dx).contains(p) <==> turned(
        pruned(s, dx, dy),
    ).contains(p) by {
        let o = flip(p);
        assert(flip(o) == p);
        if pruned(turned(s), dy, dx).contains(p) {
            assert forall|q: (int, int)|
                s.contains(q) && #[trigger] near(o, q, dx, dy) implies connected(s, o, q) by {
                assert(flip(flip(q)) == q);
                assert(turned(s).contains(flip(q)) && near(p, flip(q), dy, dx));
                lemma_turned_connection(s, o, q);
            }
        }
        if turned(pruned(s, dx, dy)).contains(p) {
            assert forall|q: (int, int)|
                turned(s).contains(q) && #[trigger] near(p, q, dy, dx) implies connected(
                turned(s),
                p,
                q,
            ) by {
                assert(flip(flip(q)) == q);
                assert(s.contains(flip(q)) && near(o, flip(q), dx, dy));
                lemma_turned_connection(s, o, flip(q));
            }
        }
    }
    assert(pruned(turned(s), dy, dx) =~= turned(pruned(s, dx, dy)));
}

/// What a size is tiled into, turned.
proof fn lemma_turned_area(rem: Cells, w: int, h: int, dx: int, dy: int)
    ensures
        round_area(turned(rem), h, w, dy, dx) == turned(round_area(rem, w, h, dx, dy)),
{
    lemma_turned_shrunk(rem, half(w), half(h));
    lemma_turned_grown(shrunk(rem, half(w), half(h)), half(w), half(h));
    lemma_turned_pruned(opened(rem, w, h), kept(dx), kept(dy));
}

/// The bounds of a turned piece are its bounds turned.
proof fn lemma_turned_bounds(p: Cells)
    requires
        bounded(p),
        p.len() > 0,
    ensures
        bounds_of(turned(p)) == turned_rect(bounds_of(p)),
{
    lemma_bounds_exist(p);
    let b = bounds_of(p);
    let tb = turned_rect(b);
    let tp = turned(p);
    let x0 = choose|q: (int, int)| p.contains(q) && q.0 == b.x0;
    let y0 = choose|q: (int, int)| p.contains(q) && q.1 == b.y0;
    let x1 = choose|q: (int, int)| p.contains(q) && q.0 == b.x1 - 1;
    let y1 = choose|q: (int, int)| p.contains(q) && q.1 == b.y1 - 1;
    assert(flip(flip(x0)) == x0 && flip(flip(y0)) == y0);
    assert(flip(flip(x1)) == x1 && flip(flip(y1)) == y1);
    assert(tp.contains(flip(x0)) && tp.contains(flip(y0)));
    assert(tp.contains(flip(x1)) && tp.contains(flip(y1)));
    assert forall|q: (int, int)| tp.contains(q) implies tb.covers(q) by {
        assert(p.contains(flip(q)));
        assert(b.covers(flip(q)));
    }
    assert(is_bounds(tp, tb)) by {
        assert(tp.contains(flip(y0)) && flip(y0).0 == tb.x0);
        assert(tp.contains(flip(x0)) && flip(x0).1 == tb.y0);
        assert(tp.contains(flip(y1)) && flip(y1).0 == tb.x1 - 1);
        assert(tp.contains(flip(x1)) && flip(x1).1 == tb.y1 - 1);
    }
    lemma_bounds_unique(tp, bounds_of(tp), tb);
}

/// A side of a turned piece is free where the side of the piece is.
proof fn lemma_turned_free(p: Cells, x0: int, y0: int, x1: int, y1: int)
    ensures
        span(x0, y0, x1, y1).disjoint(p) ==> span(y0, x0, y1, x1).disjoint(turned(p)),
{
    if span(x0, y0, x1, y1).disjoint(p) {
        assert forall|q: (int, int)| span(y0, x0, y1, x1).contains(q) implies !turned(p).contains(
            q,
        ) by {
            assert(span(x0, y0, x1, y1).contains(flip(q)));
        }
    }
}

/// A whole tile of a piece, turned, is one of the turned piece.
proof fn lemma_turned_tile(r: Rect, p: Cells, w: int, h: int, dx: int, dy: int)
    requires
        bounded(p),
        w > 0,
        h > 0,
        sits(r, p, w, h, dx, dy),
    ensures
        sits(turned_rect(r), turned(p), h, w, dy, dx),
{
    assert(r.cells().contains((r.x0 as int, r.y0 as int)));
    assert(p.contains((r.x0 as int, r.y0 as int)));
    if p.len() == 0 {
        vstd::set_lib::lemma_set_empty_equivalency_len(p);
    }
    lemma_turned_bounds(p);
    let t = turned_rect(r);
    assert forall|q: (int, int)| t.cells().contains(q) implies turned(p).contains(q) by {
        assert(r.cells().contains(flip(q)));
    }
    let (x, y) = (r.x0 as int, r.y0 as int);
    lemma_turned_free(p, x - 1, y, x, y + h);
    lemma_turned_free(p, x + w, y, x + w + 1, y + h);
    lemma_turned_free(p, x, y - 1, x + w, y);
    lemma_turned_free(p, x, y + h, x + w, y + h + 1);
}

/// The fills of one size, turned, are those of the turned area.
proof fn lemma_turned_round(
    t: Cells,
    w: int,
    h: int,
    dx: int,
    dy: int,
    num_masks: u32,
    needs_opc: bool,
    r: Rect,
)
    requires
        bounded(t),
        w > 0,
        h > 0,
        has_rect(round_fills(pieces(t), w, h, dx, dy, num_masks, needs_opc), r),
    ensures
        has_rect(
            round_fills(pieces(turned(t)), h, w, dy, dx, num_masks, needs_opc),
            turned_rect(r),
        ),
{
    lemma_turned_bounded(t);
    lemma_round_rects(t, w, h, dx, dy, num_masks, needs_opc, r);
    lemma_round_rects(turned(t), h, w, dy, dx, num_masks, needs_opc, turned_rect(r));
    let c = choose|c: (int, int)| #[trigger]
        t.contains(c) && sits(r, piece_of(t, c), w, h, dx, dy);
    let p = piece_of(t, c);
    assert(p.subset_of(t));
    vstd::set_lib::lemma_set_subset_finite(t, p);
    lemma_turned_tile(r, p, w, h, dx, dy);
    lemma_turned_piece(t, c);
    assert(flip(flip(c)) == c);
    assert(turned(t).contains(flip(c)));
}

/// Fills with the same rectangles, turned, cover the same cells, turned.
proof fn lemma_turned_cells(a: Seq<Fill>, b: Seq<Fill>)
    requires
        forall|r: Rect| #[trigger] has_rect(a, r) <==> has_rect(b, turned_rect(r)),
    ensures
        fill_cells(b) == turned(fill_cells(a)),
{
    assert forall|p: (int, int)| fill_cells(b).contains(p) <==> turned(fill_cells(a)).contains(p) by {
        if fill_cells(b).contains(p) {
            let i = choose|i: int| 0 <= i < b.len() && (#[trigger] b[i]).rect.covers(p);
            let r = turned_rect(b[i].rect);
            assert(turned_rect(r) == b[i].rect);
            assert(has_rect(b, turned_rect(r)));
            assert(has_rect(a, r));
            let j = choose|j: int| 0 <= j < a.len() && (#[trigger] a[j]).rect == r;
            assert(a[j].rect.covers(flip(p)));
        }
        if turned(fill_cells(a)).contains(p) {
            let i = choose|i: int| 0 <= i < a.len() && (#[trigger] a[i]).rect.covers(flip(p));
            assert(has_rect(a, a[i].rect));
            assert(has_rect(b, turned_rect(a[i].rect)));
            let j = choose|j: int|
                0 <= j < b.len() && (#[trigger] b[j]).rect == turned_rect(a[i].rect);
            assert(b[j].rect.covers(p));
        }
    }
    assert(fill_cells(b) =~= turned(fill_cells(a)));
}

/// Sizes in turn, on the turned area.
proof fn lemma_turned_fills(
    rem: Cells,
    shapes: Seq<(i32, i32)>,
    is_horiz: bool,
    dx: int,
    dy: int,
    num_masks: u32,
    needs_opc: bool,
)
    requires
        bounded(rem),
    ensures
        ({
            let a = fills_in(rem, shapes, is_horiz, dx, dy, num_masks, needs_opc);
            let b = fills_in(turned(rem), shapes, !is_horiz, dy, dx, num_masks, needs_opc);
            forall|r: Rect| #[trigger] has_rect(a, r) <==> has_rect(b, turned_rect(r))
        }),
    decreases shapes.len(),
{
    let trem = turned(rem);
    let a = fills_in(rem, shapes, is_horiz, dx, dy, num_masks, needs_opc);
    let b = fills_in(trem, shapes, !is_horiz, dy, dx, num_masks, needs_opc);
    if shapes.len() > 0 {
        let (w, h) = laid(is_horiz, shapes[0]);
        let tail = shapes.skip(1);
        assert(laid(!is_horiz, shapes[0]) == (h, w));
        if w <= 0 || h <= 0 {
            lemma_turned_fills(rem, tail, is_horiz, dx, dy, num_masks, needs_opc);
            assert(a == fills_in(rem, tail, is_horiz, dx, dy, num_masks, needs_opc));
            assert(b == fills_in(trem, tail, !is_horiz, dy, dx, num_masks, needs_opc));
        } else {
            let (iw, ih) = (w as int, h as int);
            let t = round_area(rem, iw, ih, dx, dy);
            let tt = round_area(trem, ih, iw, dy, dx);
            lemma_round_area(rem, iw, ih, dx, dy);
            lemma_turned_area(rem, iw, ih, dx, dy);
            lemma_turned_bounded(t);
            lemma_turned_back(t);
            let ra = round_fills(pieces(t), iw, ih, dx, dy, num_masks, needs_opc);
            let rb = round_fills(pieces(tt), ih, iw, dy, dx, num_masks, needs_opc);
            assert forall|r: Rect| #[trigger] has_rect(ra, r) <==> has_rect(rb, turned_rect(r)) by {
                if has_rect(ra, r) {
                    lemma_turned_round(t, iw, ih, dx, dy, num_masks, needs_opc, r);
                }
                if has_rect(rb, turned_rect(r)) {
                    lemma_turned_round(
                        tt,
                        ih,
                        iw,
                        dy,
                        dx,
                        num_masks,
                        needs_opc,
                        turned_rect(r),
                    );
                    assert(turned_rect(turned_rect(r)) == r);
                }
            }
            lemma_turned_cells(ra, rb);
            lemma_fill_cells(ra);
            lemma_fill_cells(rb);
            lemma_turned_grown(fill_cells(ra), kept(dx), kept(dy));
            let la = rem.difference(grown(covered(fill_rects(ra)), kept(dx), kept(dy)));
            let lb = trem.difference(grown(covered(fill_rects(rb)), kept(dy), kept(dx)));
            assert(lb =~= turned(la));
            vstd::set_lib::lemma_set_subset_finite(rem, la);
            lemma_turned_fills(la, tail, is_horiz, dx, dy, num_masks, needs_opc);
            let sa = fills_in(la, tail, is_horiz, dx, dy, num_masks, needs_opc);
            let sb = fills_in(lb, tail, !is_horiz, dy, dx, num_masks, needs_opc);
            assert(a == ra + sa);
            assert(b == rb + sb);
            assert forall|r: Rect| #[trigger] has_rect(a, r) <==> has_rect(b, turned_rect(r)) by {
                lemma_joined_rects(ra, sa, r);
                lemma_joined_rects(rb, sb, turned_rect(r));
                assert(has_rect(ra, r) <==> has_rect(rb, turned_rect(r)));
                assert(has_rect(sa, r) <==> has_rect(sb, turned_rect(r)));
            }
        }
    }
}

/// A vertical layer is filled as a horizontal one is, turned round the diagonal: turning the area and
/// the routing direction turns the shapes placed.
pub proof fn law_turned_area(
    area: Cells,
    is_horiz: bool,
    cfg: ShapeView,
    num_masks: u32,
    needs_opc: bool,
    r: Rect,
)
    requires
        bounded(area),
    ensures
        has_rect(area_fills(area, is_horiz, cfg, num_masks, needs_opc), r) <==> has_rect(
            area_fills(turned(area), !is_horiz, cfg, num_masks, needs_opc),
            turned_rect(r),
        ),
{
    let (dx, dy) = gaps(is_horiz, cfg);
    lemma_turned_fills(
        area,
        cfg.shapes,
        is_horiz,
        dx as int,
        dy as int,
        num_masks,
        needs_opc,
    );
}

/// What is clear of turned metal.
proof fn lemma_turned_clear(bounds: Cells, s: Cells, gap: int)
    ensures
        free_area(turned(bounds), turned(s), gap) == turned(free_area(bounds, s, gap)),
{
    lemma_turned_grown(s, kept(gap), kept(gap));
    assert(free_area(turned(bounds), turned(s), gap) =~= turned(free_area(bounds, s, gap)));
}

/// A vertical layer gets the fills that a horizontal one gets, turned round the diagonal, in both
/// passes: turning the bounds, the metal and the routing direction turns the fills that need OPC and
/// those that need none.
pub proof fn law_turned_layer(
    bounds: Cells,
    occupied: Cells,
    cfg: LayerView,
    is_horiz: bool,
    needs_opc: bool,
    r: Rect,
)
    requires
        bounded(bounds),
    ensures
        ({
            let a = layer_fills(bounds, occupied, cfg, is_horiz);
            let b = layer_fills(turned(bounds), turned(occupied), cfg, !is_horiz);
            &&& has_rect(a, r) <==> has_rect(b, turned_rect(r))
            &&& has_rect(flagged(a, needs_opc), r) <==> has_rect(
                flagged(b, needs_opc),
                turned_rect(r),
            )
        }),
{
    let (tb, to) = (turned(bounds), turned(occupied));
    lemma_turned_bounded(bounds);
    let pa = non_opc_fills(bounds, occupied, cfg, is_horiz);
    let pb = non_opc_fills(tb, to, cfg, !is_horiz);
    let gap = cfg.non_opc.space_to_non_fill as int;
    let area = free_area(bounds, occupied, gap);
    lemma_areas(bounds, occupied, cfg, pa);
    lemma_turned_clear(bounds, occupied, gap);
    assert forall|q: Rect| #[trigger] has_rect(pa, q) <==> has_rect(pb, turned_rect(q)) by {
        law_turned_area(area, is_horiz, cfg.non_opc, cfg.num_masks, false, q);
    }
    let oa = opc_fills(bounds, occupied, cfg, is_horiz);
    let ob = opc_fills(tb, to, cfg, !is_horiz);
    if cfg.has_opc {
        lemma_turned_cells(pa, pb);
        lemma_fill_cells(pa);
        lemma_fill_cells(pb);
        let k = kept(cfg.non_opc.space_to_fill as int);
        lemma_turned_grown(fill_cells(pa), k, k);
        lemma_turned_clear(bounds, occupied, cfg.opc.space_to_non_fill as int);
        assert(opc_area(tb, to, cfg, pb) =~= turned(opc_area(bounds, occupied, cfg, pa)));
        law_turned_area(
            opc_area(bounds, occupied, cfg, pa),
            is_horiz,
            cfg.opc,
            cfg.num_masks,
            true,
            r,
        );
    } else {
        assert(has_rect(oa, r) == has_rect(ob, turned_rect(r)));
    }
    lemma_joined_rects(pa, oa, r);
    lemma_joined_rects(pb, ob, turned_rect(r));
    assert(has_rect(pa, r) <==> has_rect(pb, turned_rect(r)));
    lemma_passes(bounds, occupied, cfg, is_horiz);
    lemma_passes(tb, to, cfg, !is_horiz);
    lemma_told_apart(pa, oa);
    lemma_told_apart(pb, ob);
}

} // verus!
