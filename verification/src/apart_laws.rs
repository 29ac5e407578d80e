//! What the fills of an area are, told from its parts: areas that lie apart are filled each on its own.

use vstd::prelude::*;

use crate::area_laws::{clearance, fill_cells, lemma_clearance, lemma_fill_cells};
use crate::cells::{
    adjacent, closed_in, connected, grown, in_world, lemma_pieces_partition, near, piece_of, pieces,
    shrunk, Cells,
};
use crate::config::ShapeView;
use crate::fill::{
    area_fills, fill_rects, fills_in, gaps, half, kept, laid, numbered, opened, piece_tiles, pruned,
    round_area, round_fills, Fill,
};
use crate::fill_laws::{bounded, lemma_fills_in, lemma_round_area};
use crate::geometry::Rect;
use crate::rects::{covered, lemma_rect_connected};
use crate::region::lemma_grown_union;

verus! {

/// The fills of the pieces are those of each piece.
proof fn lemma_round_fills(
    ps: Seq<Cells>,
    w: int,
    h: int,
    dx: int,
    dy: int,
    num_masks: u32,
    needs_opc: bool,
    f: Fill,
)
    ensures
        round_fills(ps, w, h, dx, dy, num_masks, needs_opc).contains(f) <==> exists|k: int|
            0 <= k < ps.len() && numbered(
                piece_tiles(#[trigger] ps[k], w, h, dx, dy),
                num_masks,
                needs_opc,
            ).contains(f),
    decreases ps.len(),
{
    let all = round_fills(ps, w, h, dx, dy, num_masks, needs_opc);
    if ps.len() > 0 {
        let init = ps.drop_last();
        let n = ps.len() - 1;
        lemma_round_fills(init, w, h, dx, dy, num_masks, needs_opc, f);
        let a = round_fills(init, w, h, dx, dy, num_masks, needs_opc);
        let b = numbered(piece_tiles(ps.last(), w, h, dx, dy), num_masks, needs_opc);
        assert(all == a + b);
        assert(ps[n] == ps.last());
        if all.contains(f) {
            let i = choose|i: int| 0 <= i < all.len() && all[i] == f;
            if i < a.len() {
                assert(a[i] == f);
                let k = choose|k: int|
                    0 <= k < init.len() && numbered(
                        piece_tiles(#[trigger] init[k], w, h, dx, dy),
                        num_masks,
                        needs_opc,
                    ).contains(f);
                assert(ps[k] == init[k]);
            } else {
                assert(b[i - a.len()] == f);
                assert(numbered(piece_tiles(ps[n], w, h, dx, dy), num_masks, needs_opc).contains(f));
            }
        }
        if exists|k: int|
            0 <= k < ps.len() && numbered(
                piece_tiles(#[trigger] ps[k], w, h, dx, dy),
                num_masks,
                needs_opc,
            ).contains(f) {
            let k = choose|k: int|
                0 <= k < ps.len() && numbered(
                    piece_tiles(#[trigger] ps[k], w, h, dx, dy),
                    num_masks,
                    needs_opc,
                ).contains(f);
            if k < n {
                assert(init[k] == ps[k]);
                let i = choose|i: int| 0 <= i < a.len() && a[i] == f;
                assert(all[i] == f);
            } else {
                let i = choose|i: int| 0 <= i < b.len() && b[i] == f;
                assert(all[a.len() + i] == f);
            }
        }
    }
}

/// Whether the piece of `t` around `c` has this fill.
pub open spec fn has_fill(
    t: Cells,
    c: (int, int),
    w: int,
    h: int,
    dx: int,
    dy: int,
    num_masks: u32,
    needs_opc: bool,
    f: Fill,
) -> bool {
    t.contains(c) && numbered(
        piece_tiles(piece_of(t, c), w, h, dx, dy),
        num_masks,
        needs_opc,
    ).contains(f)
}

/// The fills of all pieces of `t` are those of the pieces around its cells.
pub proof fn lemma_piece_fills(
    t: Cells,
    w: int,
    h: int,
    dx: int,
    dy: int,
    num_masks: u32,
    needs_opc: bool,
    f: Fill,
)
    requires
        t.finite(),
    ensures
        round_fills(pieces(t), w, h, dx, dy, num_masks, needs_opc).contains(f) <==> exists|
            c: (int, int),
        | #[trigger] has_fill(t, c, w, h, dx, dy, num_masks, needs_opc, f),
{
    let ps = pieces(t);
    lemma_pieces_partition(t);
    lemma_round_fills(ps, w, h, dx, dy, num_masks, needs_opc, f);
    assert forall|k: int, c: (int, int)|
        0 <= k < ps.len() && #[trigger] ps[k].contains(c) implies ps[k] == piece_of(t, c) by {
        assert forall|q: (int, int)| ps[k].contains(q) <==> piece_of(t, c).contains(q) by {
            if connected(t, c, q) {
                let j = choose|j: int| 0 <= j < ps.len() && #[trigger] ps[j].contains(q);
                assert(ps[j].contains(q));
            }
        }
        assert(ps[k] =~= piece_of(t, c));
    }
    if exists|k: int|
        0 <= k < ps.len() && numbered(
            piece_tiles(#[trigger] ps[k], w, h, dx, dy),
            num_masks,
            needs_opc,
        ).contains(f) {
        let k = choose|k: int|
            0 <= k < ps.len() && numbered(
                piece_tiles(#[trigger] ps[k], w, h, dx, dy),
                num_masks,
                needs_opc,
            ).contains(f);
        assert(ps[k].finite() && ps[k].len() > 0);
        let c = ps[k].choose();
        assert(ps[k].contains(c));
        assert(t.contains(c));
        assert(has_fill(t, c, w, h, dx, dy, num_masks, needs_opc, f));
    }
    if exists|c: (int, int)| #[trigger] has_fill(t, c, w, h, dx, dy, num_masks, needs_opc, f) {
        let c = choose|c: (int, int)| #[trigger]
            has_fill(t, c, w, h, dx, dy, num_masks, needs_opc, f);
        let k = choose|k: int| 0 <= k < ps.len() && #[trigger] ps[k].contains(c);
        assert(ps[k] == piece_of(t, c));
    }
}

/// A distance of one at least.
pub open spec fn reach(d: int) -> int {
    if d < 1 {
        1
    } else {
        d
    }
}

/// Whether no cell of `a` is within these columns and rows of one of `b`, nor next to one.
pub open spec fn far(a: Cells, b: Cells, dx: int, dy: int) -> bool {
    forall|p: (int, int), q: (int, int)|
        a.contains(p) && b.contains(q) ==> !#[trigger] near(p, q, reach(dx), reach(dy))
}

/// Parts of areas that lie apart do.
proof fn lemma_far_parts(a: Cells, b: Cells, c: Cells, d: Cells, dx: int, dy: int)
    requires
        far(a, b, dx, dy),
        c.subset_of(a),
        d.subset_of(b),
    ensures
        far(c, d, dx, dy),
        far(d, c, dx, dy),
{
    let (ex, ey) = (reach(dx), reach(dy));
    assert forall|p: (int, int), q: (int, int)|
        d.contains(p) && c.contains(q) implies !#[trigger] near(p, q, ex, ey) by {
        assert(!near(q, p, ex, ey));
    }
    assert forall|p: (int, int), q: (int, int)|
        c.contains(p) && d.contains(q) implies !#[trigger] near(p, q, ex, ey) by {}
}

/// What lies apart changes nothing in how an area is connected.
proof fn lemma_connected_apart(a: Cells, b: Cells, dx: int, dy: int, p: (int, int), q: (int, int))
    requires
        far(a, b, dx, dy),
        a.contains(p),
    ensures
        connected(a.union(b), p, q) <==> connected(a, p, q),
{
    let u = a.union(b);
    let (ex, ey) = (reach(dx), reach(dy));
    if connected(a, p, q) {
        assert forall|t: Cells| #[trigger] closed_in(u, t) && t.contains(p) implies t.contains(q) by {
            assert(closed_in(a, t)) by {
                assert forall|x: (int, int), y: (int, int)|
                    t.contains(x) && a.contains(y) && #[trigger] adjacent(x, y) implies t.contains(
                    y,
                ) by {
                    assert(u.contains(y));
                }
            }
        }
    }
    if connected(u, p, q) {
        assert forall|t: Cells| #[trigger] closed_in(a, t) && t.contains(p) implies a.contains(q)
            && t.contains(q) by {
            let m = t.intersect(a);
            assert(closed_in(u, m)) by {
                assert forall|x: (int, int), y: (int, int)|
                    m.contains(x) && u.contains(y) && #[trigger] adjacent(x, y) implies m.contains(
                    y,
                ) by {
                    if b.contains(y) {
                        assert(near(x, y, ex, ey));
                    }
                }
            }
            assert(m.contains(p));
        }
        assert(closed_in(a, a));
        assert(a.contains(q));
    }
}

/// A window that lies in the union lies in one of the two.
proof fn lemma_window_apart(
    a: Cells,
    b: Cells,
    dx: int,
    dy: int,
    c: (int, int),
    ew: int,
    eh: int,
)
    requires
        bounded(a),
        bounded(b),
        far(a, b, dx, dy),
        ew >= 0,
        eh >= 0,
        a.contains(c),
        shrunk(a.union(b), ew, eh).contains(c),
    ensures
        shrunk(a, ew, eh).contains(c),
{
    let u = a.union(b);
    let lo = (c.0 - ew, c.1 - eh);
    let hi = (c.0 + ew, c.1 + eh);
    assert(near(c, lo, ew, eh) && near(c, hi, ew, eh));
    assert(u.contains(lo) && u.contains(hi));
    assert(in_world(lo) && in_world(hi));
    let r = Rect {
        x0: lo.0 as i32,
        y0: lo.1 as i32,
        x1: (hi.0 + 1) as i32,
        y1: (hi.1 + 1) as i32,
    };
    assert forall|q: (int, int)| near(c, q, ew, eh) implies a.contains(q) by {
        assert forall|z: (int, int)| r.cells().contains(z) implies u.contains(z) by {
            assert(near(c, z, ew, eh));
        }
        lemma_rect_connected(u, r, c, q);
        lemma_connected_apart(a, b, dx, dy, c, q);
    }
}

/// Opening acts on each of two areas that lie apart.
proof fn lemma_opened_apart(a: Cells, b: Cells, dx: int, dy: int, w: int, h: int)
    requires
        bounded(a),
        bounded(b),
        far(a, b, dx, dy),
    ensures
        opened(a.union(b), w, h) =~= opened(a, w, h).union(opened(b, w, h)),
{
    let u = a.union(b);
    let (ew, eh) = (half(w), half(h));
    lemma_far_parts(a, b, a, b, dx, dy);
    assert forall|c: (int, int)| shrunk(u, ew, eh).contains(c) <==> shrunk(a, ew, eh).union(
        shrunk(b, ew, eh),
    ).contains(c) by {
        if shrunk(u, ew, eh).contains(c) {
            assert(near(c, c, ew, eh));
            assert(u.contains(c));
            if a.contains(c) {
                lemma_window_apart(a, b, dx, dy, c, ew, eh);
            } else {
                assert(b.union(a) =~= u);
                lemma_window_apart(b, a, dx, dy, c, ew, eh);
            }
        }
    }
    assert(shrunk(u, ew, eh) =~= shrunk(a, ew, eh).union(shrunk(b, ew, eh)));
    lemma_grown_union(shrunk(a, ew, eh), shrunk(b, ew, eh), ew, eh);
}

/// Pruning acts on each of two areas that lie apart.
proof fn lemma_pruned_apart(a: Cells, b: Cells, dx: int, dy: int)
    requires
        far(a, b, dx, dy),
    ensures
        pruned(a.union(b), kept(dx), kept(dy)) =~= pruned(a, kept(dx), kept(dy)).union(
            pruned(b, kept(dx), kept(dy)),
        ),
{
    lemma_far_parts(a, b, a, b, dx, dy);
    lemma_pruned_part(a, b, dx, dy);
    lemma_pruned_part(b, a, dx, dy);
    assert(a.union(b) =~= b.union(a));
    assert forall|p: (int, int)| pruned(a.union(b), kept(dx), kept(dy)).contains(p) <==> pruned(
        a,
        kept(dx),
        kept(dy),
    ).union(pruned(b, kept(dx), kept(dy))).contains(p) by {
        if a.contains(p) && b.contains(p) {
            assert(near(p, p, reach(dx), reach(dy)));
        }
    }
}

/// Pruning a union leaves of one area what pruning that area leaves.
proof fn lemma_pruned_part(a: Cells, b: Cells, dx: int, dy: int)
    requires
        far(a, b, dx, dy),
    ensures
        forall|p: (int, int)|
            a.contains(p) ==> (#[trigger] pruned(a.union(b), kept(dx), kept(dy)).contains(p)
                <==> pruned(a, kept(dx), kept(dy)).contains(p)),
{
    let u = a.union(b);
    let (kx, ky) = (kept(dx), kept(dy));
    assert forall|p: (int, int)| a.contains(p) implies (#[trigger] pruned(u, kx, ky).contains(p)
        <==> pruned(a, kx, ky).contains(p)) by {
        if pruned(u, kx, ky).contains(p) {
            assert forall|q: (int, int)|
                a.contains(q) && #[trigger] near(p, q, kx, ky) implies connected(a, p, q) by {
                assert(u.contains(q));
                assert(connected(u, p, q));
                lemma_connected_apart(a, b, dx, dy, p, q);
            }
        }
        if pruned(a, kx, ky).contains(p) {
            assert forall|q: (int, int)|
                u.contains(q) && #[trigger] near(p, q, kx, ky) implies connected(u, p, q) by {
                if b.contains(q) {
                    assert(near(p, q, reach(dx), reach(dy)));
                }
                assert(connected(a, p, q));
                lemma_connected_apart(a, b, dx, dy, p, q);
            }
        }
    }
}

/// The pieces of areas that lie apart are those of each.
proof fn lemma_fills_apart(
    a: Cells,
    b: Cells,
    w: int,
    h: int,
    dx: int,
    dy: int,
    num_masks: u32,
    needs_opc: bool,
    f: Fill,
)
    requires
        a.finite(),
        b.finite(),
        far(a, b, dx, dy),
    ensures
        round_fills(pieces(a.union(b)), w, h, dx, dy, num_masks, needs_opc).contains(f)
            <==> round_fills(pieces(a), w, h, dx, dy, num_masks, needs_opc).contains(f)
            || round_fills(pieces(b), w, h, dx, dy, num_masks, needs_opc).contains(f),
{
    let u = a.union(b);
    lemma_piece_fills(u, w, h, dx, dy, num_masks, needs_opc, f);
    lemma_piece_fills(a, w, h, dx, dy, num_masks, needs_opc, f);
    lemma_piece_fills(b, w, h, dx, dy, num_masks, needs_opc, f);
    lemma_far_parts(a, b, a, b, dx, dy);
    assert(b.union(a) =~= u);
    assert forall|c: (int, int)| a.contains(c) implies #[trigger] piece_of(u, c) == piece_of(a, c) by {
        assert forall|q: (int, int)| piece_of(u, c).contains(q) <==> piece_of(a, c).contains(q) by {
            lemma_connected_apart(a, b, dx, dy, c, q);
        }
        assert(piece_of(u, c) =~= piece_of(a, c));
    }
    assert forall|c: (int, int)| b.contains(c) implies #[trigger] piece_of(u, c) == piece_of(b, c) by {
        assert forall|q: (int, int)| piece_of(u, c).contains(q) <==> piece_of(b, c).contains(q) by {
            lemma_connected_apart(b, a, dx, dy, c, q);
        }
        assert(piece_of(u, c) =~= piece_of(b, c));
    }
    if exists|c: (int, int)| #[trigger] has_fill(u, c, w, h, dx, dy, num_masks, needs_opc, f) {
        let c = choose|c: (int, int)| #[trigger]
            has_fill(u, c, w, h, dx, dy, num_masks, needs_opc, f);
        if a.contains(c) {
            assert(has_fill(a, c, w, h, dx, dy, num_masks, needs_opc, f));
        } else {
            assert(has_fill(b, c, w, h, dx, dy, num_masks, needs_opc, f));
        }
    }
    if exists|c: (int, int)| #[trigger] has_fill(a, c, w, h, dx, dy, num_masks, needs_opc, f) {
        let c = choose|c: (int, int)| #[trigger]
            has_fill(a, c, w, h, dx, dy, num_masks, needs_opc, f);
        assert(has_fill(u, c, w, h, dx, dy, num_masks, needs_opc, f));
    }
    if exists|c: (int, int)| #[trigger] has_fill(b, c, w, h, dx, dy, num_masks, needs_opc, f) {
        let c = choose|c: (int, int)| #[trigger]
            has_fill(b, c, w, h, dx, dy, num_masks, needs_opc, f);
        assert(has_fill(u, c, w, h, dx, dy, num_masks, needs_opc, f));
    }
}

/// What is left of areas that lie apart is what is left of each.
proof fn lemma_left_apart(
    a: Cells,
    b: Cells,
    fa: Seq<Fill>,
    fb: Seq<Fill>,
    fu: Seq<Fill>,
    dx: int,
    dy: int,
)
    requires
        far(a, b, dx, dy),
        fill_cells(fa).subset_of(a),
        fill_cells(fb).subset_of(b),
        forall|f: Fill| #[trigger] fu.contains(f) <==> fa.contains(f) || fb.contains(f),
    ensures
        a.union(b).difference(grown(fill_cells(fu), kept(dx), kept(dy))) =~= a.difference(
            grown(fill_cells(fa), kept(dx), kept(dy)),
        ).union(b.difference(grown(fill_cells(fb), kept(dx), kept(dy)))),
{
    let (kx, ky) = (kept(dx), kept(dy));
    lemma_same_cells(fa, fb, fu);
    lemma_grown_union(fill_cells(fa), fill_cells(fb), kx, ky);
    assert forall|p: (int, int)| a.contains(p) implies !grown(fill_cells(fb), kx, ky).contains(p) by {
        if grown(fill_cells(fb), kx, ky).contains(p) {
            let q = choose|q: (int, int)| fill_cells(fb).contains(q) && near(p, q, kx, ky);
            assert(b.contains(q));
            assert(near(p, q, reach(dx), reach(dy)));
        }
    }
    assert forall|p: (int, int)| b.contains(p) implies !grown(fill_cells(fa), kx, ky).contains(p) by {
        if grown(fill_cells(fa), kx, ky).contains(p) {
            let q = choose|q: (int, int)| fill_cells(fa).contains(q) && near(p, q, kx, ky);
            assert(a.contains(q));
            assert(near(q, p, reach(dx), reach(dy)));
        }
    }
}

/// The cells of fills are decided by which fills they are.
pub proof fn lemma_same_cells(fa: Seq<Fill>, fb: Seq<Fill>, fu: Seq<Fill>)
    requires
        forall|f: Fill| #[trigger] fu.contains(f) <==> fa.contains(f) || fb.contains(f),
    ensures
        fill_cells(fu) =~= fill_cells(fa).union(fill_cells(fb)),
{
    assert forall|p: (int, int)| fill_cells(fu).contains(p) <==> fill_cells(fa).union(
        fill_cells(fb),
    ).contains(p) by {
        if fill_cells(fu).contains(p) {
            let i = choose|i: int| 0 <= i < fu.len() && (#[trigger] fu[i]).rect.covers(p);
            assert(fu.contains(fu[i]));
            if fa.contains(fu[i]) {
                let j = choose|j: int| 0 <= j < fa.len() && fa[j] == fu[i];
                assert(fa[j].rect.covers(p));
            } else {
                let j = choose|j: int| 0 <= j < fb.len() && fb[j] == fu[i];
                assert(fb[j].rect.covers(p));
            }
        }
        if fill_cells(fa).contains(p) {
            let i = choose|i: int| 0 <= i < fa.len() && (#[trigger] fa[i]).rect.covers(p);
            assert(fa.contains(fa[i]) && fu.contains(fa[i]));
            let j = choose|j: int| 0 <= j < fu.len() && fu[j] == fa[i];
            assert(fu[j].rect.covers(p));
        }
        if fill_cells(fb).contains(p) {
            let i = choose|i: int| 0 <= i < fb.len() && (#[trigger] fb[i]).rect.covers(p);
            assert(fb.contains(fb[i]) && fu.contains(fb[i]));
            let j = choose|j: int| 0 <= j < fu.len() && fu[j] == fb[i];
            assert(fu[j].rect.covers(p));
        }
    }
}

/// The cells of one size's fills lie in the area.
proof fn lemma_round_inside(
    rem: Cells,
    w: i32,
    h: i32,
    shape: (i32, i32),
    is_horiz: bool,
    dx: int,
    dy: int,
    num_masks: u32,
    needs_opc: bool,
)
    requires
        bounded(rem),
        laid(is_horiz, shape) == (w, h),
        w > 0,
        h > 0,
    ensures
        ({
            let ps = pieces(round_area(rem, w as int, h as int, dx, dy));
            let f = round_fills(ps, w as int, h as int, dx, dy, num_masks, needs_opc);
            fill_cells(f).subset_of(rem)
        }),
{
    let ps = pieces(round_area(rem, w as int, h as int, dx, dy));
    let f = round_fills(ps, w as int, h as int, dx, dy, num_masks, needs_opc);
    let one = seq![shape];
    lemma_fills_in(rem, one, is_horiz, dx, dy, num_masks, needs_opc);
    let all = fills_in(rem, one, is_horiz, dx, dy, num_masks, needs_opc);
    let left = rem.difference(grown(covered(fill_rects(f)), kept(dx), kept(dy)));
    assert(fills_in(left, one.skip(1), is_horiz, dx, dy, num_masks, needs_opc) =~= Seq::empty());
    assert(all =~= f);
    assert forall|p: (int, int)| fill_cells(f).contains(p) implies rem.contains(p) by {
        let i = choose|i: int| 0 <= i < f.len() && (#[trigger] f[i]).rect.covers(p);
        assert(all[i].rect.cells().contains(p));
    }
}

/// Sizes in turn, on areas that lie apart.
proof fn lemma_areas_apart(
    a: Cells,
    b: Cells,
    shapes: Seq<(i32, i32)>,
    is_horiz: bool,
    dx: int,
    dy: int,
    num_masks: u32,
    needs_opc: bool,
)
    requires
        bounded(a),
        bounded(b),
        far(a, b, dx, dy),
    ensures
        ({
            let fa = fills_in(a, shapes, is_horiz, dx, dy, num_masks, needs_opc);
            let fb = fills_in(b, shapes, is_horiz, dx, dy, num_masks, needs_opc);
            let fu = fills_in(a.union(b), shapes, is_horiz, dx, dy, num_masks, needs_opc);
            forall|f: Fill| #[trigger] fu.contains(f) <==> fa.contains(f) || fb.contains(f)
        }),
    decreases shapes.len(),
{
    let u = a.union(b);
    if shapes.len() > 0 {
        let (w, h) = laid(is_horiz, shapes[0]);
        let tail = shapes.skip(1);
        if w <= 0 || h <= 0 {
            lemma_areas_apart(a, b, tail, is_horiz, dx, dy, num_masks, needs_opc);
            assert(fills_in(u, shapes, is_horiz, dx, dy, num_masks, needs_opc) == fills_in(
                u,
                tail,
                is_horiz,
                dx,
                dy,
                num_masks,
                needs_opc,
            ));
        } else {
            let (iw, ih) = (w as int, h as int);
            let (ta, tb, tu) = (
                round_area(a, iw, ih, dx, dy),
                round_area(b, iw, ih, dx, dy),
                round_area(u, iw, ih, dx, dy),
            );
            lemma_round_area(a, iw, ih, dx, dy);
            lemma_round_area(b, iw, ih, dx, dy);
            lemma_opened_apart(a, b, dx, dy, iw, ih);
            lemma_far_parts(a, b, opened(a, iw, ih), opened(b, iw, ih), dx, dy);
            lemma_pruned_apart(opened(a, iw, ih), opened(b, iw, ih), dx, dy);
            assert(tu =~= ta.union(tb));
            lemma_far_parts(a, b, ta, tb, dx, dy);
            let ra = round_fills(pieces(ta), iw, ih, dx, dy, num_masks, needs_opc);
            let rb = round_fills(pieces(tb), iw, ih, dx, dy, num_masks, needs_opc);
            let ru = round_fills(pieces(tu), iw, ih, dx, dy, num_masks, needs_opc);
            assert forall|f: Fill| #[trigger] ru.contains(f) <==> ra.contains(f) || rb.contains(
                f,
            ) by {
                lemma_fills_apart(ta, tb, iw, ih, dx, dy, num_masks, needs_opc, f);
            }
            lemma_round_inside(a, w, h, shapes[0], is_horiz, dx, dy, num_masks, needs_opc);
            lemma_round_inside(b, w, h, shapes[0], is_horiz, dx, dy, num_masks, needs_opc);
            lemma_fill_cells(ra);
            lemma_fill_cells(rb);
            lemma_fill_cells(ru);
            lemma_left_apart(a, b, ra, rb, ru, dx, dy);
            let la = a.difference(grown(covered(fill_rects(ra)), kept(dx), kept(dy)));
            let lb = b.difference(grown(covered(fill_rects(rb)), kept(dx), kept(dy)));
            let lu = u.difference(grown(covered(fill_rects(ru)), kept(dx), kept(dy)));
            assert(lu =~= la.union(lb));
            vstd::set_lib::lemma_set_subset_finite(a, la);
            vstd::set_lib::lemma_set_subset_finite(b, lb);
            lemma_far_parts(a, b, la, lb, dx, dy);
            lemma_areas_apart(la, lb, tail, is_horiz, dx, dy, num_masks, needs_opc);
            let sa = fills_in(la, tail, is_horiz, dx, dy, num_masks, needs_opc);
            let sb = fills_in(lb, tail, is_horiz, dx, dy, num_masks, needs_opc);
            let su = fills_in(lu, tail, is_horiz, dx, dy, num_masks, needs_opc);
            assert forall|f: Fill| #[trigger] (ru + su).contains(f) <==> (ra + sa).contains(f) || (rb
                + sb).contains(f) by {
                lemma_joined(ru, su, f);
                lemma_joined(ra, sa, f);
                lemma_joined(rb, sb, f);
                assert(ru.contains(f) <==> ra.contains(f) || rb.contains(f));
                assert(su.contains(f) <==> sa.contains(f) || sb.contains(f));
            }
            assert(fills_in(a, shapes, is_horiz, dx, dy, num_masks, needs_opc) == ra + sa);
            assert(fills_in(b, shapes, is_horiz, dx, dy, num_masks, needs_opc) == rb + sb);
            assert(fills_in(u, shapes, is_horiz, dx, dy, num_masks, needs_opc) == ru + su);
            let fa = fills_in(a, shapes, is_horiz, dx, dy, num_masks, needs_opc);
            let fb = fills_in(b, shapes, is_horiz, dx, dy, num_masks, needs_opc);
            let fu = fills_in(u, shapes, is_horiz, dx, dy, num_masks, needs_opc);
            assert forall|f: Fill| #[trigger] fu.contains(f) <==> fa.contains(f) || fb.contains(
                f,
            ) by {
                assert((ru + su).contains(f) <==> (ra + sa).contains(f) || (rb + sb).contains(f));
            }
        }
    }
}

/// What stands in two sequences in a row.
pub proof fn lemma_joined(a: Seq<Fill>, b: Seq<Fill>, f: Fill)
    ensures
        (a + b).contains(f) <==> a.contains(f) || b.contains(f),
{
    let c = a + b;
    if c.contains(f) {
        let i = choose|i: int| 0 <= i < c.len() && c[i] == f;
        if i < a.len() {
            assert(a[i] == f);
        } else {
            assert(b[i - a.len()] == f);
        }
    }
    if a.contains(f) {
        let i = choose|i: int| 0 <= i < a.len() && a[i] == f;
        assert(c[i] == f);
    }
    if b.contains(f) {
        let i = choose|i: int| 0 <= i < b.len() && b[i] == f;
        assert(c[a.len() + i] == f);
    }
}

/// Areas that lie apart, by the clearance and by one cell at least, are filled each on its own: their
/// union gets the fills of the one and the fills of the other, masks and all, and no others.
pub proof fn law_areas_apart(
    a: Cells,
    b: Cells,
    is_horiz: bool,
    cfg: ShapeView,
    num_masks: u32,
    needs_opc: bool,
    f: Fill,
)
    requires
        bounded(a),
        bounded(b),
        ({
            let (dx, dy) = clearance(is_horiz, cfg);
            far(a, b, dx, dy)
        }),
    ensures
        area_fills(a.union(b), is_horiz, cfg, num_masks, needs_opc).contains(f) <==> area_fills(
            a,
            is_horiz,
            cfg,
            num_masks,
            needs_opc,
        ).contains(f) || area_fills(b, is_horiz, cfg, num_masks, needs_opc).contains(f),
{
    let (dx, dy) = gaps(is_horiz, cfg);
    lemma_clearance(is_horiz, cfg);
    assert(far(a, b, dx as int, dy as int)) by {
        let (kx, ky) = clearance(is_horiz, cfg);
        assert(reach(kx) == reach(dx as int) && reach(ky) == reach(dy as int));
    }
    lemma_areas_apart(
        a,
        b,
        cfg.shapes,
        is_horiz,
        dx as int,
        dy as int,
        num_masks,
        needs_opc,
    );
}

} // verus!
