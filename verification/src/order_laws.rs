//! In which order fills come, and which masks they are on.

use vstd::prelude::*;

use crate::area_laws::{clearance, lying};
use crate::cells::{
    connected, first_cell, is_first, lemma_piece_shrinks, lemma_pieces_partition, piece_of, pieces,
    Cells,
};
use crate::config::ShapeView;
use crate::fill::{area_fills, mask_of, numbered, piece_tiles, round_fills, Fill};
use crate::fill_laws::{bounded, law_masks_cycle, law_piece_tiles};
use crate::size_laws::{lemma_one_size, step_gaps, well_apart, wide, window};

verus! {

/// Whether some cell of `a` comes before every cell of `b`, column by column and upwards.
pub open spec fn earlier(a: Cells, b: Cells) -> bool {
    exists|c: (int, int)| #[trigger]
        a.contains(c) && forall|q: (int, int)| #[trigger]
            b.contains(q) ==> c.0 < q.0 || (c.0 == q.0 && c.1 < q.1)
}

/// Pieces come in the order of their first cells.
pub proof fn law_pieces_in_order(s: Cells, j: int, k: int)
    requires
        s.finite(),
        0 <= j < k < pieces(s).len(),
    ensures
        earlier(pieces(s)[j], pieces(s)[k]),
    decreases s.len(),
{
    assert(exists|c: (int, int)| is_first(s, c));
    let c = first_cell(s);
    assert(is_first(s, c));
    let p = piece_of(s, c);
    let rest = s.difference(p);
    let ps = pieces(s);
    let rs = pieces(rest);
    lemma_piece_shrinks(s);
    assert(ps == seq![p] + rs);
    if j > 0 {
        law_pieces_in_order(rest, j - 1, k - 1);
        assert(ps[j] == rs[j - 1] && ps[k] == rs[k - 1]);
    } else {
        assert(ps[0] == p);
        assert(ps[k] == rs[k - 1]);
        assert(p.contains(c));
        lemma_pieces_partition(rest);
        assert forall|q: (int, int)| #[trigger] ps[k].contains(q) implies c.0 < q.0 || (c.0 == q.0 && c.1
            < q.1) by {
            assert(rs[k - 1].contains(q));
            assert(rest.contains(q));
            assert(s.contains(q));
        }
    }
}

/// The piece of fill `i`, and which of the piece's fills it is.
spec fn spot(
    ps: Seq<Cells>,
    w: int,
    h: int,
    dx: int,
    dy: int,
    i: int,
) -> (int, int)
    decreases ps.len(),
{
    if ps.len() == 0 {
        (0, 0)
    } else {
        let before = round_fills(ps.drop_last(), w, h, dx, dy, 0, false).len();
        if i < before {
            spot(ps.drop_last(), w, h, dx, dy, i)
        } else {
            (ps.len() - 1, i - before)
        }
    }
}

/// How many fills there are does not depend on the masks.
proof fn lemma_count(
    ps: Seq<Cells>,
    w: int,
    h: int,
    dx: int,
    dy: int,
    num_masks: u32,
    needs_opc: bool,
)
    ensures
        round_fills(ps, w, h, dx, dy, num_masks, needs_opc).len() == round_fills(
            ps,
            w,
            h,
            dx,
            dy,
            0,
            false,
        ).len(),
    decreases ps.len(),
{
    if ps.len() > 0 {
        lemma_count(ps.drop_last(), w, h, dx, dy, num_masks, needs_opc);
    }
}

/// Each fill is where its spot says, and the next one is the next of the same piece or the first of a
/// later one.
proof fn lemma_spots(
    ps: Seq<Cells>,
    w: int,
    h: int,
    dx: int,
    dy: int,
    num_masks: u32,
    needs_opc: bool,
    i: int,
)
    requires
        0 <= i < round_fills(ps, w, h, dx, dy, num_masks, needs_opc).len(),
    ensures
        ({
            let f = round_fills(ps, w, h, dx, dy, num_masks, needs_opc);
            let (j, k) = spot(ps, w, h, dx, dy, i);
            let fills = numbered(piece_tiles(ps[j], w, h, dx, dy), num_masks, needs_opc);
            &&& 0 <= j < ps.len()
            &&& 0 <= k < fills.len()
            &&& k <= i
            &&& f[i] == fills[k]
            &&& i + 1 < f.len() ==> {
                let (j2, k2) = spot(ps, w, h, dx, dy, i + 1);
                (j2 == j && k2 == k + 1) || (j2 > j && k2 == 0)
            }
        }),
    decreases ps.len(),
{
    let f = round_fills(ps, w, h, dx, dy, num_masks, needs_opc);
    let less = ps.drop_last();
    let a = round_fills(less, w, h, dx, dy, num_masks, needs_opc);
    let b = numbered(piece_tiles(ps.last(), w, h, dx, dy), num_masks, needs_opc);
    assert(f == a + b);
    lemma_count(less, w, h, dx, dy, num_masks, needs_opc);
    if i < a.len() {
        lemma_spots(less, w, h, dx, dy, num_masks, needs_opc, i);
        let (j, k) = spot(less, w, h, dx, dy, i);
        assert(ps[j] == less[j]);
    } else {
        assert(ps[ps.len() - 1] == ps.last());
    }
}

/// The cell in the lower left corner of a fill.
pub open spec fn corner(f: Fill) -> (int, int) {
    (f.rect.x0 as int, f.rect.y0 as int)
}

/// The first mask: the first of several, and none where there is only one.
pub open spec fn first_mask(num_masks: u32) -> int {
    if num_masks > 1 {
        1
    } else {
        0
    }
}

/// The mask after another, which is the first again after the last.
pub open spec fn mask_after(mask: u32, num_masks: u32) -> int {
    if num_masks > 1 && mask < num_masks {
        mask + 1
    } else {
        first_mask(num_masks)
    }
}

/// The fills of one size come piece by piece, in the order of the pieces' first cells, and in each
/// piece row by row from the bottom, each row from the left. In each piece the masks cycle from the
/// first one. (So many fills that counting them takes more than 32 bits start the masks over.)
pub proof fn law_order_and_masks(
    area: Cells,
    is_horiz: bool,
    cfg: ShapeView,
    shape: (i32, i32),
    num_masks: u32,
    needs_opc: bool,
    i: int,
)
    requires
        bounded(area),
        cfg.shapes == seq![shape],
        shape.0 > 0,
        shape.1 > 0,
        0 <= i < area_fills(area, is_horiz, cfg, num_masks, needs_opc).len(),
        area_fills(area, is_horiz, cfg, num_masks, needs_opc).len() < 0x1_0000_0000,
    ensures
        ({
            let f = area_fills(area, is_horiz, cfg, num_masks, needs_opc);
            let (w, h) = lying(is_horiz, shape);
            let (kx, ky) = clearance(is_horiz, cfg);
            let t = well_apart(wide(area, window(w), window(h)), kx, ky);
            &&& t.contains(corner(f[i]))
            &&& f[0].mask == first_mask(num_masks)
            &&& f[i].needs_opc == needs_opc
            &&& i + 1 < f.len() ==> if connected(t, corner(f[i]), corner(f[i + 1])) {
                &&& f[i].rect.y0 < f[i + 1].rect.y0 || (f[i].rect.y0 == f[i + 1].rect.y0
                    && f[i].rect.x0 < f[i + 1].rect.x0)
                &&& f[i + 1].mask == mask_after(f[i].mask, num_masks)
            } else {
                &&& earlier(piece_of(t, corner(f[i])), piece_of(t, corner(f[i + 1])))
                &&& f[i + 1].mask == first_mask(num_masks)
            }
        }),
{
    let f = area_fills(area, is_horiz, cfg, num_masks, needs_opc);
    let (w, h) = lying(is_horiz, shape);
    let (kx, ky) = clearance(is_horiz, cfg);
    let (dx, dy) = step_gaps(is_horiz, cfg);
    let t = well_apart(wide(area, window(w), window(h)), kx, ky);
    lemma_one_size(area, is_horiz, cfg, shape, num_masks, needs_opc);
    let ps = pieces(t);
    assert(f == round_fills(ps, w, h, dx, dy, num_masks, needs_opc));
    lemma_pieces_partition(t);
    lemma_spots(ps, w, h, dx, dy, num_masks, needs_opc, 0);
    lemma_spots(ps, w, h, dx, dy, num_masks, needs_opc, i);
    let (j, k) = spot(ps, w, h, dx, dy, i);
    lemma_corner(t, j, w, h, dx, dy, k);
    law_masks_cycle(0, num_masks);
    assert(mask_of(0, num_masks) == first_mask(num_masks));
    if i + 1 < f.len() {
        lemma_spots(ps, w, h, dx, dy, num_masks, needs_opc, i + 1);
        let (j2, k2) = spot(ps, w, h, dx, dy, i + 1);
        lemma_corner(t, j2, w, h, dx, dy, k2);
        assert(ps[j].contains(corner(f[i])) && ps[j2].contains(corner(f[i + 1])));
        assert(connected(t, corner(f[i]), corner(f[i + 1])) <==> j == j2);
        if j == j2 {
            let tiles = piece_tiles(ps[j], w, h, dx, dy);
            lemma_piece_bounded(t, j);
            law_piece_tiles(ps[j], w, h, dx, dy);
            assert(tiles[k] == f[i].rect && tiles[k + 1] == f[i + 1].rect);
            assert((k + 1) % 0x1_0000_0000 == k + 1);
            law_masks_cycle(k, num_masks);
        } else {
            law_pieces_in_order(t, j, j2);
            lemma_its_piece(t, j, corner(f[i]));
            lemma_its_piece(t, j2, corner(f[i + 1]));
        }
    }
}

/// A piece of a bounded area is bounded.
proof fn lemma_piece_bounded(t: Cells, j: int)
    requires
        bounded(t),
        0 <= j < pieces(t).len(),
    ensures
        bounded(pieces(t)[j]),
{
    lemma_pieces_partition(t);
    assert(pieces(t)[j].finite());
}

/// A piece is the piece around each of its cells.
proof fn lemma_its_piece(t: Cells, j: int, c: (int, int))
    requires
        t.finite(),
        0 <= j < pieces(t).len(),
        pieces(t)[j].contains(c),
    ensures
        pieces(t)[j] == piece_of(t, c),
{
    let ps = pieces(t);
    lemma_pieces_partition(t);
    assert forall|q: (int, int)| ps[j].contains(q) <==> piece_of(t, c).contains(q) by {
        if connected(t, c, q) {
            let m = choose|m: int| 0 <= m < ps.len() && #[trigger] ps[m].contains(q);
            assert(ps[m].contains(q));
        }
    }
    assert(ps[j] =~= piece_of(t, c));
}

/// A tile's corner is in its piece.
proof fn lemma_corner(t: Cells, j: int, w: int, h: int, dx: int, dy: int, k: int)
    requires
        bounded(t),
        w > 0,
        h > 0,
        0 <= j < pieces(t).len(),
        0 <= k < piece_tiles(pieces(t)[j], w, h, dx, dy).len(),
    ensures
        ({
            let r = piece_tiles(pieces(t)[j], w, h, dx, dy)[k];
            pieces(t)[j].contains((r.x0 as int, r.y0 as int))
        }),
        ({
            let r = piece_tiles(pieces(t)[j], w, h, dx, dy)[k];
            t.contains((r.x0 as int, r.y0 as int))
        }),
{
    let p = pieces(t)[j];
    lemma_piece_bounded(t, j);
    lemma_pieces_partition(t);
    law_piece_tiles(p, w, h, dx, dy);
    let r = piece_tiles(p, w, h, dx, dy)[k];
    assert(r.cells().contains((r.x0 as int, r.y0 as int)));
}

} // verus!
