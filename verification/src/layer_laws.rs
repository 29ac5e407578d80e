//! What holds of every layer's fill.

use vstd::prelude::*;

use crate::area_laws::{fill_cells, lemma_fill_cells};
use crate::cells::{grown, near, Cells};
use crate::config::{LayerView, ShapeView};
use crate::fill::{area_fills, fill_rects, gaps, kept, Fill};
use crate::fill_laws::{
    apart, bounded, declared, lemma_apart, lemma_fills_in, mask_allowed, parts_keep_gaps,
};
use crate::geometry::Rect;
use crate::layer::{free_area, layer_fills, non_opc_fills, opc_area, opc_fills};
use crate::rects::covered;

verus! {

/// The area of each pass is bounded.
pub proof fn lemma_areas(bounds: Cells, occupied: Cells, cfg: LayerView, placed: Seq<Fill>)
    requires
        bounded(bounds),
    ensures
        bounded(free_area(bounds, occupied, cfg.non_opc.space_to_non_fill as int)),
        bounded(free_area(bounds, occupied, cfg.opc.space_to_non_fill as int)),
        bounded(opc_area(bounds, occupied, cfg, placed)),
{
    let a = free_area(bounds, occupied, cfg.non_opc.space_to_non_fill as int);
    let b = free_area(bounds, occupied, cfg.opc.space_to_non_fill as int);
    let c = opc_area(bounds, occupied, cfg, placed);
    vstd::set_lib::lemma_set_subset_finite(bounds, a);
    vstd::set_lib::lemma_set_subset_finite(bounds, b);
    vstd::set_lib::lemma_set_subset_finite(bounds, c);
}

/// What each pass places.
pub proof fn lemma_passes(bounds: Cells, occupied: Cells, cfg: LayerView, is_horiz: bool)
    requires
        bounded(bounds),
    ensures
        ({
            let a = non_opc_fills(bounds, occupied, cfg, is_horiz);
            let b = opc_fills(bounds, occupied, cfg, is_horiz);
            let gap = cfg.non_opc.space_to_non_fill as int;
            &&& forall|i: int|
                0 <= i < a.len() ==> declared(
                    (#[trigger] a[i]).rect,
                    is_horiz,
                    cfg.non_opc.shapes,
                ) && a[i].rect.cells().subset_of(free_area(bounds, occupied, gap))
                    && mask_allowed(a[i].mask, cfg.num_masks) && !a[i].needs_opc
            &&& forall|i: int|
                0 <= i < b.len() ==> declared((#[trigger] b[i]).rect, is_horiz, cfg.opc.shapes)
                    && b[i].rect.cells().subset_of(opc_area(bounds, occupied, cfg, a))
                    && mask_allowed(b[i].mask, cfg.num_masks) && b[i].needs_opc && cfg.has_opc
            &&& forall|i: int, j: int|
                0 <= i < j < a.len() ==> apart((#[trigger] a[i]).rect, (#[trigger] a[j]).rect, 0, 0)
            &&& forall|i: int, j: int|
                0 <= i < j < b.len() ==> apart((#[trigger] b[i]).rect, (#[trigger] b[j]).rect, 0, 0)
        }),
{
    let a = non_opc_fills(bounds, occupied, cfg, is_horiz);
    lemma_areas(bounds, occupied, cfg, a);
    let (dx, dy) = gaps(is_horiz, cfg.non_opc);
    lemma_fills_in(
        free_area(bounds, occupied, cfg.non_opc.space_to_non_fill as int),
        cfg.non_opc.shapes,
        is_horiz,
        dx as int,
        dy as int,
        cfg.num_masks,
        false,
    );
    if cfg.has_opc {
        let (dx, dy) = gaps(is_horiz, cfg.opc);
        lemma_fills_in(
            opc_area(bounds, occupied, cfg, a),
            cfg.opc.shapes,
            is_horiz,
            dx as int,
            dy as int,
            cfg.num_masks,
            true,
        );
    }
}

/// Nothing in the free area is within the gap of the design.
proof fn lemma_clear(bounds: Cells, occupied: Cells, gap: int, r: Rect, metal: Rect)
    requires
        bounded(bounds),
        !r.empty(),
        !metal.empty(),
        r.cells().subset_of(free_area(bounds, occupied, gap)),
        metal.cells().subset_of(occupied),
    ensures
        apart(r, metal, kept(gap), kept(gap)),
{
    assert forall|p: (int, int), q: (int, int)|
        r.covers(p) && metal.covers(q) implies !#[trigger] near(p, q, kept(gap), kept(gap)) by {
        assert(r.cells().contains(p) && metal.cells().contains(q));
        assert(bounds.contains(p) && occupied.contains(q));
        if near(p, q, kept(gap), kept(gap)) {
            assert(grown(occupied, kept(gap), kept(gap)).contains(p));
        }
    }
    lemma_apart(r, metal, kept(gap), kept(gap));
}

/// Every fill keeps clear of every rectangle of the design by the spacing of its pass.
pub proof fn law_clear_of_design(
    bounds: Cells,
    occupied: Cells,
    cfg: LayerView,
    is_horiz: bool,
    metal: Rect,
)
    requires
        bounded(bounds),
        !metal.empty(),
        metal.cells().subset_of(occupied),
    ensures
        ({
            let f = layer_fills(bounds, occupied, cfg, is_horiz);
            forall|i: int|
                0 <= i < f.len() ==> {
                    let gap = if (#[trigger] f[i]).needs_opc {
                        cfg.opc.space_to_non_fill as int
                    } else {
                        cfg.non_opc.space_to_non_fill as int
                    };
                    apart(f[i].rect, metal, kept(gap), kept(gap))
                }
        }),
{
    lemma_passes(bounds, occupied, cfg, is_horiz);
    let a = non_opc_fills(bounds, occupied, cfg, is_horiz);
    let b = opc_fills(bounds, occupied, cfg, is_horiz);
    let f = layer_fills(bounds, occupied, cfg, is_horiz);
    let n = a.len() as int;
    assert forall|i: int| 0 <= i < f.len() implies {
        let gap = if (#[trigger] f[i]).needs_opc {
            cfg.opc.space_to_non_fill as int
        } else {
            cfg.non_opc.space_to_non_fill as int
        };
        apart(f[i].rect, metal, kept(gap), kept(gap))
    } by {
        if i < n {
            assert(f[i] == a[i]);
            let gap = cfg.non_opc.space_to_non_fill as int;
            lemma_clear(bounds, occupied, gap, a[i].rect, metal);
        } else {
            assert(f[i] == b[i - n]);
            let gap = cfg.opc.space_to_non_fill as int;
            let area = opc_area(bounds, occupied, cfg, a);
            assert(area.subset_of(free_area(bounds, occupied, gap)));
            lemma_clear(bounds, occupied, gap, b[i - n].rect, metal);
        }
    }
}

/// OPC fill clears the non-OPC fill already placed, by the non-OPC spacing between fills.
pub proof fn law_opc_clears_non_opc(
    bounds: Cells,
    occupied: Cells,
    cfg: LayerView,
    is_horiz: bool,
)
    requires
        bounded(bounds),
    ensures
        ({
            let f = layer_fills(bounds, occupied, cfg, is_horiz);
            let gap = kept(cfg.non_opc.space_to_fill as int);
            forall|i: int, j: int|
                0 <= i < f.len() && 0 <= j < f.len() && !(#[trigger] f[i]).needs_opc
                    && (#[trigger] f[j]).needs_opc ==> apart(f[i].rect, f[j].rect, gap, gap)
        }),
{
    lemma_passes(bounds, occupied, cfg, is_horiz);
    let a = non_opc_fills(bounds, occupied, cfg, is_horiz);
    let b = opc_fills(bounds, occupied, cfg, is_horiz);
    let f = layer_fills(bounds, occupied, cfg, is_horiz);
    let n = a.len() as int;
    let gap = kept(cfg.non_opc.space_to_fill as int);
    assert forall|i: int, j: int|
        0 <= i < f.len() && 0 <= j < f.len() && !(#[trigger] f[i]).needs_opc && (
        #[trigger] f[j]).needs_opc implies apart(f[i].rect, f[j].rect, gap, gap) by {
        if i >= n {
            assert(f[i] == b[i - n]);
        }
        if j < n {
            assert(f[j] == a[j]);
        }
        assert(f[i] == a[i] && f[j] == b[j - n]);
        lemma_clear_of_placed(bounds, occupied, cfg, a, i, b[j - n].rect);
    }
}

/// Nothing in the OPC area is within the fill gap of a non-OPC fill.
proof fn lemma_clear_of_placed(
    bounds: Cells,
    occupied: Cells,
    cfg: LayerView,
    placed: Seq<Fill>,
    i: int,
    r: Rect,
)
    requires
        bounded(bounds),
        0 <= i < placed.len(),
        !placed[i].rect.empty(),
        !r.empty(),
        r.cells().subset_of(opc_area(bounds, occupied, cfg, placed)),
    ensures
        apart(
            placed[i].rect,
            r,
            kept(cfg.non_opc.space_to_fill as int),
            kept(cfg.non_opc.space_to_fill as int),
        ),
{
    let gap = kept(cfg.non_opc.space_to_fill as int);
    let a = placed[i].rect;
    let taken = covered(fill_rects(placed));
    assert forall|p: (int, int), q: (int, int)| a.covers(p) && r.covers(q) implies !#[trigger] near(
        p,
        q,
        gap,
        gap,
    ) by {
        assert(fill_rects(placed)[i].covers(p));
        assert(taken.contains(p));
        assert(r.cells().contains(q));
        assert(bounds.contains(q));
        if near(p, q, gap, gap) {
            assert(near(q, p, gap, gap));
            assert(grown(taken, gap, gap).contains(q));
        }
    }
    lemma_apart(a, r, gap, gap);
}

/// No two fills on a layer overlap, and every one lies in the bounds, is a whole shape of a size
/// that its pass declares, and has one of the layer's masks, or none on a single-mask layer.
pub proof fn law_layer_fills(bounds: Cells, occupied: Cells, cfg: LayerView, is_horiz: bool)
    requires
        bounded(bounds),
    ensures
        ({
            let f = layer_fills(bounds, occupied, cfg, is_horiz);
            &&& forall|i: int, j: int|
                0 <= i < j < f.len() ==> apart((#[trigger] f[i]).rect, (#[trigger] f[j]).rect, 0, 0)
            &&& forall|i: int|
                0 <= i < f.len() ==> (#[trigger] f[i]).rect.cells().subset_of(bounds) && declared(
                    f[i].rect,
                    is_horiz,
                    if f[i].needs_opc {
                        cfg.opc.shapes
                    } else {
                        cfg.non_opc.shapes
                    },
                ) && mask_allowed(f[i].mask, cfg.num_masks) && (f[i].needs_opc ==> cfg.has_opc)
        }),
{
    lemma_passes(bounds, occupied, cfg, is_horiz);
    let a = non_opc_fills(bounds, occupied, cfg, is_horiz);
    let b = opc_fills(bounds, occupied, cfg, is_horiz);
    let f = layer_fills(bounds, occupied, cfg, is_horiz);
    let n = a.len() as int;
    assert forall|i: int, j: int| 0 <= i < j < f.len() implies apart(
        (#[trigger] f[i]).rect,
        (#[trigger] f[j]).rect,
        0,
        0,
    ) by {
        if j < n {
            assert(f[i] == a[i] && f[j] == a[j]);
        } else if i < n {
            assert(f[i] == a[i] && f[j] == b[j - n]);
            lemma_clear_of_placed(bounds, occupied, cfg, a, i, b[j - n].rect);
        } else {
            assert(f[i] == b[i - n] && f[j] == b[j - n]);
        }
    }
    assert forall|i: int| 0 <= i < f.len() implies (#[trigger] f[i]).rect.cells().subset_of(bounds)
        && declared(
        f[i].rect,
        is_horiz,
        if f[i].needs_opc {
            cfg.opc.shapes
        } else {
            cfg.non_opc.shapes
        },
    ) && mask_allowed(f[i].mask, cfg.num_masks) && (f[i].needs_opc ==> cfg.has_opc) by {
        if i < n {
            assert(f[i] == a[i]);
            let area = free_area(bounds, occupied, cfg.non_opc.space_to_non_fill as int);
            assert(area.subset_of(bounds));
        } else {
            assert(f[i] == b[i - n]);
            assert(opc_area(bounds, occupied, cfg, a).subset_of(bounds));
        }
    }
}

/// Whether, in the pass over `area`, the fills of the parts of a piece that pruning cut keep the gaps.
pub open spec fn pass_keeps_gaps(
    area: Cells,
    is_horiz: bool,
    cfg: ShapeView,
    num_masks: u32,
    needs_opc: bool,
) -> bool {
    let (dx, dy) = gaps(is_horiz, cfg);
    parts_keep_gaps(area, cfg.shapes, is_horiz, dx as int, dy as int, num_masks, needs_opc)
}

/// Whether any two of the fills are apart by the gaps of the rules.
pub open spec fn spaced(fills: Seq<Fill>, is_horiz: bool, cfg: ShapeView) -> bool {
    let (dx, dy) = gaps(is_horiz, cfg);
    forall|i: int, j: int|
        0 <= i < j < fills.len() ==> apart(
            (#[trigger] fills[i]).rect,
            (#[trigger] fills[j]).rect,
            kept(dx as int),
            kept(dy as int),
        )
}

/// The rules of the pass that a fill belongs to.
pub open spec fn pass_of(cfg: LayerView, needs_opc: bool) -> ShapeView {
    if needs_opc {
        cfg.opc
    } else {
        cfg.non_opc
    }
}

/// Whether any two fills of the same pass are apart by the gaps of its rules.
pub open spec fn passes_spaced(fills: Seq<Fill>, is_horiz: bool, cfg: LayerView) -> bool {
    forall|i: int, j: int|
        0 <= i < j < fills.len() && (#[trigger] fills[i]).needs_opc == (
        #[trigger] fills[j]).needs_opc ==> pair_spaced(
            fills[i],
            fills[j],
            is_horiz,
            pass_of(cfg, fills[i].needs_opc),
        )
}

/// Whether two fills are apart by the gaps of the rules.
pub open spec fn pair_spaced(a: Fill, b: Fill, is_horiz: bool, cfg: ShapeView) -> bool {
    let (dx, dy) = gaps(is_horiz, cfg);
    apart(a.rect, b.rect, kept(dx as int), kept(dy as int))
}

/// Whether both passes over a layer keep the gaps between the parts of cut pieces.
pub open spec fn layer_keeps_gaps(
    bounds: Cells,
    occupied: Cells,
    cfg: LayerView,
    is_horiz: bool,
) -> bool {
    &&& pass_keeps_gaps(
        free_area(bounds, occupied, cfg.non_opc.space_to_non_fill as int),
        is_horiz,
        cfg.non_opc,
        cfg.num_masks,
        false,
    )
    &&& cfg.has_opc ==> pass_keeps_gaps(
        opc_area(bounds, occupied, cfg, non_opc_fills(bounds, occupied, cfg, is_horiz)),
        is_horiz,
        cfg.opc,
        cfg.num_masks,
        true,
    )
}

/// Two fills of a layer's pass are never closer than the spacing of the pass, unless pruning cut
/// their piece in two and the two parts' own fills are.
pub proof fn law_layer_spacing(bounds: Cells, occupied: Cells, cfg: LayerView, is_horiz: bool)
    requires
        bounded(bounds),
    ensures
        pass_keeps_gaps(
            free_area(bounds, occupied, cfg.non_opc.space_to_non_fill as int),
            is_horiz,
            cfg.non_opc,
            cfg.num_masks,
            false,
        ) ==> spaced(non_opc_fills(bounds, occupied, cfg, is_horiz), is_horiz, cfg.non_opc),
        pass_keeps_gaps(
            opc_area(bounds, occupied, cfg, non_opc_fills(bounds, occupied, cfg, is_horiz)),
            is_horiz,
            cfg.opc,
            cfg.num_masks,
            true,
        ) ==> spaced(opc_fills(bounds, occupied, cfg, is_horiz), is_horiz, cfg.opc),
        layer_keeps_gaps(bounds, occupied, cfg, is_horiz) ==> passes_spaced(
            layer_fills(bounds, occupied, cfg, is_horiz),
            is_horiz,
            cfg,
        ),
{
    let placed = non_opc_fills(bounds, occupied, cfg, is_horiz);
    lemma_areas(bounds, occupied, cfg, placed);
    let (dx, dy) = gaps(is_horiz, cfg.non_opc);
    lemma_fills_in(
        free_area(bounds, occupied, cfg.non_opc.space_to_non_fill as int),
        cfg.non_opc.shapes,
        is_horiz,
        dx as int,
        dy as int,
        cfg.num_masks,
        false,
    );
    let (ox, oy) = gaps(is_horiz, cfg.opc);
    lemma_fills_in(
        opc_area(bounds, occupied, cfg, placed),
        cfg.opc.shapes,
        is_horiz,
        ox as int,
        oy as int,
        cfg.num_masks,
        true,
    );
    if layer_keeps_gaps(bounds, occupied, cfg, is_horiz) {
        lemma_passes(bounds, occupied, cfg, is_horiz);
        let more = opc_fills(bounds, occupied, cfg, is_horiz);
        let f = layer_fills(bounds, occupied, cfg, is_horiz);
        let n = placed.len() as int;
        assert forall|i: int, j: int|
            0 <= i < j < f.len() && (#[trigger] f[i]).needs_opc == (
            #[trigger] f[j]).needs_opc implies pair_spaced(
            f[i],
            f[j],
            is_horiz,
            pass_of(cfg, f[i].needs_opc),
        ) by {
            if j < n {
                assert(f[i] == placed[i] && f[j] == placed[j]);
            } else if i < n {
                assert(f[i] == placed[i] && f[j] == more[j - n]);
            } else {
                assert(f[i] == more[i - n] && f[j] == more[j - n]);
            }
        }
    }
}

/// The cells of `bounds` from which no cell of `s` is within `gap` columns and `gap` rows; a negative
/// gap asks for none, which still leaves out `s` itself.
pub open spec fn clear_of(bounds: Cells, s: Cells, gap: i32) -> Cells {
    Set::new(
        |p: (int, int)|
            bounds.contains(p) && forall|q: (int, int)| #[trigger]
                s.contains(q) ==> p != q && (p.0 - q.0 > gap || q.0 - p.0 > gap || p.1 - q.1 > gap
                    || q.1 - p.1 > gap),
    )
}

/// What is clear of a region is what is left without the grown region.
proof fn lemma_clear_of(bounds: Cells, s: Cells, gap: i32)
    requires
        bounded(bounds),
    ensures
        bounds.difference(grown(s, kept(gap as int), kept(gap as int))) == clear_of(bounds, s, gap),
{
    let k = kept(gap as int);
    let a = bounds.difference(grown(s, k, k));
    let b = clear_of(bounds, s, gap);
    assert forall|p: (int, int)| a.contains(p) <==> b.contains(p) by {
        if a.contains(p) {
            assert forall|q: (int, int)| #[trigger] s.contains(q) implies p != q && (p.0 - q.0 > gap
                || q.0 - p.0 > gap || p.1 - q.1 > gap || q.1 - p.1 > gap) by {
                assert(!near(p, q, k, k));
            }
        }
        if b.contains(p) && grown(s, k, k).contains(p) {
            let q = choose|q: (int, int)| s.contains(q) && near(p, q, k, k);
            assert(s.contains(q));
            assert(gap < 0 ==> p.0 == q.0 && p.1 == q.1);
        }
    }
    assert(a =~= b);
}

/// The fills that need OPC, or those that do not, in their order.
pub open spec fn flagged(fills: Seq<Fill>, needs_opc: bool) -> Seq<Fill>
    decreases fills.len(),
{
    if fills.len() == 0 {
        Seq::empty()
    } else if fills.last().needs_opc == needs_opc {
        flagged(fills.drop_last(), needs_opc).push(fills.last())
    } else {
        flagged(fills.drop_last(), needs_opc)
    }
}

/// Each pass of a layer fills an area of its own, in either routing direction. The first fills what is
/// clear of the design by the non-OPC spacing to it. The second, where the rules have an OPC section
/// and only there, fills what is clear of the design by the OPC spacing to it and clear of the first
/// fills by the non-OPC fill spacing. Its fills follow the first ones, and they alone need OPC.
pub proof fn law_two_passes(bounds: Cells, occupied: Cells, cfg: LayerView, is_horiz: bool)
    requires
        bounded(bounds),
    ensures
        ({
            let all = layer_fills(bounds, occupied, cfg, is_horiz);
            let plain = area_fills(
                clear_of(bounds, occupied, cfg.non_opc.space_to_non_fill),
                is_horiz,
                cfg.non_opc,
                cfg.num_masks,
                false,
            );
            let left = clear_of(
                clear_of(bounds, occupied, cfg.opc.space_to_non_fill),
                fill_cells(plain),
                cfg.non_opc.space_to_fill,
            );
            let corrected = area_fills(left, is_horiz, cfg.opc, cfg.num_masks, true);
            &&& all == if cfg.has_opc {
                plain + corrected
            } else {
                plain
            }
            &&& flagged(all, false) == plain
            &&& flagged(all, true) == if cfg.has_opc {
                corrected
            } else {
                Seq::empty()
            }
        }),
{
    let all = layer_fills(bounds, occupied, cfg, is_horiz);
    let a = non_opc_fills(bounds, occupied, cfg, is_horiz);
    let b = opc_fills(bounds, occupied, cfg, is_horiz);
    lemma_clear_of(bounds, occupied, cfg.non_opc.space_to_non_fill);
    lemma_clear_of(bounds, occupied, cfg.opc.space_to_non_fill);
    lemma_areas(bounds, occupied, cfg, a);
    lemma_clear_of(
        clear_of(bounds, occupied, cfg.opc.space_to_non_fill),
        fill_cells(a),
        cfg.non_opc.space_to_fill,
    );
    lemma_fill_cells(a);
    lemma_passes(bounds, occupied, cfg, is_horiz);
    if !cfg.has_opc {
        assert(all =~= a);
    }
    lemma_told_apart(a, b);
}

/// Fills of one kind followed by fills of the other are told apart by their flag.
pub proof fn lemma_told_apart(a: Seq<Fill>, b: Seq<Fill>)
    requires
        forall|i: int| 0 <= i < a.len() ==> !(#[trigger] a[i]).needs_opc,
        forall|i: int| 0 <= i < b.len() ==> (#[trigger] b[i]).needs_opc,
    ensures
        flagged(a + b, false) == a,
        flagged(a + b, true) == b,
    decreases a.len() + b.len(),
{
    let c = a + b;
    if b.len() > 0 {
        let d = b.drop_last();
        lemma_told_apart(a, d);
        assert(c.drop_last() =~= a + d);
        assert(c.last() == b.last());
        assert(b =~= d.push(b.last()));
    } else if a.len() > 0 {
        let d = a.drop_last();
        lemma_told_apart(d, b);
        assert(c.drop_last() =~= d + b);
        assert(c.last() == a.last());
        assert(a =~= d.push(a.last()));
    } else {
        assert(flagged(c, false) =~= a);
        assert(flagged(c, true) =~= b);
    }
}

} // verus!
