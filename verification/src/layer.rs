//! Planning the fill of one layer: the non-OPC pass, then the OPC pass over what is left.

use vstd::prelude::*;

use crate::cells::{grown, Cells};
use crate::config::{LayerCfg, LayerView};
use crate::fill::{area_fills, fill_area, fill_rects, kept, kept_gap, rects_of, Fill};
use crate::rects::covered;
use crate::region::Region;

verus! {

/// The cells of `bounds` with no cell of the design within `gap`, nor of the design itself.
pub open spec fn free_area(bounds: Cells, occupied: Cells, gap: int) -> Cells {
    bounds.difference(grown(occupied, kept(gap), kept(gap)))
}

/// The non-OPC fills of a layer.
pub open spec fn non_opc_fills(
    bounds: Cells,
    occupied: Cells,
    cfg: LayerView,
    is_horiz: bool,
) -> Seq<Fill> {
    area_fills(
        free_area(bounds, occupied, cfg.non_opc.space_to_non_fill as int),
        is_horiz,
        cfg.non_opc,
        cfg.num_masks,
        false,
    )
}

/// What the OPC pass fills: clear of the design and of the non-OPC fills `placed`.
pub open spec fn opc_area(
    bounds: Cells,
    occupied: Cells,
    cfg: LayerView,
    placed: Seq<Fill>,
) -> Cells {
    let gap = kept(cfg.non_opc.space_to_fill as int);
    free_area(bounds, occupied, cfg.opc.space_to_non_fill as int).difference(
        grown(covered(fill_rects(placed)), gap, gap),
    )
}

/// The OPC fills of a layer; none where the rules state no OPC section.
pub open spec fn opc_fills(
    bounds: Cells,
    occupied: Cells,
    cfg: LayerView,
    is_horiz: bool,
) -> Seq<Fill> {
    if cfg.has_opc {
        let placed = non_opc_fills(bounds, occupied, cfg, is_horiz);
        area_fills(
            opc_area(bounds, occupied, cfg, placed),
            is_horiz,
            cfg.opc,
            cfg.num_masks,
            true,
        )
    } else {
        Seq::empty()
    }
}

/// The fills of a layer: the non-OPC fills, then the OPC fills.
pub open spec fn layer_fills(
    bounds: Cells,
    occupied: Cells,
    cfg: LayerView,
    is_horiz: bool,
) -> Seq<Fill> {
    non_opc_fills(bounds, occupied, cfg, is_horiz) + opc_fills(bounds, occupied, cfg, is_horiz)
}

/// The fill for one layer: the non-OPC pass, then the OPC pass over what is left.
pub fn plan_layer(bounds: &Region, occupied: &Region, cfg: &LayerCfg, is_horiz: bool) -> (out: Vec<
    Fill,
>)
    ensures
        out@ == layer_fills(bounds@, occupied@, cfg@, is_horiz),
{
    // The area is the bounds minus the design, bloated by the fill-to-design spacing.
    let s = kept_gap(cfg.non_opc.space_to_non_fill);
    let area = bounds.difference(&occupied.bloat(s, s));
    let mut out = fill_area(&area, is_horiz, &cfg.non_opc, cfg.num_masks, false);
    if cfg.has_opc {
        // OPC fill must clear the design and the fill just placed.
        let so = kept_gap(cfg.opc.space_to_non_fill);
        let placed = Region::from_rects(rects_of(&out).as_slice());
        let sf = kept_gap(cfg.non_opc.space_to_fill);
        let opc_area = bounds.difference(&occupied.bloat(so, so)).difference(
            &placed.bloat(sf, sf),
        );
        let mut more = fill_area(&opc_area, is_horiz, &cfg.opc, cfg.num_masks, true);
        out.append(&mut more);
    }
    assert(out@ =~= layer_fills(bounds@, occupied@, cfg@, is_horiz));
    out
}

} // verus!
