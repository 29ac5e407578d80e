//! What holds of every design's fill.

use vstd::prelude::*;

use crate::cells::Cells;
use crate::config::LayerView;
use crate::design::{
    fills_on, first_lacking, is_first_lacking, lacking, lemma_first_lacking, metal_on, plan_of, under,
    LayerInfoView, Metal,
};
use crate::fill::{kept, Fill};
use crate::fill_laws::{apart, bounded, declared, mask_allowed};
use crate::geometry::Rect;
use crate::layer::layer_fills;
use crate::layer_laws::{
    law_clear_of_design, law_layer_fills, law_layer_spacing, layer_keeps_gaps, pair_spaced, pass_of,
};
use crate::rects::{covered, lemma_rect_finite};
use crate::text::{before, lemma_before};

verus! {

/// Whether a layer of this name stands at position `i`.
pub open spec fn stands(layers: Seq<LayerInfoView>, i: int, name: Seq<char>) -> bool {
    0 <= i < layers.len() && layers[i].name == name
}

/// Whether `fill` is one of those of layer `i`.
pub open spec fn fill_of(
    bounds: Cells,
    metal: Seq<Metal>,
    layers: Seq<LayerInfoView>,
    i: int,
    rules: Map<Seq<char>, LayerView>,
    fill: Fill,
) -> bool {
    fills_on(bounds, metal, layers[i], rules[layers[i].name]).contains(fill)
}

/// A layer that the rules do not mention is skipped and reported: those are the layers reported, and
/// every fill is one of a layer that the rules mention.
pub proof fn law_skipped_and_reported(
    bounds: Cells,
    metal: Seq<Metal>,
    layers: Seq<LayerInfoView>,
    rules: Map<Seq<char>, LayerView>,
)
    ensures
        ({
            let plan = plan_of(bounds, metal, layers, rules);
            &&& forall|name: Seq<char>| #[trigger]
                plan.skipped.contains(name) <==> !rules.dom().contains(name) && exists|i: int|
                    stands(layers, i, name)
            &&& forall|k: int|
                0 <= k < plan.planned.len() ==> rules.dom().contains(
                    (#[trigger] plan.planned[k]).0,
                ) && exists|i: int|
                    stands(layers, i, plan.planned[k].0) && #[trigger] fill_of(
                        bounds,
                        metal,
                        layers,
                        i,
                        rules,
                        plan.planned[k].1,
                    )
        }),
    decreases layers.len(),
{
    if layers.len() > 0 {
        let rest = layers.drop_last();
        let layer = layers.last();
        let last = layers.len() - 1;
        law_skipped_and_reported(bounds, metal, rest, rules);
        let before = plan_of(bounds, metal, rest, rules);
        let plan = plan_of(bounds, metal, layers, rules);
        assert(stands(layers, last, layer.name));
        assert(forall|i: int, name: Seq<char>| #[trigger]
            stands(rest, i, name) ==> stands(layers, i, name));
        assert forall|name: Seq<char>| #[trigger]
            plan.skipped.contains(name) <==> !rules.dom().contains(name) && exists|i: int|
                stands(layers, i, name) by {
            if plan.skipped.contains(name) {
                let k = choose|k: int| 0 <= k < plan.skipped.len() && plan.skipped[k] == name;
                if k < before.skipped.len() {
                    assert(before.skipped[k] == name);
                    assert(before.skipped.contains(name));
                }
            }
            if !rules.dom().contains(name) && exists|i: int| stands(layers, i, name) {
                let i = choose|i: int| stands(layers, i, name);
                if i < last {
                    assert(stands(rest, i, name));
                    assert(before.skipped.contains(name));
                    let k = choose|k: int|
                        0 <= k < before.skipped.len() && before.skipped[k] == name;
                    assert(plan.skipped[k] == name);
                } else {
                    assert(plan.skipped[before.skipped.len() as int] == name);
                }
            }
        }
        assert forall|k: int| 0 <= k < plan.planned.len() implies rules.dom().contains(
            (#[trigger] plan.planned[k]).0,
        ) && exists|i: int|
            stands(layers, i, plan.planned[k].0) && #[trigger] fill_of(
                bounds,
                metal,
                layers,
                i,
                rules,
                plan.planned[k].1,
            ) by {
            let n = before.planned.len() as int;
            let (name, fill) = plan.planned[k];
            if k < n {
                assert(plan.planned[k] == before.planned[k]);
                let i = choose|i: int|
                    stands(rest, i, name) && #[trigger] fill_of(
                        bounds,
                        metal,
                        rest,
                        i,
                        rules,
                        fill,
                    );
                assert(rest[i] == layers[i]);
                assert(stands(layers, i, name) && fill_of(bounds, metal, layers, i, rules, fill));
            } else {
                let fills = fills_on(bounds, metal, layer, rules[layer.name]);
                assert(fills[k - n] == fill);
                assert(stands(layers, last, name) && fill_of(
                    bounds,
                    metal,
                    layers,
                    last,
                    rules,
                    fill,
                ));
            }
        }
    }
}

/// Whether no two layers have the same name.
pub open spec fn names_differ(layers: Seq<LayerInfoView>) -> bool {
    forall|i: int, j: int|
        0 <= i < j < layers.len() ==> (#[trigger] layers[i]).name != (#[trigger] layers[j]).name
}

/// The gap to the design that the rules set for a fill's pass.
pub open spec fn pass_gap(cfg: LayerView, fill: Fill) -> int {
    if fill.needs_opc {
        kept(cfg.opc.space_to_non_fill as int)
    } else {
        kept(cfg.non_opc.space_to_non_fill as int)
    }
}

/// Whether a fill is as the rules of its layer ask: inside the bounds, a whole shape of a size that
/// its pass declares, on one of the layer's masks or on none, and OPC only where there are OPC
/// rules.
pub open spec fn as_ruled(bounds: Rect, is_horiz: bool, cfg: LayerView, fill: Fill) -> bool {
    &&& fill.rect.cells().subset_of(bounds.cells())
    &&& declared(
        fill.rect,
        is_horiz,
        if fill.needs_opc {
            cfg.opc.shapes
        } else {
            cfg.non_opc.shapes
        },
    )
    &&& mask_allowed(fill.mask, cfg.num_masks)
    &&& fill.needs_opc ==> cfg.has_opc
}

/// Whether a fill keeps clear of all the metal on a layer by the gap of its pass.
pub open spec fn clear_of_metal(
    metal: Seq<Metal>,
    number: i64,
    cfg: LayerView,
    fill: Fill,
) -> bool {
    forall|m: int|
        0 <= m < metal.len() && (#[trigger] metal[m]).layer == number && !metal[m].rect.empty()
            ==> apart(fill.rect, metal[m].rect, pass_gap(cfg, fill), pass_gap(cfg, fill))
}

/// The metal on a layer is among its rectangles.
proof fn lemma_metal_on(metal: Seq<Metal>, m: int)
    requires
        0 <= m < metal.len(),
        !metal[m].rect.empty(),
    ensures
        metal_on(metal, metal[m].layer).contains(metal[m].rect),
    decreases metal.len(),
{
    let rest = metal_on(metal.drop_last(), metal[m].layer);
    let all = metal_on(metal, metal[m].layer);
    if m < metal.len() - 1 {
        assert(metal.drop_last()[m] == metal[m]);
        lemma_metal_on(metal.drop_last(), m);
        let k = choose|k: int| 0 <= k < rest.len() && rest[k] == metal[m].rect;
        assert(all[k] == metal[m].rect);
    } else {
        assert(all[rest.len() as int] == metal[m].rect);
    }
}

/// What holds of the fills of one layer.
proof fn lemma_fills_on(
    bounds: Rect,
    metal: Seq<Metal>,
    layer: LayerInfoView,
    cfg: LayerView,
)
    ensures
        ({
            let fills = fills_on(bounds.cells(), metal, layer, cfg);
            &&& forall|i: int|
                0 <= i < fills.len() ==> as_ruled(
                    bounds,
                    layer.direction == "HORIZONTAL"@,
                    cfg,
                    #[trigger] fills[i],
                ) && clear_of_metal(metal, layer.number, cfg, fills[i])
            &&& forall|i: int, j: int|
                0 <= i < j < fills.len() ==> apart(
                    (#[trigger] fills[i]).rect,
                    (#[trigger] fills[j]).rect,
                    0,
                    0,
                )
        }),
{
    let is_horiz = layer.direction == "HORIZONTAL"@;
    let on = metal_on(metal, layer.number);
    let occupied = covered(on);
    let fills = fills_on(bounds.cells(), metal, layer, cfg);
    lemma_rect_finite(bounds);
    assert(bounded(bounds.cells()));
    law_layer_fills(bounds.cells(), occupied, cfg, is_horiz);
    assert forall|i: int| 0 <= i < fills.len() implies as_ruled(
        bounds,
        is_horiz,
        cfg,
        #[trigger] fills[i],
    ) && clear_of_metal(metal, layer.number, cfg, fills[i]) by {
        assert forall|m: int|
            0 <= m < metal.len() && (#[trigger] metal[m]).layer == layer.number
                && !metal[m].rect.empty() implies apart(
            fills[i].rect,
            metal[m].rect,
            pass_gap(cfg, fills[i]),
            pass_gap(cfg, fills[i]),
        ) by {
            lemma_metal_on(metal, m);
            let k = choose|k: int| 0 <= k < on.len() && on[k] == metal[m].rect;
            assert(metal[m].rect.cells().subset_of(occupied)) by {
                assert forall|p: (int, int)| metal[m].rect.cells().contains(
                    p,
                ) implies occupied.contains(p) by {
                    assert(on[k].covers(p));
                }
            }
            law_clear_of_design(bounds.cells(), occupied, cfg, is_horiz, metal[m].rect);
        }
    }
}

/// Every fill of a design is as the rules of its layer ask and keeps clear of the metal there, and
/// no two fills on a layer overlap.
pub proof fn law_design_fills(
    bounds: Rect,
    metal: Seq<Metal>,
    layers: Seq<LayerInfoView>,
    rules: Map<Seq<char>, LayerView>,
)
    requires
        names_differ(layers),
    ensures
        ({
            let planned = plan_of(bounds.cells(), metal, layers, rules).planned;
            &&& forall|k: int, i: int|
                0 <= k < planned.len() && #[trigger] stands(layers, i, (#[trigger] planned[k]).0)
                    ==> as_ruled(
                    bounds,
                    layers[i].direction == "HORIZONTAL"@,
                    rules[planned[k].0],
                    planned[k].1,
                ) && clear_of_metal(metal, layers[i].number, rules[planned[k].0], planned[k].1)
            &&& forall|k: int, l: int|
                0 <= k < l < planned.len() && (#[trigger] planned[k]).0 == (#[trigger] planned[l]).0
                    ==> apart(planned[k].1.rect, planned[l].1.rect, 0, 0)
        }),
    decreases layers.len(),
{
    let planned = plan_of(bounds.cells(), metal, layers, rules).planned;
    law_skipped_and_reported(bounds.cells(), metal, layers, rules);
    assert forall|k: int, i: int|
        0 <= k < planned.len() && #[trigger] stands(layers, i, (
        #[trigger] planned[k]).0) implies as_ruled(
        bounds,
        layers[i].direction == "HORIZONTAL"@,
        rules[planned[k].0],
        planned[k].1,
    ) && clear_of_metal(metal, layers[i].number, rules[planned[k].0], planned[k].1) by {
        let (name, fill) = planned[k];
        let j = choose|j: int|
            stands(layers, j, name) && #[trigger] fill_of(
                bounds.cells(),
                metal,
                layers,
                j,
                rules,
                fill,
            );
        assert(i == j);
        let fills = fills_on(bounds.cells(), metal, layers[i], rules[name]);
        lemma_fills_on(bounds, metal, layers[i], rules[name]);
        let n = choose|n: int| 0 <= n < fills.len() && fills[n] == fill;
        assert(fills[n] == fill);
    }
    if layers.len() > 0 {
        let rest = layers.drop_last();
        let layer = layers.last();
        let before = plan_of(bounds.cells(), metal, rest, rules).planned;
        let n = before.len() as int;
        law_design_fills(bounds, metal, rest, rules);
        law_skipped_and_reported(bounds.cells(), metal, rest, rules);
        assert forall|k: int, l: int|
            0 <= k < l < planned.len() && (#[trigger] planned[k]).0 == (
            #[trigger] planned[l]).0 implies apart(planned[k].1.rect, planned[l].1.rect, 0, 0) by {
            if k < n {
                assert(planned[k] == before[k]);
            }
            if l < n {
                assert(planned[l] == before[l]);
            } else {
                let cfg = rules[layer.name];
                let fills = fills_on(bounds.cells(), metal, layer, cfg);
                lemma_fills_on(bounds, metal, layer, cfg);
                assert(planned[l] == under(layer.name, fills)[l - n]);
                if k < n {
                    let i = choose|i: int|
                        stands(rest, i, before[k].0) && #[trigger] fill_of(
                            bounds.cells(),
                            metal,
                            rest,
                            i,
                            rules,
                            before[k].1,
                        );
                    assert(layers[i].name == layers[layers.len() - 1].name);
                } else {
                    assert(planned[k] == under(layer.name, fills)[k - n]);
                    assert(planned[k].1 == fills[k - n] && planned[l].1 == fills[l - n]);
                }
            }
        }
    }
}

/// Whether both passes over the layer keep the gaps between the parts of cut pieces.
pub open spec fn design_keeps_gaps(
    bounds: Rect,
    metal: Seq<Metal>,
    layer: LayerInfoView,
    cfg: LayerView,
) -> bool {
    layer_keeps_gaps(
        bounds.cells(),
        covered(metal_on(metal, layer.number)),
        cfg,
        layer.direction == "HORIZONTAL"@,
    )
}

/// Two fills of the same pass on a layer of the design are never closer than the spacing of the pass,
/// unless pruning cut their piece in two and the two parts' own fills are.
pub proof fn law_design_spacing(
    bounds: Rect,
    metal: Seq<Metal>,
    layers: Seq<LayerInfoView>,
    rules: Map<Seq<char>, LayerView>,
)
    requires
        names_differ(layers),
        forall|i: int|
            0 <= i < layers.len() && rules.dom().contains((#[trigger] layers[i]).name)
                ==> design_keeps_gaps(bounds, metal, layers[i], rules[layers[i].name]),
    ensures
        ({
            let planned = plan_of(bounds.cells(), metal, layers, rules).planned;
            forall|i: int, k: int, l: int|
                0 <= k < l < planned.len() && (#[trigger] planned[k]).0 == (
                #[trigger] planned[l]).0 && planned[k].1.needs_opc == planned[l].1.needs_opc
                    && #[trigger] stands(layers, i, planned[k].0) ==> pair_spaced(
                    planned[k].1,
                    planned[l].1,
                    layers[i].direction == "HORIZONTAL"@,
                    pass_of(rules[planned[k].0], planned[k].1.needs_opc),
                )
        }),
    decreases layers.len(),
{
    if layers.len() > 0 {
        let planned = plan_of(bounds.cells(), metal, layers, rules).planned;
        let rest = layers.drop_last();
        let layer = layers.last();
        let last = layers.len() - 1;
        let before = plan_of(bounds.cells(), metal, rest, rules).planned;
        let n = before.len() as int;
        assert forall|i: int| 0 <= i < rest.len() && rules.dom().contains(
            (#[trigger] rest[i]).name,
        ) implies design_keeps_gaps(bounds, metal, rest[i], rules[rest[i].name]) by {
            assert(rest[i] == layers[i]);
        }
        law_design_spacing(bounds, metal, rest, rules);
        law_skipped_and_reported(bounds.cells(), metal, rest, rules);
        assert forall|i: int, k: int, l: int|
            0 <= k < l < planned.len() && (#[trigger] planned[k]).0 == (#[trigger] planned[l]).0
                && planned[k].1.needs_opc == planned[l].1.needs_opc && #[trigger] stands(
                layers,
                i,
                planned[k].0,
            ) implies pair_spaced(
            planned[k].1,
            planned[l].1,
            layers[i].direction == "HORIZONTAL"@,
            pass_of(rules[planned[k].0], planned[k].1.needs_opc),
        ) by {
            if k < n {
                assert(planned[k] == before[k]);
                let m = choose|m: int|
                    stands(rest, m, before[k].0) && #[trigger] fill_of(
                        bounds.cells(),
                        metal,
                        rest,
                        m,
                        rules,
                        before[k].1,
                    );
                assert(stands(layers, m, before[k].0));
                assert(m == i);
                assert(stands(rest, i, before[k].0));
            }
            if l < n {
                assert(planned[l] == before[l]);
            } else {
                let cfg = rules[layer.name];
                let fills = fills_on(bounds.cells(), metal, layer, cfg);
                assert(planned[l] == under(layer.name, fills)[l - n]);
                assert(layers[last].name == planned[l].0);
                assert(stands(layers, last, planned[l].0));
                assert(i == last);
                if k >= n {
                    assert(planned[k] == under(layer.name, fills)[k - n]);
                    assert(design_keeps_gaps(bounds, metal, layers[last], cfg));
                    lemma_rect_finite(bounds);
                    assert(bounded(bounds.cells()));
                    law_layer_spacing(
                        bounds.cells(),
                        covered(metal_on(metal, layer.number)),
                        cfg,
                        layer.direction == "HORIZONTAL"@,
                    );
                    assert(planned[k].1 == fills[k - n] && planned[l].1 == fills[l - n]);
                }
            }
        }
    }
}

/// Finitely many names have a first.
proof fn lemma_least(names: Set<Seq<char>>) -> (least: Seq<char>)
    requires
        names.finite(),
        names.len() > 0,
    ensures
        names.contains(least),
        forall|m: Seq<char>| #[trigger] names.contains(m) ==> m == least || before(least, m),
    decreases names.len(),
{
    let a = names.choose();
    let rest = names.remove(a);
    if rest.len() == 0 {
        assert forall|m: Seq<char>| #[trigger] names.contains(m) implies m == a || before(a, m) by {
            if m != a {
                assert(rest.contains(m));
            }
        }
        a
    } else {
        let n = lemma_least(rest);
        lemma_before(a, n, n);
        let least = if before(a, n) {
            a
        } else {
            n
        };
        assert forall|m: Seq<char>| #[trigger] names.contains(m) implies m == least || before(
            least,
            m,
        ) by {
            if m != a {
                assert(rest.contains(m));
                lemma_before(a, n, m);
            }
        }
        least
    }
}

/// A rule for a layer that the technology lacks is found, whichever it is: the first of them is the
/// one named.
pub proof fn law_lacking_layer_is_found(
    layers: Seq<LayerInfoView>,
    rules: Map<Seq<char>, LayerView>,
)
    requires
        rules.dom().finite(),
    ensures
        first_lacking(layers, rules) is Some <==> exists|m: Seq<char>| lacking(layers, rules, m),
        first_lacking(layers, rules) matches Some(n) ==> is_first_lacking(layers, rules, n),
{
    let all = rules.dom().filter(|m: Seq<char>| lacking(layers, rules, m));
    if exists|m: Seq<char>| lacking(layers, rules, m) {
        let m = choose|m: Seq<char>| lacking(layers, rules, m);
        assert(all.contains(m));
        let least = lemma_least(all);
        assert forall|m: Seq<char>| #[trigger] lacking(layers, rules, m) implies m == least
            || before(least, m) by {
            assert(all.contains(m));
        }
        lemma_first_lacking(layers, rules, least);
    }
    if first_lacking(layers, rules) is Some {
        let n = choose|n: Seq<char>| is_first_lacking(layers, rules, n);
        assert(is_first_lacking(layers, rules, n));
        assert(lacking(layers, rules, n));
    }
}

/// The cells of the metal whose layer has this number.
pub open spec fn metal_cells(metal: Seq<Metal>, number: i64) -> Cells {
    Set::new(
        |p: (int, int)|
            exists|m: int|
                0 <= m < metal.len() && (#[trigger] metal[m]).layer == number
                    && metal[m].rect.covers(p),
    )
}

/// The rectangles on a layer cover the cells of its metal.
proof fn lemma_metal_cells(metal: Seq<Metal>, number: i64)
    ensures
        covered(metal_on(metal, number)) == metal_cells(metal, number),
    decreases metal.len(),
{
    let on = metal_on(metal, number);
    if metal.len() == 0 {
        assert(covered(on) =~= metal_cells(metal, number));
    } else {
        let less = metal.drop_last();
        let before = metal_on(less, number);
        let last = metal.last();
        lemma_metal_cells(less, number);
        assert forall|p: (int, int)| covered(on).contains(p) <==> metal_cells(metal, number).contains(
            p,
        ) by {
            if covered(on).contains(p) {
                let i = choose|i: int| 0 <= i < on.len() && #[trigger] on[i].covers(p);
                if i < before.len() {
                    assert(before[i].covers(p));
                    assert(metal_cells(less, number).contains(p));
                    let m = choose|m: int|
                        0 <= m < less.len() && (#[trigger] less[m]).layer == number
                            && less[m].rect.covers(p);
                    assert(metal[m] == less[m]);
                } else {
                    assert(metal[metal.len() - 1].rect.covers(p));
                }
            }
            if metal_cells(metal, number).contains(p) {
                let m = choose|m: int|
                    0 <= m < metal.len() && (#[trigger] metal[m]).layer == number
                        && metal[m].rect.covers(p);
                if m < less.len() {
                    assert(less[m] == metal[m]);
                    assert(metal_cells(less, number).contains(p));
                    let i = choose|i: int| 0 <= i < before.len() && #[trigger] before[i].covers(p);
                    assert(on[i] == before[i]);
                } else {
                    assert(on[before.len() as int].covers(p));
                }
            }
        }
        assert(covered(on) =~= metal_cells(metal, number));
    }
}

/// Layers are planned one after the other, whatever the others are: the plan of `first` and `rest`
/// is the plan of `first` and then the plan of `rest`, fills and skipped layers alike.
pub proof fn law_layers_in_turn(
    bounds: Cells,
    metal: Seq<Metal>,
    first: Seq<LayerInfoView>,
    rest: Seq<LayerInfoView>,
    rules: Map<Seq<char>, LayerView>,
)
    ensures
        ({
            let a = plan_of(bounds, metal, first, rules);
            let b = plan_of(bounds, metal, rest, rules);
            let both = plan_of(bounds, metal, first + rest, rules);
            &&& both.planned == a.planned + b.planned
            &&& both.skipped == a.skipped + b.skipped
        }),
    decreases rest.len(),
{
    let a = plan_of(bounds, metal, first, rules);
    let b = plan_of(bounds, metal, rest, rules);
    let both = plan_of(bounds, metal, first + rest, rules);
    if rest.len() == 0 {
        assert(first + rest =~= first);
        assert(both.planned =~= a.planned + b.planned);
        assert(both.skipped =~= a.skipped + b.skipped);
    } else {
        law_layers_in_turn(bounds, metal, first, rest.drop_last(), rules);
        assert((first + rest).drop_last() =~= first + rest.drop_last());
        assert((first + rest).last() == rest.last());
        assert(both.planned =~= a.planned + b.planned);
        assert(both.skipped =~= a.skipped + b.skipped);
    }
}

/// A layer by itself: where the rules have it, its fills are those of the layer around the metal with
/// its number, under its name, in their order; where they do not, it is skipped and gets none.
pub proof fn law_one_layer(
    bounds: Cells,
    metal: Seq<Metal>,
    layer: LayerInfoView,
    rules: Map<Seq<char>, LayerView>,
)
    ensures
        ({
            let plan = plan_of(bounds, metal, seq![layer], rules);
            let fills = layer_fills(
                bounds,
                metal_cells(metal, layer.number),
                rules[layer.name],
                layer.direction == "HORIZONTAL"@,
            );
            if rules.dom().contains(layer.name) {
                &&& plan.skipped.len() == 0
                &&& plan.planned.len() == fills.len()
                &&& forall|k: int|
                    0 <= k < fills.len() ==> #[trigger] plan.planned[k] == (layer.name, fills[k])
            } else {
                &&& plan.planned.len() == 0
                &&& plan.skipped == seq![layer.name]
            }
        }),
{
    let one = seq![layer];
    let none = one.drop_last();
    assert(none.len() == 0);
    assert(one.last() == layer);
    let before = plan_of(bounds, metal, none, rules);
    assert(before.planned.len() == 0 && before.skipped.len() == 0);
    lemma_metal_cells(metal, layer.number);
    let plan = plan_of(bounds, metal, one, rules);
    if !rules.dom().contains(layer.name) {
        assert(plan.skipped =~= seq![layer.name]);
    }
}

/// The fills under a name, in their order.
pub open spec fn own(planned: Seq<(Seq<char>, Fill)>, name: Seq<char>) -> Seq<Fill>
    decreases planned.len(),
{
    if planned.len() == 0 {
        Seq::empty()
    } else if planned.last().0 == name {
        own(planned.drop_last(), name).push(planned.last().1)
    } else {
        own(planned.drop_last(), name)
    }
}

/// Whatever is under one name is found under it, and nothing under another.
proof fn lemma_own(before: Seq<(Seq<char>, Fill)>, name: Seq<char>, fills: Seq<Fill>, other: Seq<char>)
    ensures
        own(before + under(name, fills), other) == if name == other {
            own(before, other) + fills
        } else {
            own(before, other)
        },
    decreases fills.len(),
{
    let all = before + under(name, fills);
    if fills.len() == 0 {
        assert(all =~= before);
        assert(own(before, other) + fills =~= own(before, other));
    } else {
        let less = fills.drop_last();
        lemma_own(before, name, less, other);
        assert(all.drop_last() =~= before + under(name, less));
        assert(all.last() == (name, fills.last()));
        assert((own(before, other) + less).push(fills.last()) =~= own(before, other) + fills);
    }
}

/// What is planned under the name of no layer is nothing, and under the name of a layer its own fills.
proof fn lemma_layer_own(
    bounds: Cells,
    metal: Seq<Metal>,
    layers: Seq<LayerInfoView>,
    rules: Map<Seq<char>, LayerView>,
    name: Seq<char>,
)
    requires
        names_differ(layers),
    ensures
        ({
            let fills = own(plan_of(bounds, metal, layers, rules).planned, name);
            &&& (forall|i: int| !stands(layers, i, name)) ==> fills == Seq::<Fill>::empty()
            &&& forall|i: int| #[trigger]
                stands(layers, i, name) ==> fills == if rules.dom().contains(name) {
                    fills_on(bounds, metal, layers[i], rules[name])
                } else {
                    Seq::empty()
                }
        }),
    decreases layers.len(),
{
    let plan = plan_of(bounds, metal, layers, rules);
    let fills = own(plan.planned, name);
    if layers.len() > 0 {
        let less = layers.drop_last();
        let last = layers.last();
        let before = plan_of(bounds, metal, less, rules);
        assert(names_differ(less)) by {
            assert forall|i: int, j: int| 0 <= i < j < less.len() implies (#[trigger] less[i]).name != (
            #[trigger] less[j]).name by {
                assert(layers[i] == less[i] && layers[j] == less[j]);
            }
        }
        lemma_layer_own(bounds, metal, less, rules, name);
        if rules.dom().contains(last.name) {
            let more = fills_on(bounds, metal, last, rules[last.name]);
            lemma_own(before.planned, last.name, more, name);
            if last.name == name {
                assert forall|i: int| !stands(less, i, name) by {
                    if stands(less, i, name) {
                        assert(layers[i] == less[i]);
                        assert(layers[layers.len() - 1] == last);
                    }
                }
                assert(Seq::<Fill>::empty() + more =~= more);
            }
        } else if last.name == name {
            assert forall|i: int| !stands(less, i, name) by {
                if stands(less, i, name) {
                    assert(layers[i] == less[i]);
                    assert(layers[layers.len() - 1] == last);
                }
            }
        }
        assert(stands(layers, layers.len() - 1, last.name));
        assert forall|i: int| #[trigger] stands(layers, i, name) implies fills
            == if rules.dom().contains(name) {
            fills_on(bounds, metal, layers[i], rules[name])
        } else {
            Seq::empty()
        } by {
            if i < less.len() {
                assert(stands(less, i, name));
                assert(layers[i] == less[i]);
                if last.name == name {
                    assert(layers[layers.len() - 1] == last);
                }
            }
        }
        if forall|i: int| !stands(layers, i, name) {
            assert forall|i: int| !stands(less, i, name) by {
                if stands(less, i, name) {
                    assert(stands(layers, i, name));
                }
            }
        }
    }
}

/// What is planned under the name of a layer is exactly the plan of that layer, in its order: the
/// fills of the bounds around the metal with the layer's number, under the rules of its name, whatever
/// other layers there are before it and after it.
pub proof fn law_each_layer_gets_its_own(
    bounds: Cells,
    metal: Seq<Metal>,
    layers: Seq<LayerInfoView>,
    rules: Map<Seq<char>, LayerView>,
    i: int,
)
    requires
        names_differ(layers),
        0 <= i < layers.len(),
    ensures
        ({
            let layer = layers[i];
            own(plan_of(bounds, metal, layers, rules).planned, layer.name)
                == if rules.dom().contains(layer.name) {
                layer_fills(
                    bounds,
                    metal_cells(metal, layer.number),
                    rules[layer.name],
                    layer.direction == "HORIZONTAL"@,
                )
            } else {
                Seq::empty()
            }
        }),
{
    let layer = layers[i];
    lemma_metal_cells(metal, layer.number);
    lemma_layer_own(bounds, metal, layers, rules, layer.name);
    assert(stands(layers, i, layer.name));
}

/// The rectangles of a layer are those of its metal that hold a cell, in the order of the metal.
pub proof fn law_metal_of_a_layer(metal: Seq<Metal>, more: Seq<Metal>, m: Metal, layer: i64)
    ensures
        metal_on(metal + more, layer) == metal_on(metal, layer) + metal_on(more, layer),
        metal_on(seq![m], layer) == if m.layer == layer && m.rect.x0 < m.rect.x1 && m.rect.y0
            < m.rect.y1 {
            seq![m.rect]
        } else {
            Seq::empty()
        },
    decreases more.len(),
{
    let one = seq![m];
    let none = one.drop_last();
    assert(none.len() == 0);
    assert(one.last() == m);
    assert(metal_on(none, layer) =~= Seq::empty());
    assert(Seq::<Rect>::empty().push(m.rect) =~= seq![m.rect]);
    if more.len() == 0 {
        assert(metal + more =~= metal);
        assert(metal_on(metal, layer) + metal_on(more, layer) =~= metal_on(metal, layer));
    } else {
        let less = more.drop_last();
        law_metal_of_a_layer(metal, less, m, layer);
        assert((metal + more).drop_last() =~= metal + less);
        assert((metal + more).last() == more.last());
        let a = metal_on(metal, layer);
        let b = metal_on(less, layer);
        assert((a + b).push(more.last().rect) =~= a + b.push(more.last().rect));
    }
}

/// Whether no layer has this name.
pub open spec fn no_layer(layers: Seq<LayerInfoView>, name: Seq<char>) -> bool {
    forall|i: int| 0 <= i < layers.len() ==> (#[trigger] layers[i]).name != name
}

/// The layer that is found lacking is one that the rules name and no layer has the name of, and it
/// comes before every other such name; none is found exactly where each name in the rules is a
/// layer's.
pub proof fn law_which_layer_is_lacking(
    layers: Seq<LayerInfoView>,
    rules: Map<Seq<char>, LayerView>,
    other: Seq<char>,
)
    requires
        rules.dom().finite(),
    ensures
        match first_lacking(layers, rules) {
            Some(n) => {
                &&& rules.dom().contains(n)
                &&& no_layer(layers, n)
                &&& rules.dom().contains(other) && no_layer(layers, other) && other != n ==> before(
                    n,
                    other,
                )
            },
            None => rules.dom().contains(other) ==> !no_layer(layers, other),
        },
{
    law_lacking_layer_is_found(layers, rules);
    if rules.dom().contains(other) && no_layer(layers, other) {
        assert(lacking(layers, rules, other));
    }
}

} // verus!
