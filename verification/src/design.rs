//! Planning the fill of a whole design.

use std::collections::BTreeMap;

use vstd::prelude::*;

use crate::cells::Cells;
use crate::config::LayerView;
use crate::fill::Fill;
use crate::geometry::Rect;
use crate::layer::{layer_fills, plan_layer};
use crate::names::{has_name, in_name_order, map_of};
use crate::rects::covered;
use crate::region::Region;
use crate::rules::Rules;
use crate::text::{before, lemma_before, same, texts};

verus! {

/// Metal of the design on a layer, which is known by its number: a shape of an instance, an
/// obstruction, a part of the power grid or a part of a routed wire.
#[derive(Debug, Clone, Copy, PartialEq, Eq)]
pub struct Metal {
    pub layer: i64,
    pub rect: Rect,
}

/// The rectangles of the metal on a layer, without the empty ones.
pub open spec fn metal_on(metal: Seq<Metal>, layer: i64) -> Seq<Rect>
    decreases metal.len(),
{
    if metal.len() == 0 {
        Seq::empty()
    } else if metal.last().layer == layer && !metal.last().rect.empty() {
        metal_on(metal.drop_last(), layer).push(metal.last().rect)
    } else {
        metal_on(metal.drop_last(), layer)
    }
}

/// Whether the map holds, for each layer with metal, the rectangles on it.
pub open spec fn grouped(map: Map<i64, Vec<Rect>>, metal: Seq<Metal>) -> bool {
    forall|layer: i64|
        {
            &&& #[trigger] map.dom().contains(layer) <==> metal_on(metal, layer).len() > 0
            &&& map.dom().contains(layer) ==> map[layer]@ == metal_on(metal, layer)
        }
}

/// Everything already occupying a layer, for every layer: the design's own metal, which fill must
/// not touch.
pub fn non_fill_by_layer(metal: &Vec<Metal>) -> (by_layer: BTreeMap<i64, Vec<Rect>>)
    ensures
        grouped(by_layer@, metal@),
{
    let mut by_layer: BTreeMap<i64, Vec<Rect>> = BTreeMap::new();
    let mut i: usize = 0;
    while i < metal.len()
        invariant
            i <= metal@.len(),
            grouped(by_layer@, metal@.take(i as int)),
        decreases metal.len() - i,
    {
        let ghost before = by_layer@;
        let ghost now = metal@.take(i + 1);
        assert(now.drop_last() =~= metal@.take(i as int));
        let m = metal[i];
        if !m.rect.is_empty() {
            let mut rects: Vec<Rect> = match by_layer.remove(&m.layer) {
                Some(v) => v,
                None => Vec::new(),
            };
            rects.push(m.rect);
            by_layer.insert(m.layer, rects);
            assert forall|layer: i64|
                {
                    &&& #[trigger] by_layer@.dom().contains(layer) <==> metal_on(now, layer).len()
                        > 0
                    &&& by_layer@.dom().contains(layer) ==> by_layer@[layer]@ == metal_on(
                        now,
                        layer,
                    )
                } by {
                assert(before.dom().contains(layer) <==> metal_on(metal@.take(i as int), layer).len()
                    > 0);
            }
        }
        i = i + 1;
    }
    assert(metal@.take(i as int) =~= metal@);
    by_layer
}

/// A routing layer of the technology.
#[derive(Debug, PartialEq, Eq)]
pub struct LayerInfo {
    pub name: String,
    /// The preferred direction: `HORIZONTAL`, or anything else for a vertical layer.
    pub direction: String,
    pub number: i64,
}

/// What a [`LayerInfo`] holds.
pub struct LayerInfoView {
    pub name: Seq<char>,
    pub direction: Seq<char>,
    pub number: i64,
}

impl View for LayerInfo {
    type V = LayerInfoView;

    open spec fn view(&self) -> LayerInfoView {
        LayerInfoView {
            name: self.name@,
            direction: self.direction@,
            number: self.number,
        }
    }
}

/// What layers hold.
pub open spec fn layer_views(layers: Seq<LayerInfo>) -> Seq<LayerInfoView> {
    Seq::new(layers.len(), |i: int| layers[i]@)
}

/// The fill planned for a design.
#[derive(Debug)]
pub struct Plan {
    /// The fills, each with the name of its layer.
    pub planned: Vec<(String, Fill)>,
    /// The layers that the rules do not mention.
    pub skipped: Vec<String>,
}

/// What a [`Plan`] holds.
#[verifier::ext_equal]
pub struct PlanView {
    pub planned: Seq<(Seq<char>, Fill)>,
    pub skipped: Seq<Seq<char>>,
}

/// The fills with the names of their layers.
pub open spec fn named_fills(planned: Seq<(String, Fill)>) -> Seq<(Seq<char>, Fill)> {
    Seq::new(planned.len(), |i: int| (planned[i].0@, planned[i].1))
}

impl View for Plan {
    type V = PlanView;

    open spec fn view(&self) -> PlanView {
        PlanView { planned: named_fills(self.planned@), skipped: texts(self.skipped@) }
    }
}

/// Fills, each with the same name.
pub open spec fn under(name: Seq<char>, fills: Seq<Fill>) -> Seq<(Seq<char>, Fill)> {
    Seq::new(fills.len(), |i: int| (name, fills[i]))
}

/// The fills of one layer of the design.
pub open spec fn fills_on(
    bounds: Cells,
    metal: Seq<Metal>,
    layer: LayerInfoView,
    cfg: LayerView,
) -> Seq<Fill> {
    layer_fills(
        bounds,
        covered(metal_on(metal, layer.number)),
        cfg,
        layer.direction == "HORIZONTAL"@,
    )
}

/// The fill of a design, layer by layer; a layer without rules is skipped.
pub open spec fn plan_of(
    bounds: Cells,
    metal: Seq<Metal>,
    layers: Seq<LayerInfoView>,
    rules: Map<Seq<char>, LayerView>,
) -> PlanView
    decreases layers.len(),
{
    if layers.len() == 0 {
        PlanView { planned: Seq::empty(), skipped: Seq::empty() }
    } else {
        let before = plan_of(bounds, metal, layers.drop_last(), rules);
        let layer = layers.last();
        if rules.dom().contains(layer.name) {
            PlanView {
                planned: before.planned + under(
                    layer.name,
                    fills_on(bounds, metal, layer, rules[layer.name]),
                ),
                skipped: before.skipped,
            }
        } else {
            PlanView { planned: before.planned, skipped: before.skipped.push(layer.name) }
        }
    }
}

/// Whether the rules name a layer that the technology lacks.
pub open spec fn lacking(
    layers: Seq<LayerInfoView>,
    rules: Map<Seq<char>, LayerView>,
    name: Seq<char>,
) -> bool {
    rules.dom().contains(name) && forall|i: int|
        0 <= i < layers.len() ==> (#[trigger] layers[i]).name != name
}

/// Whether `name` is the first, in the order of the names, of the layers that the rules name and the
/// technology lacks.
pub open spec fn is_first_lacking(
    layers: Seq<LayerInfoView>,
    rules: Map<Seq<char>, LayerView>,
    name: Seq<char>,
) -> bool {
    lacking(layers, rules, name) && forall|m: Seq<char>| #[trigger]
        lacking(layers, rules, m) ==> m == name || before(name, m)
}

/// The first of the layers that the rules name and the technology lacks.
pub open spec fn first_lacking(
    layers: Seq<LayerInfoView>,
    rules: Map<Seq<char>, LayerView>,
) -> Option<Seq<char>> {
    if exists|n: Seq<char>| is_first_lacking(layers, rules, n) {
        Some(choose|n: Seq<char>| is_first_lacking(layers, rules, n))
    } else {
        None
    }
}

/// There is at most one first layer.
pub proof fn lemma_first_lacking(
    layers: Seq<LayerInfoView>,
    rules: Map<Seq<char>, LayerView>,
    name: Seq<char>,
)
    requires
        is_first_lacking(layers, rules, name),
    ensures
        first_lacking(layers, rules) == Some(name),
{
    let n = choose|n: Seq<char>| is_first_lacking(layers, rules, n);
    assert(is_first_lacking(layers, rules, n));
    assert(lacking(layers, rules, n) && lacking(layers, rules, name));
    lemma_before(n, name, n);
}

/// Whether the technology has a layer of this name.
fn has_layer(layers: &Vec<LayerInfo>, name: &str) -> (r: bool)
    ensures
        r == exists|i: int|
            0 <= i < layers@.len() && (#[trigger] layer_views(layers@)[i]).name == name@,
{
    let mut i: usize = 0;
    while i < layers.len()
        invariant
            i <= layers@.len(),
            forall|k: int| 0 <= k < i ==> (#[trigger] layer_views(layers@)[k]).name != name@,
        decreases layers.len() - i,
    {
        if same(layers[i].name.as_str(), name) {
            assert(layer_views(layers@)[i as int].name == name@);
            return true;
        }
        assert(layer_views(layers@)[i as int] == layers@[i as int]@);
        i = i + 1;
    }
    false
}

/// The first layer, in the order of the names, that the rules name and the technology lacks.
pub fn lacking_layer(layers: &Vec<LayerInfo>, rules: &Rules) -> (r: Option<String>)
    ensures
        match r {
            Some(n) => is_first_lacking(layer_views(layers@), rules@, n@) && first_lacking(
                layer_views(layers@),
                rules@,
            ) == Some(n@),
            None => first_lacking(layer_views(layers@), rules@) is None && forall|m: Seq<char>|
                !#[trigger] lacking(layer_views(layers@), rules@, m),
        },
{
    let ghost all = layer_views(layers@);
    let count: usize = rules.layers.len();
    let ghost list = rules.layers.list();
    let mut i: usize = 0;
    while i < count
        invariant
            i <= count == list.len(),
            list == rules.layers.list(),
            in_name_order(list),
            rules.layers@ == map_of(list),
            all == layer_views(layers@),
            forall|k: int| 0 <= k < i ==> !lacking(all, rules@, (#[trigger] list[k]).0@),
        decreases count - i,
    {
        let (name, _) = rules.layers.entry(i);
        if !has_layer(layers, name.as_str()) {
            proof {
                assert(has_name(list, list[i as int].0@));
                assert(lacking(all, rules@, name@));
                assert forall|m: Seq<char>| #[trigger] lacking(all, rules@, m) implies m == name@
                    || before(name@, m) by {
                    assert(has_name(list, m));
                    let k = choose|k: int| 0 <= k < list.len() && (#[trigger] list[k]).0@ == m;
                    if k > i {
                        assert(before(list[i as int].0@, list[k].0@));
                    }
                }
                lemma_first_lacking(all, rules@, name@);
            }
            return Some(name.clone());
        }
        i = i + 1;
    }
    assert forall|m: Seq<char>| !#[trigger] lacking(all, rules@, m) by {
        if lacking(all, rules@, m) {
            assert(has_name(list, m));
            let k = choose|k: int| 0 <= k < list.len() && (#[trigger] list[k]).0@ == m;
            assert(!lacking(all, rules@, list[k].0@));
        }
    }
    None
}

/// Puts the fills behind the others, under the name of their layer.
fn put_fills(planned: &mut Vec<(String, Fill)>, name: &String, fills: &Vec<Fill>)
    ensures
        named_fills(final(planned)@) == named_fills(old(planned)@) + under(name@, fills@),
{
    let ghost start = named_fills(planned@);
    let mut i: usize = 0;
    assert(start + under(name@, fills@.take(0)) =~= start);
    while i < fills.len()
        invariant
            i <= fills@.len(),
            named_fills(planned@) == start + under(name@, fills@.take(i as int)),
        decreases fills.len() - i,
    {
        let ghost before = planned@;
        planned.push((name.clone(), fills[i]));
        assert(named_fills(planned@) =~= named_fills(before).push((name@, fills@[i as int])));
        assert(under(name@, fills@.take(i + 1)) =~= under(name@, fills@.take(i as int)).push(
            (name@, fills@[i as int]),
        ));
        i = i + 1;
    }
    assert(fills@.take(i as int) =~= fills@);
}

/// Plans the fill of a design within `bounds`.
pub fn plan_design(
    bounds: Rect,
    metal: &Vec<Metal>,
    layers: &Vec<LayerInfo>,
    rules: &Rules,
) -> (plan: Plan)
    ensures
        plan@ == plan_of(bounds.cells(), metal@, layer_views(layers@), rules@),
{
    let by_layer = non_fill_by_layer(metal);
    let bounds_region = Region::from_rect(bounds);
    let none: Vec<Rect> = Vec::new();
    let mut plan = Plan { planned: Vec::new(), skipped: Vec::new() };
    let ghost all = layer_views(layers@);
    let mut i: usize = 0;
    assert(all.take(0) =~= Seq::empty());
    assert(plan@ =~= plan_of(bounds.cells(), metal@, all.take(0), rules@));
    while i < layers.len()
        invariant
            i <= layers@.len(),
            all == layer_views(layers@),
            grouped(by_layer@, metal@),
            bounds_region@ == bounds.cells(),
            none@ == Seq::<Rect>::empty(),
            plan@ == plan_of(bounds.cells(), metal@, all.take(i as int), rules@),
        decreases layers.len() - i,
    {
        let ghost before = plan@;
        let layer = &layers[i];
        assert(all.take(i + 1).drop_last() =~= all.take(i as int));
        assert(all.take(i + 1).last() == layer@);
        assert(all[i as int] == layer@);
        match rules.layers.get(layer.name.as_str()) {
            None => {
                plan.skipped.push(layer.name.clone());
                assert(plan@.skipped =~= before.skipped.push(layer@.name));
                assert(plan@ =~= plan_of(bounds.cells(), metal@, all.take(i + 1), rules@));
            },
            Some(cfg) => {
                assert(rules@[layer@.name] == cfg@);
                let is_horiz = same(layer.direction.as_str(), "HORIZONTAL");
                let occupied = match by_layer.get(&layer.number) {
                    Some(rects) => Region::from_rects(rects.as_slice()),
                    None => Region::from_rects(none.as_slice()),
                };
                proof {
                    let on = metal_on(metal@, layer.number);
                    if on.len() == 0 {
                        assert(on =~= none@);
                    }
                }
                let fills = plan_layer(&bounds_region, &occupied, cfg, is_horiz);
                put_fills(&mut plan.planned, &layer.name, &fills);
                assert(plan@ =~= plan_of(bounds.cells(), metal@, all.take(i + 1), rules@));
            },
        }
        i = i + 1;
    }
    assert(all.take(i as int) =~= all);
    plan
}

} // verus!
